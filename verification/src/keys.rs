//! Key bindings: the keys the viewer reacts to, their parsing from
//! configuration strings, and the mapping from a key event to an
//! action.  The terminal backend converts its raw events into the
//! plain key model here.
use vstd::prelude::*;
use vstd::string::StrSliceExecFns;
use vstd::string::StringExecFns;

use crate::width::MAX_TEXT_LEN;
use crate::width::push_char;
use crate::width::trim_spec;
use crate::width::trim_str;

verus! {

/// The keys the viewer distinguishes.
#[derive(Debug, Clone, Copy, PartialEq, Eq, Structural)]
pub enum KeyCode {
    Char(char),
    Tab,
    Enter,
    Esc,
    Backspace,
    Up,
    Down,
    Left,
    Right,
    PageUp,
    PageDown,
    Other,
}

/// Modifier bits, as terminals report them.
pub const MOD_NONE: u8 = 0;

pub const MOD_SHIFT: u8 = 1;

pub const MOD_CONTROL: u8 = 2;

#[derive(Debug, Clone, Copy, PartialEq, Eq, Structural)]
pub struct KeyModifiers {
    pub bits: u8,
}

#[derive(Debug, Clone, Copy, PartialEq, Eq, Structural)]
pub struct KeyEvent {
    pub code: KeyCode,
    pub modifiers: KeyModifiers,
}

/// A single binding: a key plus the modifiers it expects.
#[derive(Debug, Clone, Copy, PartialEq, Eq, Structural)]
pub struct KeyBinding {
    pub key: KeyCode,
    pub modifiers: KeyModifiers,
}

/// Whether the binding fires for the event: same key, and the same
/// modifiers once the shift bit is masked out (terminals may report
/// shift along with control).
pub open spec fn spec_matches(b: KeyBinding, e: KeyEvent) -> bool {
    b.key == e.code && (e.modifiers.bits & !MOD_SHIFT) == (b.modifiers.bits & !MOD_SHIFT)
}

impl KeyBinding {
    /// A plain character binding without modifiers.
    pub fn from_char(c: char) -> (r: Self)
        ensures
            r.key == KeyCode::Char(c),
            r.modifiers.bits == MOD_NONE,
    {
        Self { key: KeyCode::Char(c), modifiers: KeyModifiers { bits: MOD_NONE } }
    }

    pub fn matches(&self, event: &KeyEvent) -> (r: bool)
        ensures
            r == spec_matches(*self, *event),
    {
        if !(self.key == event.code) {
            return false;
        }
        let event_mods = event.modifiers.bits & !MOD_SHIFT;
        let self_mods = self.modifiers.bits & !MOD_SHIFT;
        event_mods == self_mods
    }

    /// The binding's display text: an optional control prefix and the
    /// key's name.
    pub fn display_string(&self) -> (r: String)
        ensures
            r@ == spec_display(*self),
    {
        let mut out = String::new();
        if self.modifiers.bits & MOD_CONTROL != 0 {
            out.append("C-");
            proof {
                reveal_strlit("C-");
                assert("C-"@ =~= seq!['C', '-']);
            }
        }
        match self.key {
            KeyCode::Char(' ') => {
                out.append("space");
                proof {
                    reveal_strlit("space");
                    assert("space"@ =~= seq!['s', 'p', 'a', 'c', 'e']);
                }
            },
            KeyCode::Char(c) => {
                push_char(&mut out, c);
            },
            KeyCode::Tab => {
                out.append("tab");
                proof {
                    reveal_strlit("tab");
                    assert("tab"@ =~= seq!['t', 'a', 'b']);
                }
            },
            KeyCode::Enter => {
                out.append("enter");
                proof {
                    reveal_strlit("enter");
                    assert("enter"@ =~= seq!['e', 'n', 't', 'e', 'r']);
                }
            },
            KeyCode::Esc => {
                out.append("esc");
                proof {
                    reveal_strlit("esc");
                    assert("esc"@ =~= seq!['e', 's', 'c']);
                }
            },
            KeyCode::Backspace => {
                out.append("backspace");
                proof {
                    reveal_strlit("backspace");
                    assert("backspace"@ =~= seq!['b', 'a', 'c', 'k', 's', 'p', 'a', 'c', 'e']);
                }
            },
            _ => {
                out.append("?");
                proof {
                    reveal_strlit("?");
                    assert("?"@ =~= seq!['?']);
                }
            },
        }
        proof {
            assert(out@ =~= spec_display(*self));
        }
        out
    }
}

/// The display text of a binding.
pub open spec fn spec_display(b: KeyBinding) -> Seq<char> {
    let prefix: Seq<char> = if b.modifiers.bits & MOD_CONTROL != 0 {
        seq!['C', '-']
    } else {
        Seq::empty()
    };
    prefix + match b.key {
        KeyCode::Char(c) => {
            if c == ' ' {
                seq!['s', 'p', 'a', 'c', 'e']
            } else {
                seq![c]
            }
        },
        KeyCode::Tab => seq!['t', 'a', 'b'],
        KeyCode::Enter => seq!['e', 'n', 't', 'e', 'r'],
        KeyCode::Esc => seq!['e', 's', 'c'],
        KeyCode::Backspace => seq!['b', 'a', 'c', 'k', 's', 'p', 'a', 'c', 'e'],
        _ => seq!['?'],
    }
}

/// The display text of a binding list: its first entry's text, or a
/// question mark for an empty list.
pub fn format_bindings(bindings: &Vec<KeyBinding>) -> (r: String)
    ensures
        bindings@.len() == 0 ==> r@ == seq!['?'],
        bindings@.len() > 0 ==> r@ == spec_display(bindings@[0]),
{
    if bindings.len() == 0 {
        let mut out = String::new();
        push_char(&mut out, '?');
        proof {
            assert(out@ =~= seq!['?']);
        }
        out
    } else {
        bindings[0].display_string()
    }
}

/// Case-insensitive equality of two ASCII characters.
pub open spec fn chars_eq_ci(a: char, b: char) -> bool {
    a == b || ('A' <= a && a <= 'Z' && a as int + 32 == b as int) || ('A' <= b && b <= 'Z' && b
        as int + 32 == a as int)
}

fn char_eq_ci(a: char, b: char) -> (r: bool)
    ensures
        r == chars_eq_ci(a, b),
{
    if a == b {
        return true;
    }
    let au = a as u32;
    let bu = b as u32;
    ('A' <= a && a <= 'Z' && au + 32 == bu) || ('A' <= b && b <= 'Z' && bu + 32 == au)
}

/// ASCII-case-insensitive string equality.
pub open spec fn spec_eq_ci(a: Seq<char>, b: Seq<char>) -> bool {
    a.len() == b.len() && forall|i: int| 0 <= i < a.len() ==> chars_eq_ci(a[i], #[trigger] b[i])
}

fn str_eq_ci(a: &str, b: &str) -> (r: bool)
    ensures
        r == spec_eq_ci(a@, b@),
{
    let na = a.unicode_len();
    let nb = b.unicode_len();
    if na != nb {
        return false;
    }
    let mut i: usize = 0;
    while i < na
        invariant
            0 <= i <= na,
            na == a@.len(),
            na == b@.len(),
            forall|j: int| 0 <= j < i ==> chars_eq_ci(a@[j], #[trigger] b@[j]),
        decreases na - i,
    {
        if !char_eq_ci(a.get_char(i), b.get_char(i)) {
            return false;
        }
        i = i + 1;
    }
    true
}

/// What a configuration key string parses to: an optional `c-` control
/// prefix, then a named key or a single character.
pub open spec fn spec_parse_key(s: Seq<char>) -> Option<KeyBinding> {
    let t = trim_spec(s);
    if t.len() == 0 {
        None
    } else {
        let has_ctrl = t.len() >= 2 && chars_eq_ci(t[0], 'c') && t[1] == '-';
        let key_part = if has_ctrl {
            t.skip(2)
        } else {
            t
        };
        let mods = KeyModifiers {
            bits: if has_ctrl {
                MOD_CONTROL
            } else {
                MOD_NONE
            },
        };
        if spec_eq_ci(key_part, seq!['s', 'p', 'a', 'c', 'e']) || key_part == seq![' '] {
            Some(KeyBinding { key: KeyCode::Char(' '), modifiers: mods })
        } else if spec_eq_ci(key_part, seq!['t', 'a', 'b']) {
            Some(KeyBinding { key: KeyCode::Tab, modifiers: mods })
        } else if spec_eq_ci(key_part, seq!['e', 'n', 't', 'e', 'r']) {
            Some(KeyBinding { key: KeyCode::Enter, modifiers: mods })
        } else if spec_eq_ci(key_part, seq!['e', 's', 'c']) || spec_eq_ci(
            key_part,
            seq!['e', 's', 'c', 'a', 'p', 'e'],
        ) {
            Some(KeyBinding { key: KeyCode::Esc, modifiers: mods })
        } else if spec_eq_ci(key_part, seq!['b', 'a', 'c', 'k', 's', 'p', 'a', 'c', 'e']) {
            Some(KeyBinding { key: KeyCode::Backspace, modifiers: mods })
        } else if key_part.len() == 1 {
            Some(KeyBinding { key: KeyCode::Char(key_part[0]), modifiers: mods })
        } else {
            None
        }
    }
}

/// Parse a key string such as a letter, a key name, or a control
/// chord written with a `c-` prefix.
pub fn parse_key_string(s: &str) -> (r: Option<KeyBinding>)
    requires
        s@.len() <= MAX_TEXT_LEN,
    ensures
        r == spec_parse_key(s@),
{
    let t = trim_str(s);
    let n = t.as_str().unicode_len();
    if n == 0 {
        return None;
    }
    let has_ctrl = n >= 2 && char_eq_ci(t.as_str().get_char(0), 'c') && t.as_str().get_char(1)
        == '-';
    let key_part: String = if has_ctrl {
        t.as_str().substring_char(2, n).to_owned()
    } else {
        t
    };
    proof {
        if has_ctrl {
            assert(key_part@ =~= trim_spec(s@).skip(2));
        }
    }
    let mods = KeyModifiers {
        bits: if has_ctrl {
            MOD_CONTROL
        } else {
            MOD_NONE
        },
    };
    let kp = key_part.as_str();
    proof {
        reveal_strlit("space");
        reveal_strlit(" ");
        reveal_strlit("tab");
        reveal_strlit("enter");
        reveal_strlit("esc");
        reveal_strlit("escape");
        reveal_strlit("backspace");
        assert("space"@ =~= seq!['s', 'p', 'a', 'c', 'e']);
        assert(" "@ =~= seq![' ']);
        assert("tab"@ =~= seq!['t', 'a', 'b']);
        assert("enter"@ =~= seq!['e', 'n', 't', 'e', 'r']);
        assert("esc"@ =~= seq!['e', 's', 'c']);
        assert("escape"@ =~= seq!['e', 's', 'c', 'a', 'p', 'e']);
        assert("backspace"@ =~= seq!['b', 'a', 'c', 'k', 's', 'p', 'a', 'c', 'e']);
    }
    if str_eq_ci(kp, "space") || crate::width::str_eq(kp, " ") {
        Some(KeyBinding { key: KeyCode::Char(' '), modifiers: mods })
    } else if str_eq_ci(kp, "tab") {
        Some(KeyBinding { key: KeyCode::Tab, modifiers: mods })
    } else if str_eq_ci(kp, "esc") || str_eq_ci(kp, "escape") {
        proof {
            assert(!spec_eq_ci(key_part@, seq!['t', 'a', 'b']));
            assert(!spec_eq_ci(key_part@, seq!['e', 'n', 't', 'e', 'r']));
        }
        Some(KeyBinding { key: KeyCode::Esc, modifiers: mods })
    } else if str_eq_ci(kp, "enter") {
        Some(KeyBinding { key: KeyCode::Enter, modifiers: mods })
    } else if str_eq_ci(kp, "backspace") {
        Some(KeyBinding { key: KeyCode::Backspace, modifiers: mods })
    } else if kp.unicode_len() == 1 {
        Some(KeyBinding { key: KeyCode::Char(kp.get_char(0)), modifiers: mods })
    } else {
        None
    }
}

/// A configuration value for a binding, as the loader hands it in: a
/// single key string, a list of key strings, or something else.
#[derive(Debug, Clone)]
pub enum ConfigValue {
    Text(String),
    List(Vec<String>),
    Other,
}

/// What a configuration value yields: each parseable entry, or the
/// default binding when nothing parses.
pub open spec fn spec_parse_bindings(v: ConfigValue, default: char) -> Seq<KeyBinding> {
    let fallback = seq![
        KeyBinding { key: KeyCode::Char(default), modifiers: KeyModifiers { bits: MOD_NONE } },
    ];
    match v {
        ConfigValue::Text(s) => {
            match spec_parse_key(s@) {
                Some(kb) => seq![kb],
                None => fallback,
            }
        },
        ConfigValue::List(items) => {
            let parsed = parse_list(items@.map_values(|t: String| t@));
            if parsed.len() == 0 {
                fallback
            } else {
                parsed
            }
        },
        ConfigValue::Other => fallback,
    }
}

/// The bindings of the parseable entries of a list, in order.
pub open spec fn parse_list(items: Seq<Seq<char>>) -> Seq<KeyBinding>
    decreases items.len(),
{
    if items.len() == 0 {
        Seq::empty()
    } else {
        parse_list(items.drop_last()) + match spec_parse_key(items.last()) {
            Some(kb) => seq![kb],
            None => Seq::empty(),
        }
    }
}

/// Parse a binding's configuration value, falling back to the default
/// character when nothing in it parses.
pub fn parse_bindings(value: &ConfigValue, default: char) -> (r: Vec<KeyBinding>)
    requires
        ({
            match *value {
                ConfigValue::Text(s) => s@.len() <= MAX_TEXT_LEN,
                ConfigValue::List(items) => forall|i: int|
                    0 <= i < items@.len() ==> (#[trigger] items@[i])@.len() <= MAX_TEXT_LEN,
                ConfigValue::Other => true,
            }
        }),
    ensures
        r@ == spec_parse_bindings(*value, default),
{
    match value {
        ConfigValue::Text(s) => {
            let mut out: Vec<KeyBinding> = Vec::new();
            match parse_key_string(s.as_str()) {
                Some(kb) => {
                    out.push(kb);
                    proof {
                        assert(out@ =~= spec_parse_bindings(*value, default));
                    }
                },
                None => {
                    out.push(KeyBinding::from_char(default));
                    proof {
                        assert(out@ =~= spec_parse_bindings(*value, default));
                    }
                },
            }
            out
        },
        ConfigValue::List(items) => {
            let ghost itv = items@.map_values(|t: String| t@);
            let mut out: Vec<KeyBinding> = Vec::new();
            let mut i: usize = 0;
            proof {
                assert(itv.take(0) =~= Seq::<Seq<char>>::empty());
                assert(out@ =~= parse_list(itv.take(0)));
            }
            while i < items.len()
                invariant
                    0 <= i <= items@.len(),
                    itv == items@.map_values(|t: String| t@),
                    forall|q: int| 0 <= q < items@.len() ==> (#[trigger] items@[q])@.len()
                        <= MAX_TEXT_LEN,
                    out@ == parse_list(itv.take(i as int)),
                decreases items@.len() - i,
            {
                let ghost o0 = out@;
                match parse_key_string(items[i].as_str()) {
                    Some(kb) => {
                        out.push(kb);
                    },
                    None => {
                    },
                }
                proof {
                    assert(itv.take(i + 1).drop_last() =~= itv.take(i as int));
                    assert(itv.take(i + 1).last() == itv[i as int]);
                    if spec_parse_key(itv[i as int]) is Some {
                        assert(out@ =~= o0 + seq![
                            spec_parse_key(itv[i as int])->Some_0,
                        ]);
                    } else {
                        assert(out@ =~= o0 + Seq::<KeyBinding>::empty());
                    }
                }
                i = i + 1;
            }
            proof {
                assert(itv.take(itv.len() as int) =~= itv);
            }
            if out.len() == 0 {
                out.push(KeyBinding::from_char(default));
                proof {
                    assert(out@ =~= spec_parse_bindings(*value, default));
                }
            }
            out
        },
        ConfigValue::Other => {
            let mut out: Vec<KeyBinding> = Vec::new();
            out.push(KeyBinding::from_char(default));
            proof {
                assert(out@ =~= spec_parse_bindings(*value, default));
            }
            out
        },
    }
}

/// Everything the viewer can be asked to do.
#[derive(Debug, Clone, Copy, PartialEq, Eq, Structural)]
pub enum Action {
    Up,
    Down,
    PageUp,
    PageDown,
    HalfPageUp,
    HalfPageDown,
    Search,
    SelectLink,
    SelectLinkAlt,
    SearchNext,
    SearchPrevious,
    Edit,
    Hover,
    Enter,
    Escape,
    ToTop,
    ToBottom,
    Help,
    Back,
    ToFileTree,
    Sort,
    Nothing,
}

/// The key bindings in force, one list per action.
#[derive(Debug, Clone)]
pub struct KeyConfig {
    pub up: Vec<KeyBinding>,
    pub down: Vec<KeyBinding>,
    pub page_up: Vec<KeyBinding>,
    pub page_down: Vec<KeyBinding>,
    pub half_page_up: Vec<KeyBinding>,
    pub half_page_down: Vec<KeyBinding>,
    pub search: Vec<KeyBinding>,
    pub search_next: Vec<KeyBinding>,
    pub search_previous: Vec<KeyBinding>,
    pub select_link: Vec<KeyBinding>,
    pub select_link_alt: Vec<KeyBinding>,
    pub edit: Vec<KeyBinding>,
    pub hover: Vec<KeyBinding>,
    pub top: Vec<KeyBinding>,
    pub bottom: Vec<KeyBinding>,
    pub back: Vec<KeyBinding>,
    pub file_tree: Vec<KeyBinding>,
    pub sort: Vec<KeyBinding>,
}

/// Whether any binding of the list fires for the event.
pub open spec fn spec_matches_any(bindings: Seq<KeyBinding>, e: KeyEvent) -> bool {
    exists|i: int| 0 <= i < bindings.len() && spec_matches(#[trigger] bindings[i], e)
}

pub fn matches_any(bindings: &Vec<KeyBinding>, event: &KeyEvent) -> (r: bool)
    ensures
        r == spec_matches_any(bindings@, *event),
{
    let mut i: usize = 0;
    while i < bindings.len()
        invariant
            0 <= i <= bindings@.len(),
            forall|j: int| 0 <= j < i ==> !spec_matches(#[trigger] bindings@[j], *event),
        decreases bindings@.len() - i,
    {
        if bindings[i].matches(event) {
            return true;
        }
        i = i + 1;
    }
    false
}

/// The action an event maps to, under the given configuration: the
/// hardwired navigation keys first, then each configurable list in a
/// fixed precedence order, then the hardwired search and help keys.
pub open spec fn spec_key_to_action(e: KeyEvent, c: KeyConfig) -> Action {
    if e.code is Up {
        Action::Up
    } else if e.code is Down {
        Action::Down
    } else if e.code is PageUp || e.code is Left {
        Action::PageUp
    } else if e.code is PageDown || e.code is Right {
        Action::PageDown
    } else if e.code is Enter {
        Action::Enter
    } else if e.code is Esc {
        Action::Escape
    } else if spec_matches_any(c.up@, e) {
        Action::Up
    } else if spec_matches_any(c.down@, e) {
        Action::Down
    } else if spec_matches_any(c.page_up@, e) {
        Action::PageUp
    } else if spec_matches_any(c.page_down@, e) {
        Action::PageDown
    } else if spec_matches_any(c.half_page_up@, e) {
        Action::HalfPageUp
    } else if spec_matches_any(c.half_page_down@, e) {
        Action::HalfPageDown
    } else if spec_matches_any(c.search@, e) {
        Action::Search
    } else if e.code == KeyCode::Char('/') && e.modifiers.bits == MOD_NONE {
        Action::Search
    } else if spec_matches_any(c.select_link@, e) {
        Action::SelectLink
    } else if spec_matches_any(c.select_link_alt@, e) {
        Action::SelectLinkAlt
    } else if spec_matches_any(c.search_next@, e) {
        Action::SearchNext
    } else if spec_matches_any(c.search_previous@, e) {
        Action::SearchPrevious
    } else if spec_matches_any(c.edit@, e) {
        Action::Edit
    } else if spec_matches_any(c.hover@, e) {
        Action::Hover
    } else if spec_matches_any(c.top@, e) {
        Action::ToTop
    } else if spec_matches_any(c.bottom@, e) {
        Action::ToBottom
    } else if spec_matches_any(c.back@, e) {
        Action::Back
    } else if spec_matches_any(c.file_tree@, e) {
        Action::ToFileTree
    } else if spec_matches_any(c.sort@, e) {
        Action::Sort
    } else if e.code == KeyCode::Char('?') && e.modifiers.bits == MOD_NONE {
        Action::Help
    } else {
        Action::Nothing
    }
}

/// Map a key event to an action under the given key configuration.
pub fn key_to_action(event: &KeyEvent, config: &KeyConfig) -> (r: Action)
    ensures
        r == spec_key_to_action(*event, *config),
{
    match event.code {
        KeyCode::Up => {
            return Action::Up;
        },
        KeyCode::Down => {
            return Action::Down;
        },
        KeyCode::PageUp | KeyCode::Left => {
            return Action::PageUp;
        },
        KeyCode::PageDown | KeyCode::Right => {
            return Action::PageDown;
        },
        KeyCode::Enter => {
            return Action::Enter;
        },
        KeyCode::Esc => {
            return Action::Escape;
        },
        _ => {
        },
    }
    if matches_any(&config.up, event) {
        return Action::Up;
    }
    if matches_any(&config.down, event) {
        return Action::Down;
    }
    if matches_any(&config.page_up, event) {
        return Action::PageUp;
    }
    if matches_any(&config.page_down, event) {
        return Action::PageDown;
    }
    if matches_any(&config.half_page_up, event) {
        return Action::HalfPageUp;
    }
    if matches_any(&config.half_page_down, event) {
        return Action::HalfPageDown;
    }
    if matches_any(&config.search, event) {
        return Action::Search;
    }
    if event.code == KeyCode::Char('/') && event.modifiers.bits == MOD_NONE {
        return Action::Search;
    }
    if matches_any(&config.select_link, event) {
        return Action::SelectLink;
    }
    if matches_any(&config.select_link_alt, event) {
        return Action::SelectLinkAlt;
    }
    if matches_any(&config.search_next, event) {
        return Action::SearchNext;
    }
    if matches_any(&config.search_previous, event) {
        return Action::SearchPrevious;
    }
    if matches_any(&config.edit, event) {
        return Action::Edit;
    }
    if matches_any(&config.hover, event) {
        return Action::Hover;
    }
    if matches_any(&config.top, event) {
        return Action::ToTop;
    }
    if matches_any(&config.bottom, event) {
        return Action::ToBottom;
    }
    if matches_any(&config.back, event) {
        return Action::Back;
    }
    if matches_any(&config.file_tree, event) {
        return Action::ToFileTree;
    }
    if matches_any(&config.sort, event) {
        return Action::Sort;
    }
    if event.code == KeyCode::Char('?') && event.modifiers.bits == MOD_NONE {
        return Action::Help;
    }
    Action::Nothing
}

/// One list with one plain character binding.
fn single(default: char) -> (r: Vec<KeyBinding>)
    ensures
        r@ == seq![
            KeyBinding { key: KeyCode::Char(default), modifiers: KeyModifiers { bits: MOD_NONE } },
        ],
{
    let mut out: Vec<KeyBinding> = Vec::new();
    out.push(KeyBinding::from_char(default));
    proof {
        assert(out@ =~= seq![
            KeyBinding { key: KeyCode::Char(default), modifiers: KeyModifiers { bits: MOD_NONE } },
        ]);
    }
    out
}

impl KeyConfig {
    /// The built-in bindings used when no configuration overrides
    /// them.
    pub fn default_config() -> (r: Self)
        ensures
            r.up@ == spec_single('k'),
            r.down@ == spec_single('j'),
            r.page_up@ == spec_single('u'),
            r.page_down@ == spec_single('d'),
            r.half_page_up@ == spec_single('h'),
            r.half_page_down@ == spec_single('l'),
            r.search@ == spec_single('f'),
            r.select_link@ == spec_single('s'),
            r.select_link_alt@ == spec_single('S'),
            r.search_next@ == spec_single('n'),
            r.search_previous@ == spec_single('N'),
            r.edit@ == spec_single('e'),
            r.hover@ == spec_single('K'),
            r.top@ == spec_single('g'),
            r.bottom@ == spec_single('G'),
            r.back@ == spec_single('b'),
            r.file_tree@ == spec_single('t'),
            r.sort@ == spec_single('o'),
    {
        KeyConfig {
            up: single('k'),
            down: single('j'),
            page_up: single('u'),
            page_down: single('d'),
            half_page_up: single('h'),
            half_page_down: single('l'),
            search: single('f'),
            select_link: single('s'),
            select_link_alt: single('S'),
            search_next: single('n'),
            search_previous: single('N'),
            edit: single('e'),
            hover: single('K'),
            top: single('g'),
            bottom: single('G'),
            back: single('b'),
            file_tree: single('t'),
            sort: single('o'),
        }
    }
}

/// The one-element binding list for a default character.
pub open spec fn spec_single(c: char) -> Seq<KeyBinding> {
    seq![KeyBinding { key: KeyCode::Char(c), modifiers: KeyModifiers { bits: MOD_NONE } }]
}

} // verus!
