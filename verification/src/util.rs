//! Application-level state kept beside the document: display mode,
//! overlay boxes, jump history, link classification, and layout of the
//! content column inside the terminal.
use vstd::prelude::*;
use vstd::string::StrSliceExecFns;

use crate::searchbox::SearchBox;

verus! {

#[derive(Debug, Clone, Copy, PartialEq, Eq, Structural)]
pub enum Mode {
    View,
    FileTree,
}

#[derive(Debug, Clone, Copy, PartialEq, Eq, Structural)]
pub enum Boxes {
    Error,
    Search,
    LinkPreview,
    Closed,
}

impl Default for Mode {
    fn default() -> (r: Self)
        ensures
            r == Mode::FileTree,
    {
        Mode::FileTree
    }
}

impl Default for Boxes {
    fn default() -> (r: Self)
        ensures
            r == Boxes::Closed,
    {
        Boxes::Closed
    }
}

/// One entry of the navigation history: a file that was open, or the
/// file tree.
#[derive(Debug, Clone, PartialEq, Eq)]
pub enum Jump {
    File(String),
    FileTree,
}

/// A stack of past jumps; popping an empty stack lands on the file tree.
#[derive(Debug, Clone)]
pub struct JumpHistory {
    pub history: Vec<Jump>,
}

impl JumpHistory {
    pub fn new() -> (r: Self)
        ensures
            r.history@ == Seq::<Jump>::empty(),
    {
        Self { history: Vec::new() }
    }

    pub fn push(&mut self, jump: Jump)
        ensures
            final(self).history@ == old(self).history@.push(jump),
    {
        self.history.push(jump);
    }

    /// Pop the latest jump; an empty history yields `Jump::FileTree`.
    pub fn pop(&mut self) -> (r: Jump)
        ensures
            old(self).history@.len() == 0 ==> {
                &&& r == Jump::FileTree
                &&& final(self).history@ == old(self).history@
            },
            old(self).history@.len() > 0 ==> {
                &&& r == old(self).history@.last()
                &&& final(self).history@ == old(self).history@.drop_last()
            },
    {
        if let Some(jump) = self.history.pop() {
            jump
        } else {
            Jump::FileTree
        }
    }
}

impl Default for JumpHistory {
    fn default() -> (r: Self)
        ensures
            r.history@ == Seq::<Jump>::empty(),
    {
        Self::new()
    }
}

/// The display mode that the latest jump would land on.
impl From<JumpHistory> for Mode {
    fn from(jump_history: JumpHistory) -> (r: Self)
    {
        match jump_history.history.last() {
            Some(jump) => match jump {
                Jump::File(_) => Mode::View,
                Jump::FileTree => Mode::FileTree,
            },
            None => Mode::FileTree,
        }
    }
}

impl vstd::std_specs::convert::FromSpecImpl<JumpHistory> for Mode {
    open spec fn obeys_from_spec() -> bool {
        true
    }

    open spec fn from_spec(t: JumpHistory) -> Mode {
        if t.history@.len() == 0 {
            Mode::FileTree
        } else if t.history@.last() is File {
            Mode::View
        } else {
            Mode::FileTree
        }
    }
}

/// Horizontal alignment of the content column.
#[derive(Debug, Clone, Copy, PartialEq, Eq, Structural)]
pub enum Centering {
    Left,
    Center,
    Right,
}

/// Markdown flavor for parsing behavior: CommonMark turns newlines
/// inside paragraphs into spaces, the other flavor keeps them as hard
/// line breaks.
#[derive(Debug, Clone, Copy, PartialEq, Eq, Structural)]
pub enum Flavor {
    CommonMark,
    Claude,
}

impl Default for Flavor {
    fn default() -> (r: Self)
        ensures
            r == Flavor::CommonMark,
    {
        Flavor::CommonMark
    }
}

/// Matching style for the in-document search.
#[derive(Debug, Clone, Copy, PartialEq, Eq, Structural)]
pub enum SearchStyle {
    Word,
    Flex,
    Fuzz,
}

impl Default for SearchStyle {
    fn default() -> (r: Self)
        ensures
            r == SearchStyle::Flex,
    {
        SearchStyle::Flex
    }
}

/// Values read from the user's configuration; the surrounding program
/// loads them and hands them in as plain data.
#[derive(Debug, Clone)]
pub struct GeneralConfig {
    pub width: u16,
    pub gitignore: bool,
    pub centering: Centering,
    pub help_menu: bool,
    pub emoji_check_marks: bool,
    pub flavor: Flavor,
    pub search_style: SearchStyle,
}

/// The x-offset at which the content column begins, for a terminal of
/// `terminal_width` cells, a configured column of `config_width` cells,
/// and the given alignment.  Never less than 2.
pub fn content_x(terminal_width: u16, config_width: u16, centering: &Centering) -> (r: u16)
    ensures
        centering is Left ==> r == 2,
        centering is Center ==> {
            let c: u16 = if terminal_width / 2 >= config_width / 2 {
                (terminal_width / 2 - config_width / 2) as u16
            } else {
                0
            };
            r == if c > 2 { c } else { 2u16 }
        },
        centering is Right ==> {
            let c: u16 = if config_width + 2 <= terminal_width {
                (terminal_width - (config_width + 2)) as u16
            } else {
                0
            };
            r == if c > 2 { c } else { 2u16 }
        },
    {
    match centering {
        Centering::Left => 2,
        Centering::Center => {
            let x = (terminal_width / 2).saturating_sub(config_width / 2);
            if x > 2 {
                x
            } else {
                2
            }
        },
        Centering::Right => {
            let x = if config_width <= u16::MAX - 2 {
                terminal_width.saturating_sub(config_width + 2)
            } else {
                0
            };
            if x > 2 {
                x
            } else {
                2
            }
        },
    }
}

/// The target of a followed link: a heading in the same document, a
/// markdown file, or anything external.
pub enum LinkType<'a> {
    Internal(&'a str),
    External(&'a str),
    MarkdownFile(&'a str),
}

/// True iff `s` ends with the two characters `md`.
pub open spec fn spec_ends_with_md(s: Seq<char>) -> bool {
    s.len() >= 2 && s[s.len() - 2] == 'm' && s[s.len() - 1] == 'd'
}

/// True iff some character of `s` is `c`.
pub open spec fn spec_contains_char(s: Seq<char>, c: char) -> bool {
    exists|i: int| 0 <= i < s.len() && s[i] == c
}

/// Classify a link target: a leading `#` is an in-document heading;
/// a name ending in `md`, or one without any dot, is a markdown file;
/// everything else is external.
impl<'a> LinkType<'a> {
    pub fn of(s: &'a str) -> (r: Self)
        ensures
            s@.len() > 0 && s@[0] == '#' ==> (r matches LinkType::Internal(t) && t@ == s@),
            !(s@.len() > 0 && s@[0] == '#') && (spec_ends_with_md(s@) || !spec_contains_char(
                s@,
                '.',
            )) ==> (r matches LinkType::MarkdownFile(t) && t@ == s@),
            !(s@.len() > 0 && s@[0] == '#') && !(spec_ends_with_md(s@) || !spec_contains_char(
                s@,
                '.',
            )) ==> (r matches LinkType::External(t) && t@ == s@),
    {
        let n = s.unicode_len();
        if n > 0 && s.get_char(0) == '#' {
            return LinkType::Internal(s);
        }
        let ends_md = n >= 2 && s.get_char(n - 2) == 'm' && s.get_char(n - 1) == 'd';
        if ends_md || !str_contains_char(s, '.') {
            return LinkType::MarkdownFile(s);
        }
        LinkType::External(s)
    }
}

/// Whether any character of `s` equals `c`, by a linear scan.
pub fn str_contains_char(s: &str, c: char) -> (r: bool)
    ensures
        r == spec_contains_char(s@, c),
{
    let n = s.unicode_len();
    let mut i: usize = 0;
    while i < n
        invariant
            0 <= i <= n,
            n == s@.len(),
            forall|j: int| 0 <= j < i ==> s@[j] != c,
        decreases n - i,
    {
        if s.get_char(i) == c {
            return true;
        }
        i = i + 1;
    }
    false
}

/// Scroll position, selection state and overlay boxes of the running
/// viewer.  `max_width` is the configured upper bound on the content
/// column; `set_width` clamps to it.
#[derive(Clone)]
pub struct App {
    pub vertical_scroll: u16,
    pub width: u16,
    pub max_width: u16,
    pub selected: bool,
    pub select_index: usize,
    pub mode: Mode,
    pub boxes: Boxes,
    pub history: JumpHistory,
    pub search_box: SearchBox,
    pub direct_file: bool,
}

impl App {
    /// Clear scroll, selection and overlay state; the history, search
    /// box and width settings stay.
    pub fn reset(&mut self)
        ensures
            final(self).vertical_scroll == 0,
            !final(self).selected,
            final(self).select_index == 0,
            final(self).boxes == Boxes::Closed,
            final(self).width == old(self).width,
            final(self).max_width == old(self).max_width,
            final(self).mode == old(self).mode,
            final(self).history == old(self).history,
            final(self).search_box == old(self).search_box,
            final(self).direct_file == old(self).direct_file,
    {
        self.vertical_scroll = 0;
        self.selected = false;
        self.select_index = 0;
        self.boxes = Boxes::Closed;
    }

    /// Set the content width, clamped to `max_width`; reports whether
    /// the stored width changed.
    pub fn set_width(&mut self, width: u16) -> (changed: bool)
        ensures
            final(self).width == if width <= old(self).max_width {
                width
            } else {
                old(self).max_width
            },
            changed == (old(self).width != final(self).width),
            final(self).vertical_scroll == old(self).vertical_scroll,
            final(self).max_width == old(self).max_width,
            final(self).selected == old(self).selected,
            final(self).select_index == old(self).select_index,
            final(self).mode == old(self).mode,
            final(self).boxes == old(self).boxes,
            final(self).history == old(self).history,
            final(self).search_box == old(self).search_box,
            final(self).direct_file == old(self).direct_file,
    {
        let temp_width = self.width;
        self.width = if width <= self.max_width {
            width
        } else {
            self.max_width
        };
        temp_width != self.width
    }

    pub fn width(&self) -> (r: u16)
        ensures
            r == self.width,
    {
        self.width
    }
}

impl Default for App {
    fn default() -> (r: Self)
        ensures
            r.vertical_scroll == 0,
            r.width == 0,
            r.max_width == 100,
            !r.selected,
            r.select_index == 0,
            r.mode == Mode::FileTree,
            r.boxes == Boxes::Closed,
            r.history.history@ == Seq::<Jump>::empty(),
            !r.direct_file,
            r.search_box.text@ == Seq::<char>::empty(),
            r.search_box.cursor == 0,
    {
        App {
            vertical_scroll: 0,
            width: 0,
            max_width: 100,
            selected: false,
            select_index: 0,
            mode: Mode::FileTree,
            boxes: Boxes::Closed,
            history: JumpHistory::new(),
            search_box: SearchBox::new(),
            direct_file: false,
        }
    }
}

} // verus!
