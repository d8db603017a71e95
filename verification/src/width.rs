//! Display-width measurement and width-aware string splitting.
//!
//! A character occupies a number of terminal cells given by the Unicode
//! width tables; a text's width is the sum over its characters.  All
//! splitting here works character-atomically: no character is ever cut
//! in half.
use vstd::prelude::*;
use vstd::string::StrSliceExecFns;
use vstd::string::StringExecFns;

verus! {

/// Upper bound on the character count of any single text span handled
/// by the layout code; keeps every width sum far from overflow.
pub const MAX_TEXT_LEN: usize = 0x100_0000;

/// Looser bound under which a width can still be measured without the
/// sum overflowing.
pub const MAX_MEASURE_LEN: usize = 0x1000_0000;

/// The number of terminal cells a character occupies: the width that
/// the Unicode width tables give it, with control characters counting
/// as zero.
pub uninterp spec fn char_width(c: char) -> nat;

/// The display width of a text: the sum of its characters' widths.
pub open spec fn text_width(s: Seq<char>) -> nat
    decreases s.len(),
{
    if s.len() == 0 {
        0
    } else {
        char_width(s[0]) + text_width(s.skip(1))
    }
}

/// Relies on `unicode_width::UnicodeWidthChar::width`: the character's
/// column width from the Unicode tables, `None` (here 0) for control
/// characters; the tables assign at most 3 columns.
#[verifier::external_body]
pub(crate) fn char_display_width(c: char) -> (r: usize)
    ensures
        r as nat == char_width(c),
        r <= 3,
{
    unicode_width::UnicodeWidthChar::width(c).unwrap_or(0)
}

/// Relies on `String::push`: appends exactly the given character.
#[verifier::external_body]
pub(crate) fn push_char(s: &mut String, c: char)
    ensures
        final(s)@ == old(s)@.push(c),
{
    s.push(c);
}

pub proof fn lemma_text_width_concat(a: Seq<char>, b: Seq<char>)
    ensures
        text_width(a + b) == text_width(a) + text_width(b),
    decreases a.len(),
{
    if a.len() == 0 {
        assert(a + b =~= b);
    } else {
        lemma_text_width_concat(a.skip(1), b);
        assert((a + b).skip(1) =~= a.skip(1) + b);
    }
}

pub proof fn lemma_text_width_snoc(s: Seq<char>, i: int)
    requires
        0 <= i < s.len(),
    ensures
        text_width(s.take(i + 1)) == text_width(s.take(i)) + char_width(s[i]),
{
    assert(s.take(i + 1) =~= s.take(i) + seq![s[i]]);
    lemma_text_width_concat(s.take(i), seq![s[i]]);
    assert(text_width(seq![s[i]]) == char_width(s[i]) + text_width(seq![s[i]].skip(1)));
    assert(seq![s[i]].skip(1) =~= Seq::<char>::empty());
}

/// The display width of `text`: the sum of its characters' widths.
pub fn display_width(text: &str) -> (r: usize)
    requires
        text@.len() <= MAX_MEASURE_LEN,
    ensures
        r as nat == text_width(text@),
        r <= 3 * text@.len(),
{
    let n = text.unicode_len();
    let mut sum: usize = 0;
    let mut i: usize = 0;
    while i < n
        invariant
            0 <= i <= n,
            n == text@.len(),
            n <= MAX_MEASURE_LEN,
            sum as nat == text_width(text@.take(i as int)),
            sum <= 3 * i,
        decreases n - i,
    {
        let cw = char_display_width(text.get_char(i));
        proof {
            lemma_text_width_snoc(text@, i as int);
        }
        sum = sum + cw;
        i = i + 1;
    }
    proof {
        assert(text@.take(n as int) =~= text@);
    }
    sum
}

/// Where a width-`max` prefix of `s` ends, scanning from character `i`
/// with `width` cells already used: the first point at which the next
/// character would exceed `max`, except that a first character too wide
/// on its own is taken alone.
pub open spec fn split_scan(s: Seq<char>, max: nat, i: nat, width: nat) -> nat
    decreases s.len() - i,
{
    if i >= s.len() {
        i
    } else {
        let cw = char_width(s[i as int]);
        if width + cw > max {
            if i == 0 {
                1
            } else {
                i
            }
        } else if width + cw == max {
            i + 1
        } else {
            split_scan(s, max, i + 1, width + cw)
        }
    }
}

/// The number of characters `split_by_width` keeps in its first result.
pub open spec fn split_point(s: Seq<char>, max: nat) -> nat {
    if max == 0 {
        0
    } else {
        split_scan(s, max, 0, 0)
    }
}

pub proof fn lemma_split_scan_bounds(s: Seq<char>, max: nat, i: nat, width: nat)
    requires
        i <= s.len(),
    ensures
        split_scan(s, max, i, width) <= s.len(),
        s.len() > 0 ==> (split_scan(s, max, i, width) >= 1 || split_scan(s, max, i, width) == i),
    decreases s.len() - i,
{
    if i < s.len() {
        let cw = char_width(s[i as int]);
        if width + cw > max {
        } else if width + cw == max {
        } else {
            lemma_split_scan_bounds(s, max, i + 1, width + cw);
        }
    }
}

pub proof fn lemma_split_point_bounds(s: Seq<char>, max: nat)
    ensures
        split_point(s, max) <= s.len(),
        max > 0 && s.len() > 0 ==> split_point(s, max) >= 1,
{
    if max > 0 {
        lemma_split_scan_bounds(s, max, 0, 0);
        if s.len() > 0 {
            let cw = char_width(s[0]);
            if cw > max {
            } else if cw == max {
            } else {
                lemma_split_scan_bounds(s, max, 1, cw);
            }
        }
    }
}

/// Split `text` into the prefix of `k` characters and the rest, where
/// `k` must not exceed the character count.
fn split_at_char(text: &str, k: usize) -> (r: (String, String))
    requires
        k <= text@.len(),
    ensures
        r.0@ == text@.take(k as int),
        r.1@ == text@.skip(k as int),
{
    let n = text.unicode_len();
    let head = text.substring_char(0, k).to_owned();
    let tail = text.substring_char(k, n).to_owned();
    proof {
        assert(head@ =~= text@.take(k as int));
        assert(tail@ =~= text@.skip(k as int));
    }
    (head, tail)
}

/// Split `text` where the accumulated character width first reaches
/// `max_width`.  A zero budget returns everything in the second part; a
/// first character wider than the whole budget is kept alone.  The two
/// parts always concatenate back to the input.
pub fn split_by_width(text: &str, max_width: usize) -> (r: (String, String))
    requires
        text@.len() <= MAX_TEXT_LEN,
    ensures
        r.0@ == text@.take(split_point(text@, max_width as nat) as int),
        r.1@ == text@.skip(split_point(text@, max_width as nat) as int),
        r.0@ + r.1@ == text@,
        max_width == 0 ==> r.0@.len() == 0,
        max_width > 0 && text@.len() > 0 ==> r.0@.len() >= 1,
{
    proof {
        lemma_split_point_bounds(text@, max_width as nat);
    }
    let n = text.unicode_len();
    if max_width == 0 {
        let r = split_at_char(text, 0);
        proof {
            assert(r.0@ + r.1@ =~= text@);
        }
        return r;
    }
    let mut width: usize = 0;
    let mut i: usize = 0;
    let mut k: usize = n;
    while i < n
        invariant
            0 <= i <= n,
            n == text@.len(),
            n <= MAX_TEXT_LEN,
            max_width >= 1,
            width as nat == text_width(text@.take(i as int)),
            width <= 3 * i,
            width < max_width,
            k == n,
            split_scan(text@, max_width as nat, 0, 0) == split_scan(
                text@,
                max_width as nat,
                i as nat,
                width as nat,
            ),
        decreases n - i,
    {
        let cw = char_display_width(text.get_char(i));
        proof {
            lemma_text_width_snoc(text@, i as int);
        }
        if width + cw > max_width {
            k = if i == 0 {
                1
            } else {
                i
            };
            let r = split_at_char(text, k);
            proof {
                assert(r.0@ + r.1@ =~= text@);
            }
            return r;
        } else if width + cw == max_width {
            k = i + 1;
            let r = split_at_char(text, k);
            proof {
                assert(r.0@ + r.1@ =~= text@);
            }
            return r;
        }
        width = width + cw;
        i = i + 1;
    }
    proof {
        assert(split_scan(text@, max_width as nat, n as nat, width as nat) == n);
    }
    let r = split_at_char(text, n);
    proof {
        assert(r.0@ + r.1@ =~= text@);
    }
    r
}

/// Unicode white-space characters, as the White_Space property lists
/// them.
pub open spec fn is_ws_char(c: char) -> bool {
    ('\u{0009}' <= c && c <= '\u{000D}') || c == ' ' || c == '\u{0085}' || c == '\u{00A0}'
        || c == '\u{1680}' || ('\u{2000}' <= c && c <= '\u{200A}') || c == '\u{2028}' || c
        == '\u{2029}' || c == '\u{202F}' || c == '\u{205F}' || c == '\u{3000}'
}

pub fn char_is_ws(c: char) -> (r: bool)
    ensures
        r == is_ws_char(c),
{
    ('\u{0009}' <= c && c <= '\u{000D}') || c == ' ' || c == '\u{0085}' || c == '\u{00A0}'
        || c == '\u{1680}' || ('\u{2000}' <= c && c <= '\u{200A}') || c == '\u{2028}' || c
        == '\u{2029}' || c == '\u{202F}' || c == '\u{205F}' || c == '\u{3000}'
}

/// The length of the white-space prefix of `s`.
pub open spec fn ws_prefix_len(s: Seq<char>) -> nat
    decreases s.len(),
{
    if s.len() == 0 {
        0
    } else if is_ws_char(s[0]) {
        1 + ws_prefix_len(s.skip(1))
    } else {
        0
    }
}

pub proof fn lemma_ws_prefix_step(s: Seq<char>, i: nat)
    requires
        i <= s.len(),
        forall|j: int| 0 <= j < i ==> is_ws_char(s[j]),
    ensures
        ws_prefix_len(s) == i + ws_prefix_len(s.skip(i as int)),
    decreases i,
{
    if i > 0 {
        assert(is_ws_char(s[0]));
        assert(forall|j: int| 0 <= j < i - 1 ==> is_ws_char(#[trigger] s.skip(1)[j]));
        lemma_ws_prefix_step(s.skip(1), (i - 1) as nat);
        assert(s.skip(1).skip(i - 1) =~= s.skip(i as int));
    } else {
        assert(s.skip(0) =~= s);
    }
}

/// True iff `s` consists of white space only (an empty text counts).
pub open spec fn spec_is_blank(s: Seq<char>) -> bool {
    forall|j: int| 0 <= j < s.len() ==> is_ws_char(s[j])
}

/// Whether the text is empty or all white space — what trimming it
/// would leave nothing of.
pub fn is_blank(s: &str) -> (r: bool)
    ensures
        r == spec_is_blank(s@),
{
    let n = s.unicode_len();
    let mut i: usize = 0;
    while i < n
        invariant
            0 <= i <= n,
            n == s@.len(),
            forall|j: int| 0 <= j < i ==> is_ws_char(s@[j]),
        decreases n - i,
    {
        if !char_is_ws(s.get_char(i)) {
            return false;
        }
        i = i + 1;
    }
    true
}

/// `s` with its leading white space removed.
pub fn trim_start_str(s: &str) -> (r: String)
    requires
        s@.len() <= MAX_TEXT_LEN,
    ensures
        r@ == s@.skip(ws_prefix_len(s@) as int),
        r@.len() <= s@.len(),
{
    let n = s.unicode_len();
    let mut i: usize = 0;
    while i < n && char_is_ws(s.get_char(i))
        invariant
            0 <= i <= n,
            n == s@.len(),
            forall|j: int| 0 <= j < i ==> is_ws_char(s@[j]),
        decreases n - i,
    {
        i = i + 1;
    }
    proof {
        lemma_ws_prefix_step(s@, i as nat);
        if i < n {
            assert(!is_ws_char(s@[i as int]));
            assert(ws_prefix_len(s@.skip(i as int)) == 0);
        } else {
            assert(s@.skip(i as int) =~= Seq::<char>::empty());
        }
    }
    s.substring_char(i, n).to_owned()
}

/// The length of the prefix of `s` made of `\n` characters.
pub open spec fn nl_prefix_len(s: Seq<char>) -> nat
    decreases s.len(),
{
    if s.len() == 0 {
        0
    } else if s[0] == '\n' {
        1 + nl_prefix_len(s.skip(1))
    } else {
        0
    }
}

pub proof fn lemma_nl_prefix_step(s: Seq<char>, i: nat)
    requires
        i <= s.len(),
        forall|j: int| 0 <= j < i ==> s[j] == '\n',
    ensures
        nl_prefix_len(s) == i + nl_prefix_len(s.skip(i as int)),
    decreases i,
{
    if i > 0 {
        assert(s[0] == '\n');
        assert(forall|j: int| 0 <= j < i - 1 ==> #[trigger] s.skip(1)[j] == '\n');
        lemma_nl_prefix_step(s.skip(1), (i - 1) as nat);
        assert(s.skip(1).skip(i - 1) =~= s.skip(i as int));
    } else {
        assert(s.skip(0) =~= s);
    }
}

/// `s` with every leading `\n` removed.
pub fn trim_leading_newlines(s: &str) -> (r: String)
    requires
        s@.len() <= MAX_TEXT_LEN,
    ensures
        r@ == s@.skip(nl_prefix_len(s@) as int),
        r@.len() <= s@.len(),
{
    let n = s.unicode_len();
    let mut i: usize = 0;
    while i < n && s.get_char(i) == '\n'
        invariant
            0 <= i <= n,
            n == s@.len(),
            forall|j: int| 0 <= j < i ==> s@[j] == '\n',
        decreases n - i,
    {
        i = i + 1;
    }
    proof {
        lemma_nl_prefix_step(s@, i as nat);
        if i < n {
            assert(nl_prefix_len(s@.skip(i as int)) == 0);
        } else {
            assert(s@.skip(i as int) =~= Seq::<char>::empty());
        }
    }
    s.substring_char(i, n).to_owned()
}


/// The length of the white-space suffix of `s`.
pub open spec fn ws_suffix_len(s: Seq<char>) -> nat
    decreases s.len(),
{
    if s.len() == 0 {
        0
    } else if is_ws_char(s.last()) {
        1 + ws_suffix_len(s.drop_last())
    } else {
        0
    }
}

proof fn lemma_ws_suffix_step(s: Seq<char>, k: nat)
    requires
        k <= s.len(),
        forall|j: int| s.len() - k <= j < s.len() ==> is_ws_char(s[j]),
    ensures
        ws_suffix_len(s) == k + ws_suffix_len(s.take(s.len() - k)),
    decreases k,
{
    if k > 0 {
        assert(is_ws_char(s.last()));
        assert(forall|j: int|
            s.drop_last().len() - (k - 1) <= j < s.drop_last().len() ==> is_ws_char(
                #[trigger] s.drop_last()[j],
            ));
        lemma_ws_suffix_step(s.drop_last(), (k - 1) as nat);
        assert(s.drop_last().take(s.len() - k) =~= s.take(s.len() - k));
    } else {
        assert(s.take(s.len() as int) =~= s);
    }
}

/// What trimming white space from both ends leaves.
pub open spec fn trim_spec(s: Seq<char>) -> Seq<char> {
    if spec_is_blank(s) {
        Seq::empty()
    } else {
        s.subrange(ws_prefix_len(s) as int, s.len() - ws_suffix_len(s))
    }
}

/// `s` without leading and trailing white space.
pub fn trim_str(s: &str) -> (r: String)
    requires
        s@.len() <= MAX_TEXT_LEN,
    ensures
        r@ == trim_spec(s@),
{
    let n = s.unicode_len();
    let mut a: usize = 0;
    while a < n && char_is_ws(s.get_char(a))
        invariant
            0 <= a <= n,
            n == s@.len(),
            forall|j: int| 0 <= j < a ==> is_ws_char(s@[j]),
        decreases n - a,
    {
        a = a + 1;
    }
    if a == n {
        proof {
            assert(spec_is_blank(s@));
        }
        return String::new();
    }
    let mut b: usize = n;
    while b > a && char_is_ws(s.get_char(b - 1))
        invariant
            a <= b <= n,
            n == s@.len(),
            a < n,
            !is_ws_char(s@[a as int]),
            forall|j: int| 0 <= j < a ==> is_ws_char(s@[j]),
            forall|j: int| b <= j < n ==> is_ws_char(s@[j]),
        decreases b,
    {
        b = b - 1;
    }
    proof {
        assert(!spec_is_blank(s@));
        lemma_ws_prefix_step(s@, a as nat);
        assert(ws_prefix_len(s@.skip(a as int)) == 0);
        assert(ws_prefix_len(s@) == a);
        lemma_ws_suffix_step(s@, (n - b) as nat);
        assert(!is_ws_char(s@[b - 1]));
        assert(ws_suffix_len(s@.take(b as int)) == 0) by {
            if s@.take(b as int).len() > 0 {
                assert(s@.take(b as int).last() == s@[b - 1]);
            }
        }
        assert(ws_suffix_len(s@) == n - b);
    }
    s.substring_char(a, b).to_owned()
}

/// Character-for-character string equality.
pub fn str_eq(a: &str, b: &str) -> (r: bool)
    ensures
        r == (a@ == b@),
{
    let na = a.unicode_len();
    let nb = b.unicode_len();
    if na != nb {
        return false;
    }
    let mut i: usize = 0;
    while i < na
        invariant
            0 <= i <= na,
            na == a@.len(),
            na == b@.len(),
            forall|j: int| 0 <= j < i ==> a@[j] == b@[j],
        decreases na - i,
    {
        if a.get_char(i) != b.get_char(i) {
            return false;
        }
        i = i + 1;
    }
    proof {
        assert(a@ =~= b@);
    }
    true
}

/// A run of `n` space characters.
pub open spec fn spec_spaces(n: nat) -> Seq<char> {
    Seq::new(n, |i: int| ' ')
}

pub fn repeat_spaces(n: usize) -> (r: String)
    ensures
        r@ == spec_spaces(n as nat),
{
    let mut s = String::new();
    let mut i: usize = 0;
    while i < n
        invariant
            0 <= i <= n,
            s@ =~= spec_spaces(i as nat),
        decreases n - i,
    {
        push_char(&mut s, ' ');
        proof {
            assert(s@ =~= spec_spaces(i as nat + 1));
        }
        i = i + 1;
    }
    proof {
        assert(s@ =~= spec_spaces(n as nat));
    }
    s
}

/// The decimal digits of `n`, most significant first.
pub open spec fn spec_digits(n: nat) -> Seq<char>
    decreases n,
{
    if n < 10 {
        seq![spec_digit_char(n)]
    } else {
        spec_digits(n / 10).push(spec_digit_char(n % 10))
    }
}

pub open spec fn spec_digit_char(d: nat) -> char {
    if d == 0 {
        '0'
    } else if d == 1 {
        '1'
    } else if d == 2 {
        '2'
    } else if d == 3 {
        '3'
    } else if d == 4 {
        '4'
    } else if d == 5 {
        '5'
    } else if d == 6 {
        '6'
    } else if d == 7 {
        '7'
    } else if d == 8 {
        '8'
    } else {
        '9'
    }
}

fn digit_char(d: u64) -> (r: char)
    requires
        d < 10,
    ensures
        r == spec_digit_char(d as nat),
{
    match d {
        0 => '0',
        1 => '1',
        2 => '2',
        3 => '3',
        4 => '4',
        5 => '5',
        6 => '6',
        7 => '7',
        8 => '8',
        _ => '9',
    }
}

fn push_digits(n: u64, s: &mut String)
    ensures
        final(s)@ == old(s)@ + spec_digits(n as nat),
    decreases n,
{
    if n < 10 {
        push_char(s, digit_char(n));
        proof {
            assert(old(s)@.push(spec_digit_char(n as nat)) =~= old(s)@ + spec_digits(n as nat));
        }
    } else {
        push_digits(n / 10, s);
        push_char(s, digit_char(n % 10));
        proof {
            assert((old(s)@ + spec_digits((n / 10) as nat)).push(
                spec_digit_char((n % 10) as nat),
            ) =~= old(s)@ + spec_digits(n as nat));
        }
    }
}

pub open spec fn pow10(k: nat) -> nat
    decreases k,
{
    if k == 0 {
        1
    } else {
        10 * pow10((k - 1) as nat)
    }
}

pub proof fn lemma_digits_len(n: nat, k: nat)
    requires
        n < pow10(k),
        k >= 1,
    ensures
        spec_digits(n).len() <= k,
    decreases k,
{
    if n < 10 {
    } else {
        if k == 1 {
            assert(pow10(1) == 10);
        }
        assert(pow10(k) == 10 * pow10((k - 1) as nat));
        assert(n / 10 < pow10((k - 1) as nat)) by (nonlinear_arith)
            requires
                n < 10 * pow10((k - 1) as nat),
                n >= 10,
        ;
        lemma_digits_len(n / 10, (k - 1) as nat);
    }
}

/// Digits never begin with white space (the first character is a
/// decimal digit).
pub proof fn lemma_digits_first(n: nat)
    ensures
        spec_digits(n).len() >= 1,
        !is_ws_char(spec_digits(n)[0]),
        ws_prefix_len(spec_digits(n)) == 0,
    decreases n,
{
    if n < 10 {
    } else {
        lemma_digits_first(n / 10);
        assert(spec_digits(n)[0] == spec_digits(n / 10)[0]);
    }
}

/// The decimal rendering of `n`.
pub fn u64_to_string(n: u64) -> (r: String)
    ensures
        r@ == spec_digits(n as nat),
        r@.len() <= 20,
{
    proof {
        reveal_with_fuel(pow10, 21);
        assert(pow10(20) > 0xFFFF_FFFF_FFFF_FFFF);
        lemma_digits_len(n as nat, 20);
    }
    real_u64_to_string_inner(n)
}

fn real_u64_to_string_inner(n: u64) -> (r: String)
    ensures
        r@ == spec_digits(n as nat),
{
    let mut s = String::new();
    push_digits(n, &mut s);
    proof {
        assert(Seq::<char>::empty() + spec_digits(n as nat) =~= spec_digits(n as nat));
    }
    s
}

} // verus!
