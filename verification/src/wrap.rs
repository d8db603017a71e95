//! The line-wrapping engine: width-aware word wrap with optional
//! hyphenation, shared by paragraph, quote and task layout and by
//! table-cell re-wrapping.
//!
//! Words are accumulated onto the current line while they fit.  A word
//! that fits on a line of its own starts a fresh line (leading white
//! space trimmed); a word wider than the whole budget is split by
//! display width, with a trailing hyphen on each fragment when
//! hyphenation is on and the budget leaves room.  A leading `\n` in a
//! word is a hard line break.
//!
//! Two details differ knowingly from a straight reading of the
//! algorithm: a line already wider than the budget is flushed before
//! splitting (instead of overflowing the subtraction), and a fragment
//! of a single character is never hyphenated (moving that character to
//! the next line would make no progress).
use vstd::prelude::*;
use vstd::string::StrSliceExecFns;
use vstd::string::StringExecFns;

use crate::width::MAX_TEXT_LEN;
use crate::width::display_width;
use crate::width::nl_prefix_len;
use crate::width::push_char;
use crate::width::split_by_width;
use crate::width::split_point;
use crate::width::lemma_split_point_bounds;
use crate::width::text_width;
use crate::width::trim_leading_newlines;
use crate::width::trim_start_str;
use crate::width::ws_prefix_len;
use crate::word::Word;
use crate::word::WordM;
use crate::word::WordType;

verus! {

/// The image of a line: the images of its words in order.
pub open spec fn line_view(l: Seq<Word>) -> Seq<WordM> {
    l.map_values(|w: Word| w@)
}

/// The image of a sequence of lines.
pub open spec fn view_lines(ls: Seq<Vec<Word>>) -> Seq<Seq<WordM>> {
    ls.map_values(|l: Vec<Word>| line_view(l@))
}

/// The image of a word list.
pub open spec fn view_words(ws: Seq<Word>) -> Seq<WordM> {
    ws.map_values(|w: Word| w@)
}

pub proof fn lemma_line_view_push(l: Seq<Word>, w: Word)
    ensures
        line_view(l.push(w)) == line_view(l).push(w@),
{
    assert(line_view(l.push(w)) =~= line_view(l).push(w@));
}

pub proof fn lemma_view_lines_push(ls: Seq<Vec<Word>>, v: Vec<Word>)
    ensures
        view_lines(ls.push(v)) == view_lines(ls).push(line_view(v@)),
{
    assert(view_lines(ls.push(v)) =~= view_lines(ls).push(line_view(v@)));
}

/// Whether the text ends in a hyphen.
pub open spec fn ends_dash(s: Seq<char>) -> bool {
    s.len() > 0 && s[s.len() - 1] == '-'
}

fn str_ends_dash(s: &str) -> (r: bool)
    ensures
        r == ends_dash(s@),
{
    let n = s.unicode_len();
    n > 0 && s.get_char(n - 1) == '-'
}

/// Move the last character of a fragment onto the start of the rest
/// and close the fragment with a hyphen.
fn hyphen_move(h: String, t: String) -> (r: (String, String))
    requires
        h@.len() >= 1,
    ensures
        r.0@ == h@.drop_last().push('-'),
        r.1@ == seq![h@.last()] + t@,
{
    let n = h.as_str().unicode_len();
    let last = h.as_str().get_char(n - 1);
    let mut h2 = h.as_str().substring_char(0, n - 1).to_owned();
    push_char(&mut h2, '-');
    let mut t2 = String::new();
    push_char(&mut t2, last);
    t2.append(t.as_str());
    proof {
        assert(h2@ =~= h@.drop_last().push('-'));
        assert(t2@ =~= seq![h@.last()] + t@);
    }
    (h2, t2)
}

/// The running state of the wrap: finished lines, the line being
/// filled, and that line's accumulated display width.
pub ghost struct WrapState {
    pub lines: Seq<Seq<WordM>>,
    pub line: Seq<WordM>,
    pub line_len: nat,
}

pub open spec fn wrap_init() -> WrapState {
    WrapState { lines: Seq::empty(), line: Seq::empty(), line_len: 0 }
}

/// The split index used for an over-wide word: where the width budget
/// `sw` is first filled, clamped into `[1, len]`.
pub open spec fn clamped_split(s: Seq<char>, sw: nat) -> nat {
    let k0 = split_point(s, sw);
    if k0 == 0 {
        1
    } else if k0 > s.len() {
        s.len()
    } else {
        k0
    }
}

/// Lines produced from the rest of an over-wide word: while the rest
/// is wider than the budget, a budget-wide fragment (hyphenated when
/// allowed) becomes a line of its own; what remains becomes the new
/// current line.
pub open spec fn spec_split_rest(
    nl: Seq<char>,
    width: nat,
    hy: bool,
    kind: WordType,
    lines: Seq<Seq<WordM>>,
) -> WrapState
    decreases nl.len(),
{
    if text_width(nl) > width && nl.len() > 0 {
        let sw: nat = if hy && !ends_dash(nl) && width >= 1 {
            (width - 1) as nat
        } else {
            width
        };
        let k = clamped_split(nl, sw);
        let h0 = nl.take(k as int);
        let t0 = nl.skip(k as int);
        let move_h = hy && !ends_dash(nl) && h0.len() >= 2;
        let h = if move_h {
            h0.drop_last().push('-')
        } else {
            h0
        };
        let t = if move_h {
            seq![h0.last()] + t0
        } else {
            t0
        };
        spec_split_rest(
            t,
            width,
            hy,
            kind,
            lines.push(seq![WordM { content: h, kind, prev: None }]),
        )
    } else if nl.len() == 0 {
        WrapState { lines, line: Seq::empty(), line_len: 0 }
    } else {
        WrapState {
            lines,
            line: seq![WordM { content: nl, kind, prev: None }],
            line_len: text_width(nl),
        }
    }
}

/// One word's effect on the wrap state.
pub open spec fn spec_wrap_word(st: WrapState, w: WordM, width: nat, hy: bool) -> WrapState {
    if w.content.len() > 0 && w.content[0] == '\n' {
        // hard line break
        let trimmed = w.content.skip(nl_prefix_len(w.content) as int);
        if trimmed.len() > 0 {
            WrapState {
                lines: st.lines.push(st.line),
                line: seq![WordM { content: trimmed, kind: w.kind, prev: w.prev }],
                line_len: text_width(trimmed),
            }
        } else {
            WrapState { lines: st.lines.push(st.line), line: Seq::empty(), line_len: 0 }
        }
    } else {
        let wl = text_width(w.content);
        if st.line_len + wl <= width {
            WrapState {
                lines: st.lines,
                line: st.line.push(w),
                line_len: st.line_len + wl,
            }
        } else if wl <= width {
            let trimmed = w.content.skip(ws_prefix_len(w.content) as int);
            WrapState {
                lines: st.lines.push(st.line),
                line: seq![WordM { content: trimmed, kind: w.kind, prev: w.prev }],
                line_len: text_width(trimmed),
            }
        } else {
            let st1 = if width < st.line_len + 4 {
                WrapState { lines: st.lines.push(st.line), line: Seq::empty(), line_len: 0 }
            } else {
                st
            };
            let swi: int = if hy && !ends_dash(w.content) {
                width - st1.line_len - 1
            } else {
                width - st1.line_len
            };
            let sw: nat = if swi >= 1 {
                swi as nat
            } else {
                1
            };
            let k = clamped_split(w.content, sw);
            let h0 = w.content.take(k as int);
            let t0 = w.content.skip(k as int);
            let move_h = hy && !ends_dash(h0) && h0.len() >= 2;
            let h = if move_h {
                h0.drop_last().push('-')
            } else {
                h0
            };
            let t = if move_h {
                seq![h0.last()] + t0
            } else {
                t0
            };
            let lines2 = st1.lines.push(
                st1.line.push(WordM { content: h, kind: w.kind, prev: None }),
            );
            spec_split_rest(t, width, hy, w.kind, lines2)
        }
    }
}

/// The wrap state after all the given words, from the given state.
pub open spec fn spec_wrap_words(st: WrapState, ws: Seq<WordM>, width: nat, hy: bool) -> WrapState
    decreases ws.len(),
{
    if ws.len() == 0 {
        st
    } else {
        spec_wrap_words(spec_wrap_word(st, ws[0], width, hy), ws.skip(1), width, hy)
    }
}

#[verifier::rlimit(60)]
pub proof fn lemma_wrap_words_snoc(st: WrapState, s: Seq<WordM>, x: WordM, width: nat, hy: bool)
    ensures
        spec_wrap_words(st, s.push(x), width, hy) == spec_wrap_word(
            spec_wrap_words(st, s, width, hy),
            x,
            width,
            hy,
        ),
    decreases s.len(),
{
    reveal_with_fuel(spec_wrap_words, 3);
    if s.len() == 0 {
        assert(s.push(x)[0] == x);
        assert(s.push(x).skip(1) =~= Seq::<WordM>::empty());
    } else {
        assert(s.push(x)[0] == s[0]);
        assert(s.push(x).skip(1) =~= s.skip(1).push(x));
        lemma_wrap_words_snoc(spec_wrap_word(st, s[0], width, hy), s.skip(1), x, width, hy);
        assert(spec_wrap_words(st, s.push(x), width, hy) == spec_wrap_words(
            spec_wrap_word(st, s[0], width, hy),
            s.skip(1).push(x),
            width,
            hy,
        ));
    }
}

/// The finished wrap of a word list: all states folded, with a final
/// non-empty current line flushed.
pub open spec fn spec_word_wrapping(ws: Seq<WordM>, width: nat, allow_hyphen: bool) -> Seq<
    Seq<WordM>,
> {
    let hy = allow_hyphen && width > 4;
    let st = spec_wrap_words(wrap_init(), ws, width, hy);
    if st.line.len() > 0 {
        st.lines.push(st.line)
    } else {
        st.lines
    }
}

/// Wrap `words` to lines of at most `width` display cells (single
/// over-wide words excepted), hyphenating split fragments when
/// `allow_hyphen` is set and the width budget is above 4.
#[verifier::rlimit(80)]
pub fn word_wrapping(words: &Vec<Word>, width: usize, allow_hyphen: bool) -> (r: Vec<Vec<Word>>)
    requires
        1 <= width <= MAX_TEXT_LEN,
        forall|j: int| 0 <= j < words@.len() ==> #[trigger] words@[j]@.content.len()
            <= MAX_TEXT_LEN,
    ensures
        view_lines(r@) == spec_word_wrapping(view_words(words@), width as nat, allow_hyphen),
{
    let enable_hyphen = allow_hyphen && width > 4;
    let ghost vw = view_words(words@);
    let ghost hy = enable_hyphen;

    let mut lines: Vec<Vec<Word>> = Vec::new();
    let mut line: Vec<Word> = Vec::new();
    let mut line_len: usize = 0;
    let n = words.len();
    let mut i: usize = 0;

    proof {
        assert(view_lines(lines@) =~= wrap_init().lines);
        assert(line_view(line@) =~= wrap_init().line);
        assert(vw.take(0) =~= Seq::<WordM>::empty());
    }

    while i < n
        invariant
            0 <= i <= n,
            n == words@.len(),
            vw == view_words(words@),
            hy == enable_hyphen,
            hy == (allow_hyphen && width > 4),
            1 <= width <= MAX_TEXT_LEN,
            forall|j: int| 0 <= j < words@.len() ==> #[trigger] words@[j]@.content.len()
                <= MAX_TEXT_LEN,
            view_lines(lines@) == spec_wrap_words(
                wrap_init(),
                vw.take(i as int),
                width as nat,
                hy,
            ).lines,
            line_view(line@) == spec_wrap_words(
                wrap_init(),
                vw.take(i as int),
                width as nat,
                hy,
            ).line,
            line_len as nat == spec_wrap_words(
                wrap_init(),
                vw.take(i as int),
                width as nat,
                hy,
            ).line_len,
            line_len <= 3 * MAX_TEXT_LEN + width,
        decreases n - i,
    {
        let ghost st = spec_wrap_words(wrap_init(), vw.take(i as int), width as nat, hy);
        let ghost w = vw[i as int];
        proof {
            assert(vw.take(i + 1) =~= vw.take(i as int).push(vw[i as int]));
            lemma_wrap_words_snoc(wrap_init(), vw.take(i as int), vw[i as int], width as nat, hy);
            assert(words@[i as int]@ == w);
        }
        let ghost target = spec_wrap_word(st, w, width as nat, hy);
        let word = &words[i];
        let c_len = word.content().unicode_len();

        if c_len > 0 && word.content().get_char(0) == '\n' {
            // A leading newline is a hard line break.
            let ghost l0 = lines@;
            let ghost cur0 = line;
            lines.push(line);
            line = Vec::new();
            line_len = 0;
            proof {
                lemma_view_lines_push(l0, cur0);
                assert(view_lines(lines@) == st.lines.push(st.line));
            }
            proof {
                assert(words@[i as int]@.content.len() <= MAX_TEXT_LEN);
            }
            let trimmed = trim_leading_newlines(word.content());
            if !trimmed.as_str().is_empty() {
                let lw = display_width(trimmed.as_str());
                let mut w2 = word.clone();
                w2.set_content(trimmed);
                line_len = lw;
                line.push(w2);
                proof {
                    assert(line_view(line@) =~= target.line);
                }
            } else {
                proof {
                    assert(line_view(line@) =~= target.line);
                }
            }
        } else {
            let word_len = display_width(word.content());
            if line_len + word_len <= width {
                let ghost cur0 = line@;
                line.push(word.clone());
                line_len = line_len + word_len;
                proof {
                    lemma_line_view_push(cur0, words@[i as int]);
                    assert(line_view(line@) == target.line);
                }
            } else if word_len <= width {
                let ghost l0 = lines@;
                let ghost cur0 = line;
                lines.push(line);
                proof {
                    assert(words@[i as int]@.content.len() <= MAX_TEXT_LEN);
                }
                let trimmed = trim_start_str(word.content());
                let lw = display_width(trimmed.as_str());
                let mut w2 = word.clone();
                w2.set_content(trimmed);
                line_len = lw;
                line = Vec::new();
                line.push(w2);
                proof {
                    lemma_view_lines_push(l0, cur0);
                    assert(view_lines(lines@) == st.lines.push(st.line));
                    assert(line_view(line@) =~= target.line);
                }
            } else {
                // The word is wider than the whole budget: split it.
                let kind = word.kind();
                proof {
                    assert(w.content.len() > 0);
                }
                if width < line_len + 4 {
                    let ghost l0 = lines@;
                    let ghost cur0 = line;
                    lines.push(line);
                    line = Vec::new();
                    line_len = 0;
                    proof {
                        lemma_view_lines_push(l0, cur0);
                    }
                }
                let ghost st1 = if width < st.line_len + 4 {
                    WrapState { lines: st.lines.push(st.line), line: Seq::empty(), line_len: 0 }
                } else {
                    st
                };
                proof {
                    assert(view_lines(lines@) == st1.lines);
                    assert(line_view(line@) == st1.line);
                    assert(line_len as nat == st1.line_len);
                }
                let full_ends = str_ends_dash(word.content());
                let sw = if enable_hyphen && !full_ends {
                    width - line_len - 1
                } else {
                    width - line_len
                };
                let (h0, t0) = split_by_width(word.content(), sw);
                proof {
                    lemma_split_point_bounds(w.content, sw as nat);
                    assert(clamped_split(w.content, sw as nat) == split_point(
                        w.content,
                        sw as nat,
                    ));
                }
                let h0_ends = str_ends_dash(h0.as_str());
                let h0_len = h0.as_str().unicode_len();
                let use_move = enable_hyphen && !h0_ends && h0_len >= 2;
                let ghost h0g = h0@;
                let (h, t) = if use_move {
                    hyphen_move(h0, t0)
                } else {
                    (h0, t0)
                };
                let ghost cur0 = line@;
                let ghost l0 = lines@;
                line.push(Word::new(h, kind));
                lines.push(line);
                line = Vec::new();
                line_len = 0;
                proof {
                    lemma_line_view_push(cur0, lines@.last()@.last());
                    lemma_view_lines_push(l0, lines@.last());
                    assert(view_lines(lines@) =~= st1.lines.push(
                        st1.line.push(WordM { content: h@, kind: w.kind, prev: None }),
                    ));
                    assert(target == spec_split_rest(
                        t@,
                        width as nat,
                        hy,
                        w.kind,
                        view_lines(lines@),
                    ));
                }
                let mut nl = t;
                while display_width(nl.as_str()) > width
                    invariant
                        1 <= width <= MAX_TEXT_LEN,
                        hy == enable_hyphen,
                        hy == (allow_hyphen && width > 4),
                        nl@.len() <= MAX_TEXT_LEN,
                        target == spec_split_rest(
                            nl@,
                            width as nat,
                            hy,
                            kind,
                            view_lines(lines@),
                        ),
                        kind == w.kind,
                    decreases nl@.len(),
                {
                    let ghost nlg = nl@;
                    let ghost lsg = view_lines(lines@);
                    let nl_ends = str_ends_dash(nl.as_str());
                    let sw2 = if enable_hyphen && !nl_ends {
                        width - 1
                    } else {
                        width
                    };
                    let (h0, t0) = split_by_width(nl.as_str(), sw2);
                    proof {
                        assert(nl@.len() > 0);
                        lemma_split_point_bounds(nlg, sw2 as nat);
                        assert(clamped_split(nlg, sw2 as nat) == split_point(nlg, sw2 as nat));
                    }
                    let h0_len = h0.as_str().unicode_len();
                    let use_move2 = enable_hyphen && !nl_ends && h0_len >= 2;
                    let ghost h0g2 = h0@;
                    let (h2, t2) = if use_move2 {
                        hyphen_move(h0, t0)
                    } else {
                        (h0, t0)
                    };
                    let ghost l0 = lines@;
                    let mut single: Vec<Word> = Vec::new();
                    single.push(Word::new(h2, kind));
                    lines.push(single);
                    proof {
                        lemma_view_lines_push(l0, lines@.last());
                        assert(line_view(lines@.last()@) =~= seq![
                            WordM { content: h2@, kind: kind, prev: None },
                        ]);
                        assert(view_lines(lines@) == lsg.push(
                            seq![WordM { content: h2@, kind: kind, prev: None }],
                        ));
                        assert(spec_split_rest(nlg, width as nat, hy, kind, lsg)
                            == spec_split_rest(t2@, width as nat, hy, kind, view_lines(lines@)));
                    }
                    nl = t2;
                }
                let ghost nlg = nl@;
                if nl.as_str().is_empty() {
                    line = Vec::new();
                    line_len = 0;
                } else {
                    let lw = display_width(nl.as_str());
                    line = Vec::new();
                    line.push(Word::new(nl, kind));
                    line_len = lw;
                }
                proof {
                    assert(view_lines(lines@) == target.lines);
                    assert(line_view(line@) =~= target.line);
                    assert(line_len as nat == target.line_len);
                }
            }
        }
        i = i + 1;
    }
    proof {
        assert(vw.take(n as int) =~= vw);
    }
    let ghost stf = spec_wrap_words(wrap_init(), vw, width as nat, hy);
    if !line.is_empty() {
        let ghost l0 = lines@;
        let ghost cur0 = line;
        lines.push(line);
        proof {
            lemma_view_lines_push(l0, cur0);
            assert(view_lines(lines@) == stf.lines.push(stf.line));
        }
    }
    proof {
        assert(view_lines(lines@) == spec_word_wrapping(vw, width as nat, allow_hyphen));
    }
    lines
}

/// The concatenated text of a word sequence.
pub open spec fn words_text(ws: Seq<WordM>) -> Seq<char>
    decreases ws.len(),
{
    if ws.len() == 0 {
        Seq::empty()
    } else {
        ws[0].content + words_text(ws.skip(1))
    }
}

/// A line's text with one trailing hyphen removed, if it has one.
pub open spec fn strip_dash(l: Seq<char>) -> Seq<char> {
    if ends_dash(l) {
        l.drop_last()
    } else {
        l
    }
}

/// The text of all lines, each with a trailing hyphen stripped.
pub open spec fn lines_text_stripped(ls: Seq<Seq<WordM>>) -> Seq<char>
    decreases ls.len(),
{
    if ls.len() == 0 {
        Seq::empty()
    } else {
        strip_dash(words_text(ls[0])) + lines_text_stripped(ls.skip(1))
    }
}

/// No character of `s` is a hyphen.
pub open spec fn dash_free(s: Seq<char>) -> bool {
    forall|i: int| 0 <= i < s.len() ==> s[i] != '-'
}

/// A word the round-trip law speaks of: no hyphen (so stripped hyphens
/// are exactly the inserted ones), no embedded newline (no hard
/// breaks), and no leading white space (nothing for a line start to
/// trim).
pub open spec fn clean_word(w: WordM) -> bool {
    &&& dash_free(w.content)
    &&& forall|i: int| 0 <= i < w.content.len() ==> w.content[i] != '\n'
    &&& (w.content.len() > 0 ==> !crate::width::is_ws_char(w.content[0]))
}

/// Every word of the line is hyphen-free.
pub open spec fn line_dash_free(l: Seq<WordM>) -> bool {
    forall|i: int| 0 <= i < l.len() ==> dash_free(#[trigger] l[i].content)
}

proof fn lemma_words_text_snoc(s: Seq<WordM>, x: WordM)
    ensures
        words_text(s.push(x)) == words_text(s) + x.content,
    decreases s.len(),
{
    reveal_with_fuel(words_text, 3);
    if s.len() == 0 {
        assert(s.push(x)[0] == x);
        assert(s.push(x).skip(1) =~= Seq::<WordM>::empty());
        assert(words_text(s.push(x)) =~= words_text(s) + x.content);
    } else {
        assert(s.push(x)[0] == s[0]);
        assert(s.push(x).skip(1) =~= s.skip(1).push(x));
        lemma_words_text_snoc(s.skip(1), x);
        assert(s[0].content + (words_text(s.skip(1)) + x.content) =~= (s[0].content + words_text(
            s.skip(1),
        )) + x.content);
    }
}

proof fn lemma_lines_stripped_snoc(ls: Seq<Seq<WordM>>, l: Seq<WordM>)
    ensures
        lines_text_stripped(ls.push(l)) == lines_text_stripped(ls) + strip_dash(words_text(l)),
    decreases ls.len(),
{
    reveal_with_fuel(lines_text_stripped, 3);
    if ls.len() == 0 {
        assert(ls.push(l)[0] == l);
        assert(ls.push(l).skip(1) =~= Seq::<Seq<WordM>>::empty());
        assert(lines_text_stripped(ls.push(l)) =~= lines_text_stripped(ls) + strip_dash(
            words_text(l),
        ));
    } else {
        assert(ls.push(l)[0] == ls[0]);
        assert(ls.push(l).skip(1) =~= ls.skip(1).push(l));
        lemma_lines_stripped_snoc(ls.skip(1), l);
        assert(strip_dash(words_text(ls[0])) + (lines_text_stripped(ls.skip(1)) + strip_dash(
            words_text(l),
        )) =~= (strip_dash(words_text(ls[0])) + lines_text_stripped(ls.skip(1))) + strip_dash(
            words_text(l),
        ));
    }
}

proof fn lemma_words_text_singleton(w: WordM)
    ensures
        words_text(seq![w]) == w.content,
{
    reveal_with_fuel(words_text, 3);
    assert(seq![w].skip(1) =~= Seq::<WordM>::empty());
    assert(w.content + Seq::<char>::empty() =~= w.content);
}

proof fn lemma_words_text_dash_free(l: Seq<WordM>)
    requires
        line_dash_free(l),
    ensures
        dash_free(words_text(l)),
    decreases l.len(),
{
    if l.len() > 0 {
        assert(dash_free(l[0].content));
        assert(line_dash_free(l.skip(1))) by {
            assert(forall|i: int| 0 <= i < l.skip(1).len() ==> #[trigger] l.skip(1)[i].content
                == l[i + 1].content);
        }
        lemma_words_text_dash_free(l.skip(1));
        let a = l[0].content;
        let b = words_text(l.skip(1));
        assert forall|i: int| 0 <= i < (a + b).len() implies (a + b)[i] != '-' by {
            if i < a.len() {
                assert((a + b)[i] == a[i]);
            } else {
                assert((a + b)[i] == b[i - a.len()]);
            }
        }
    }
}

proof fn lemma_strip_concat(a: Seq<char>, b: Seq<char>)
    requires
        b.len() > 0,
    ensures
        strip_dash(a + b) == a + strip_dash(b),
{
    assert((a + b).len() == a.len() + b.len());
    assert((a + b)[a.len() + b.len() - 1] == b[b.len() - 1]);
    if ends_dash(b) {
        assert((a + b).drop_last() =~= a + b.drop_last());
    }
}

/// The text that the split loop yields — stripped of inserted hyphens
/// and joined with what stays on the current line — is exactly the
/// rest it was given.
#[verifier::rlimit(60)]
proof fn lemma_split_rest_content(
    nl: Seq<char>,
    width: nat,
    hy: bool,
    kind: WordType,
    lines: Seq<Seq<WordM>>,
)
    requires
        dash_free(nl),
    ensures
        ({
            let res = spec_split_rest(nl, width, hy, kind, lines);
            &&& lines_text_stripped(res.lines) + words_text(res.line) == lines_text_stripped(
                lines,
            ) + nl
            &&& line_dash_free(res.line)
        }),
    decreases nl.len(),
{
    let res = spec_split_rest(nl, width, hy, kind, lines);
    if text_width(nl) > width && nl.len() > 0 {
        let sw: nat = if hy && !ends_dash(nl) && width >= 1 {
            (width - 1) as nat
        } else {
            width
        };
        let k = clamped_split(nl, sw);
        let h0 = nl.take(k as int);
        let t0 = nl.skip(k as int);
        let move_h = hy && !ends_dash(nl) && h0.len() >= 2;
        let h = if move_h {
            h0.drop_last().push('-')
        } else {
            h0
        };
        let t = if move_h {
            seq![h0.last()] + t0
        } else {
            t0
        };
        assert(dash_free(h0)) by {
            assert(forall|i: int| 0 <= i < h0.len() ==> h0[i] == nl[i]);
        }
        assert(dash_free(t0)) by {
            assert(forall|i: int| 0 <= i < t0.len() ==> t0[i] == nl[i + k]);
        }
        assert(dash_free(t)) by {
            if move_h {
                assert(forall|i: int|
                    0 <= i < t.len() ==> t[i] == if i == 0 {
                        h0.last()
                    } else {
                        t0[i - 1]
                    });
            }
        }
        let lines2 = lines.push(seq![WordM { content: h, kind, prev: None }]);
        lemma_split_rest_content(t, width, hy, kind, lines2);
        lemma_lines_stripped_snoc(lines, seq![WordM { content: h, kind, prev: None }]);
        lemma_words_text_singleton(WordM { content: h, kind, prev: None });
        assert(strip_dash(h) + t =~= nl) by {
            if move_h {
                assert(ends_dash(h));
                assert(strip_dash(h) =~= h0.drop_last());
                assert(h0.drop_last() + (seq![h0.last()] + t0) =~= h0 + t0);
                assert(h0 + t0 =~= nl);
            } else {
                assert(!ends_dash(h0));
                assert(h0 + t0 =~= nl);
            }
        }
        assert(lines_text_stripped(res.lines) + words_text(res.line) =~= lines_text_stripped(
            lines,
        ) + nl) by {
            assert(lines_text_stripped(res.lines) + words_text(res.line) == lines_text_stripped(
                lines2,
            ) + t);
            assert(lines_text_stripped(lines2) == lines_text_stripped(lines) + strip_dash(h));
            assert((lines_text_stripped(lines) + strip_dash(h)) + t =~= lines_text_stripped(lines)
                + (strip_dash(h) + t));
        }
    } else if nl.len() == 0 {
        assert(words_text(res.line) =~= Seq::<char>::empty());
        assert(lines_text_stripped(lines) + Seq::<char>::empty() =~= lines_text_stripped(lines));
        assert(lines_text_stripped(lines) + nl =~= lines_text_stripped(lines));
    } else {
        lemma_words_text_singleton(WordM { content: nl, kind, prev: None });
    }
}

/// One word's step keeps the running text: what the state holds
/// (stripped lines plus current line) grows by exactly the word's
/// content.
#[verifier::rlimit(80)]
proof fn lemma_wrap_word_content(st: WrapState, w: WordM, width: nat, hy: bool)
    requires
        clean_word(w),
        line_dash_free(st.line),
    ensures
        ({
            let st2 = spec_wrap_word(st, w, width, hy);
            &&& lines_text_stripped(st2.lines) + words_text(st2.line) == (lines_text_stripped(
                st.lines,
            ) + words_text(st.line)) + w.content
            &&& line_dash_free(st2.line)
        }),
{
    let st2 = spec_wrap_word(st, w, width, hy);
    lemma_words_text_dash_free(st.line);
    if w.content.len() > 0 && w.content[0] == '\n' {
        assert(false);
    } else {
        let wl = text_width(w.content);
        if st.line_len + wl <= width {
            lemma_words_text_snoc(st.line, w);
            assert(forall|i: int| 0 <= i < st.line.push(w).len() ==> dash_free(
                #[trigger] st.line.push(w)[i].content,
            ));
            assert(lines_text_stripped(st.lines) + (words_text(st.line) + w.content)
                =~= (lines_text_stripped(st.lines) + words_text(st.line)) + w.content);
        } else if wl <= width {
            assert(ws_prefix_len(w.content) == 0);
            let trimmed = w.content.skip(0);
            assert(trimmed =~= w.content);
            lemma_lines_stripped_snoc(st.lines, st.line);
            assert(strip_dash(words_text(st.line)) == words_text(st.line));
            lemma_words_text_singleton(WordM { content: trimmed, kind: w.kind, prev: w.prev });
            assert(lines_text_stripped(st2.lines) + words_text(st2.line) =~= (lines_text_stripped(
                st.lines,
            ) + words_text(st.line)) + w.content);
        } else {
            let st1 = if width < st.line_len + 4 {
                WrapState { lines: st.lines.push(st.line), line: Seq::empty(), line_len: 0 }
            } else {
                st
            };
            if width < st.line_len + 4 {
                lemma_lines_stripped_snoc(st.lines, st.line);
                assert(strip_dash(words_text(st.line)) == words_text(st.line));
            }
            assert(lines_text_stripped(st1.lines) + words_text(st1.line) =~= lines_text_stripped(
                st.lines,
            ) + words_text(st.line)) by {
                if width < st.line_len + 4 {
                    assert(words_text(st1.line) =~= Seq::<char>::empty());
                    assert(lines_text_stripped(st1.lines) + Seq::<char>::empty()
                        =~= lines_text_stripped(st1.lines));
                }
            }
            let swi: int = if hy && !ends_dash(w.content) {
                width - st1.line_len - 1
            } else {
                width - st1.line_len
            };
            let sw: nat = if swi >= 1 {
                swi as nat
            } else {
                1
            };
            let k = clamped_split(w.content, sw);
            let h0 = w.content.take(k as int);
            let t0 = w.content.skip(k as int);
            let move_h = hy && !ends_dash(h0) && h0.len() >= 2;
            let h = if move_h {
                h0.drop_last().push('-')
            } else {
                h0
            };
            let t = if move_h {
                seq![h0.last()] + t0
            } else {
                t0
            };
            assert(dash_free(h0)) by {
                assert(forall|i: int| 0 <= i < h0.len() ==> h0[i] == w.content[i]);
            }
            assert(dash_free(t0)) by {
                assert(forall|i: int| 0 <= i < t0.len() ==> t0[i] == w.content[i + k]);
            }
            assert(dash_free(t)) by {
                if move_h {
                    assert(forall|i: int|
                        0 <= i < t.len() ==> t[i] == if i == 0 {
                            h0.last()
                        } else {
                            t0[i - 1]
                        });
                }
            }
            let flushed_line = st1.line.push(WordM { content: h, kind: w.kind, prev: None });
            let lines2 = st1.lines.push(flushed_line);
            lemma_split_rest_content(t, width, hy, w.kind, lines2);
            lemma_lines_stripped_snoc(st1.lines, flushed_line);
            lemma_words_text_snoc(st1.line, WordM { content: h, kind: w.kind, prev: None });
            // The flushed line's text is the old line text followed by the
            // fragment; only the fragment can end in a hyphen.
            assert(h.len() > 0);
            lemma_strip_concat(words_text(st1.line), h);
            assert(strip_dash(h) + t =~= w.content) by {
                if move_h {
                    assert(ends_dash(h));
                    assert(strip_dash(h) =~= h0.drop_last());
                    assert(h0.drop_last() + (seq![h0.last()] + t0) =~= h0 + t0);
                    assert(h0 + t0 =~= w.content);
                } else {
                    assert(!ends_dash(h0));
                    assert(h0 + t0 =~= w.content);
                }
            }
            assert(lines_text_stripped(st2.lines) + words_text(st2.line) =~= (lines_text_stripped(
                st.lines,
            ) + words_text(st.line)) + w.content) by {
                assert(lines_text_stripped(st2.lines) + words_text(st2.line)
                    == lines_text_stripped(lines2) + t);
                assert(lines_text_stripped(lines2) == lines_text_stripped(st1.lines) + strip_dash(
                    words_text(flushed_line),
                ));
                assert(strip_dash(words_text(flushed_line)) == words_text(st1.line) + strip_dash(
                    h,
                ));
                assert((lines_text_stripped(st1.lines) + (words_text(st1.line) + strip_dash(h)))
                    + t =~= (lines_text_stripped(st1.lines) + words_text(st1.line)) + (strip_dash(
                    h,
                ) + t));
            }
        }
    }
}

#[verifier::rlimit(60)]
proof fn lemma_wrap_words_content(st: WrapState, ws: Seq<WordM>, width: nat, hy: bool)
    requires
        forall|i: int| 0 <= i < ws.len() ==> clean_word(#[trigger] ws[i]),
        line_dash_free(st.line),
    ensures
        ({
            let st2 = spec_wrap_words(st, ws, width, hy);
            &&& lines_text_stripped(st2.lines) + words_text(st2.line) == (lines_text_stripped(
                st.lines,
            ) + words_text(st.line)) + words_text(ws)
            &&& line_dash_free(st2.line)
        }),
    decreases ws.len(),
{
    let st2 = spec_wrap_words(st, ws, width, hy);
    if ws.len() == 0 {
        assert(words_text(ws) =~= Seq::<char>::empty());
        assert((lines_text_stripped(st.lines) + words_text(st.line)) + Seq::<char>::empty()
            =~= lines_text_stripped(st.lines) + words_text(st.line));
    } else {
        lemma_wrap_word_content(st, ws[0], width, hy);
        let stm = spec_wrap_word(st, ws[0], width, hy);
        assert(forall|i: int| 0 <= i < ws.skip(1).len() ==> clean_word(#[trigger] ws.skip(1)[i]))
            by {
            assert(forall|i: int| 0 <= i < ws.skip(1).len() ==> ws.skip(1)[i] == ws[i + 1]);
        }
        lemma_wrap_words_content(stm, ws.skip(1), width, hy);
        assert(((lines_text_stripped(st.lines) + words_text(st.line)) + ws[0].content)
            + words_text(ws.skip(1)) =~= (lines_text_stripped(st.lines) + words_text(st.line)) + (
        ws[0].content + words_text(ws.skip(1))));
    }
}

/// Wrapping preserves content: for every word sequence without
/// hyphens, embedded newlines or leading white space, and for every
/// width, concatenating the wrapped lines' text with each line's one
/// inserted trailing hyphen stripped gives back exactly the
/// concatenated input text.
#[verifier::rlimit(60)]
pub proof fn theorem_wrap_preserves_content(ws: Seq<WordM>, width: nat, allow_hyphen: bool)
    requires
        forall|i: int| 0 <= i < ws.len() ==> clean_word(#[trigger] ws[i]),
    ensures
        lines_text_stripped(spec_word_wrapping(ws, width, allow_hyphen)) == words_text(ws),
{
    let hy = allow_hyphen && width > 4;
    let st = spec_wrap_words(wrap_init(), ws, width, hy);
    lemma_wrap_words_content(wrap_init(), ws, width, hy);
    assert(lines_text_stripped(wrap_init().lines) =~= Seq::<char>::empty());
    assert(words_text(wrap_init().line) =~= Seq::<char>::empty());
    assert((Seq::<char>::empty() + Seq::<char>::empty()) + words_text(ws) =~= words_text(ws));
    if st.line.len() > 0 {
        lemma_lines_stripped_snoc(st.lines, st.line);
        lemma_words_text_dash_free(st.line);
        assert(strip_dash(words_text(st.line)) == words_text(st.line));
    } else {
        assert(words_text(st.line) =~= Seq::<char>::empty());
        assert(lines_text_stripped(st.lines) + Seq::<char>::empty() =~= lines_text_stripped(
            st.lines,
        ));
    }
}

} // verus!
