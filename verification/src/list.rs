//! The list transform: nested indentation tracking, ordered-list
//! renumbering per level, and column alignment correction.
//!
//! The metadata side channel carries two parallel streams — indent
//! markers (white-space-only words) and list-type markers (ordered or
//! unordered) — consumed pairwise, one pair per list-marker word met
//! in the content.  A stack of counters numbers ordered items per
//! nesting level: deeper indent pushes a fresh counter, shallower
//! indent pops one.
//!
//! Three guards keep the pass total on malformed input: a counter
//! popped off an empty stack starts afresh at one, a correction level
//! past the deepest recorded clamps to it, and a line without its
//! filler-and-marker pair stays as it is.
use vstd::prelude::*;
use vstd::string::StrSliceExecFns;
use vstd::string::StringExecFns;

use crate::component::TextComponent;
use crate::component::flat_view;
use crate::component::flat_words;
use crate::component::flatten_content;
use crate::transform::wf_content;
use crate::transform::lemma_flat_wf;
use crate::width::MAX_TEXT_LEN;
use crate::width::MAX_MEASURE_LEN;
use crate::width::display_width;
use crate::width::is_blank;
use crate::width::push_char;
use crate::width::repeat_spaces;
use crate::width::spec_digits;
use crate::width::spec_is_blank;
use crate::width::spec_spaces;
use crate::width::str_eq;
use crate::width::text_width;
use crate::width::trim_start_str;
use crate::width::u64_to_string;
use crate::width::ws_prefix_len;
use crate::word::Word;
use crate::word::MetaData;
use crate::word::WordM;
use crate::word::WordType;
use crate::wrap::line_view;
use crate::wrap::view_lines;
use crate::wrap::view_words;

verus! {

/// The state that walks a list's words: finished lines, the line in
/// progress and its width, the position in the paired metadata
/// streams, the ordered-item counter stack, and the current
/// indentation bookkeeping.
pub ghost struct ListState {
    pub lines: Seq<Seq<WordM>>,
    pub line: Seq<WordM>,
    pub len: nat,
    pub zi: nat,
    pub stack: Seq<nat>,
    pub max_stack: nat,
    pub indent: nat,
    pub extra: nat,
    pub tmp: nat,
}

pub open spec fn list_init() -> ListState {
    ListState {
        lines: Seq::empty(),
        line: Seq::empty(),
        len: 0,
        zi: 0,
        stack: seq![0nat],
        max_stack: 1,
        indent: 0,
        extra: 0,
        tmp: 0,
    }
}

/// The marker text of ordered item number `n`.
pub open spec fn ordered_marker_text(n: nat) -> Seq<char> {
    spec_digits(n) + seq!['.', ' ']
}

/// One content word's effect on the list walk.  A word that still fits
/// and is no list marker joins the line.  A list marker consumes one
/// indent/type metadata pair, adjusts the counter stack by the indent
/// change, renumbers itself when ordered, and opens a new line behind
/// an indent filler; any other overflowing word opens a new line
/// behind a continuation filler.
pub open spec fn spec_list_word(
    st: ListState,
    w: WordM,
    width: nat,
    ind: Seq<WordM>,
    typ: Seq<WordM>,
) -> ListState {
    let wl = text_width(w.content);
    if wl + st.len < width && !(w.kind is ListMarker) {
        ListState { line: st.line.push(w), len: st.len + wl, ..st }
    } else if w.kind is ListMarker {
        if st.zi < ind.len() && st.zi < typ.len() {
            let mw = text_width(ind[st.zi as int].content);
            let stack1 = if st.tmp < mw {
                st.stack.push(0)
            } else if st.tmp > mw {
                if st.stack.len() > 0 {
                    st.stack.drop_last()
                } else {
                    st.stack
                }
            } else {
                st.stack
            };
            let max1 = if st.tmp < mw {
                st.max_stack + 1
            } else {
                st.max_stack
            };
            let is_ord = typ[st.zi as int].kind == WordType::MetaInfo(MetaData::OList);
            let stack2 = if is_ord {
                if stack1.len() == 0 {
                    seq![1nat]
                } else {
                    stack1.update(stack1.len() - 1, (stack1.last() + 1) as nat)
                }
            } else {
                stack1
            };
            let content2 = if is_ord {
                ordered_marker_text(stack2.last())
            } else {
                w.content
            };
            let extra2: nat = if is_ord {
                1
            } else {
                0
            };
            let trimmed = content2.skip(ws_prefix_len(content2) as int);
            let filler = WordM { content: spec_spaces(mw), kind: WordType::Normal, prev: None };
            let marker = WordM { content: trimmed, kind: w.kind, prev: w.prev };
            ListState {
                lines: st.lines.push(st.line),
                line: seq![filler, marker],
                len: text_width(trimmed) + text_width(spec_spaces(mw)),
                zi: st.zi + 1,
                stack: stack2,
                max_stack: max1,
                indent: mw,
                extra: extra2,
                tmp: mw,
            }
        } else {
            let trimmed = w.content.skip(ws_prefix_len(w.content) as int);
            let filler = WordM { content: spec_spaces(0), kind: WordType::Normal, prev: None };
            let marker = WordM { content: trimmed, kind: w.kind, prev: w.prev };
            ListState {
                lines: st.lines.push(st.line),
                line: seq![filler, marker],
                len: text_width(trimmed) + text_width(spec_spaces(0)),
                zi: st.zi + 1,
                indent: 0,
                ..st
            }
        }
    } else {
        let fl: nat = st.indent + 2 + st.extra;
        let trimmed = w.content.skip(ws_prefix_len(w.content) as int);
        let filler = WordM { content: spec_spaces(fl), kind: WordType::Normal, prev: None };
        let other = WordM { content: trimmed, kind: w.kind, prev: w.prev };
        ListState {
            lines: st.lines.push(st.line),
            line: seq![filler, other],
            len: text_width(trimmed) + text_width(spec_spaces(fl)),
            ..st
        }
    }
}

/// Numbering within the counter stack: a marker that steps into a
/// deeper level is numbered 1; one at the unchanged level follows its
/// predecessor by exactly one.
pub proof fn theorem_list_numbering(
    st: ListState,
    w: WordM,
    width: nat,
    ind: Seq<WordM>,
    typ: Seq<WordM>,
)
    requires
        w.kind is ListMarker,
        st.zi < ind.len(),
        st.zi < typ.len(),
        typ[st.zi as int].kind == WordType::MetaInfo(MetaData::OList),
        st.stack.len() > 0,
    ensures
        ({
            let mw = text_width(ind[st.zi as int].content);
            let st2 = spec_list_word(st, w, width, ind, typ);
            &&& st.tmp < mw ==> st2.stack.last() == 1 && st2.line[1].content
                == ordered_marker_text(1).skip(ws_prefix_len(ordered_marker_text(1)) as int)
            &&& st.tmp == mw ==> st2.stack.last() == st.stack.last() + 1 && st2.line[1].content
                == ordered_marker_text((st.stack.last() + 1) as nat).skip(
                ws_prefix_len(ordered_marker_text((st.stack.last() + 1) as nat)) as int,
            )
            &&& st.tmp > mw && st.stack.len() >= 2 ==> st2.stack.last() == st.stack[st.stack.len()
                - 2] + 1 && st2.line[1].content == ordered_marker_text(
                (st.stack[st.stack.len() - 2] + 1) as nat,
            ).skip(ws_prefix_len(ordered_marker_text((st.stack[st.stack.len() - 2] + 1) as nat)) as int)
        }),
{
    let mw = text_width(ind[st.zi as int].content);
    if st.tmp < mw {
        let stack1 = st.stack.push(0);
        assert(stack1.last() == 0);
        assert(stack1.update(stack1.len() - 1, 1nat).last() == 1);
    } else if st.tmp > mw && st.stack.len() >= 2 {
        let stack1 = st.stack.drop_last();
        assert(stack1.last() == st.stack[st.stack.len() - 2]);
        assert(stack1.update(stack1.len() - 1, (stack1.last() + 1) as nat).last() == stack1.last()
            + 1);
    }
}

/// The fold of the list walk over a word sequence.
pub open spec fn spec_list_words(
    st: ListState,
    ws: Seq<WordM>,
    width: nat,
    ind: Seq<WordM>,
    typ: Seq<WordM>,
) -> ListState
    decreases ws.len(),
{
    if ws.len() == 0 {
        st
    } else {
        spec_list_words(spec_list_word(st, ws[0], width, ind, typ), ws.skip(1), width, ind, typ)
    }
}

pub proof fn lemma_list_words_snoc(
    st: ListState,
    s: Seq<WordM>,
    x: WordM,
    width: nat,
    ind: Seq<WordM>,
    typ: Seq<WordM>,
)
    ensures
        spec_list_words(st, s.push(x), width, ind, typ) == spec_list_word(
            spec_list_words(st, s, width, ind, typ),
            x,
            width,
            ind,
            typ,
        ),
    decreases s.len(),
{
    reveal_with_fuel(spec_list_words, 3);
    if s.len() == 0 {
        assert(s.push(x)[0] == x);
        assert(s.push(x).skip(1) =~= Seq::<WordM>::empty());
    } else {
        assert(s.push(x)[0] == s[0]);
        assert(s.push(x).skip(1) =~= s.skip(1).push(x));
        lemma_list_words_snoc(spec_list_word(st, s[0], width, ind, typ), s.skip(1), x, width, ind, typ);
    }
}

/// A line survives the cleanup pass iff any of its words has text.
pub open spec fn line_nonblank(l: Seq<WordM>) -> bool {
    exists|j: int| 0 <= j < l.len() && (#[trigger] l[j]).content.len() > 0
}

/// An ordered-item label as rendered: a leading nonzero digit and a
/// trailing dot-space.
pub open spec fn spec_is_ordered_label(s: Seq<char>) -> bool {
    s.len() >= 3 && '1' <= s[0] && s[0] <= '9' && s[s.len() - 2] == '.' && s[s.len() - 1] == ' '
}

fn is_ordered_label(s: &str) -> (r: bool)
    ensures
        r == spec_is_ordered_label(s@),
{
    let n = s.unicode_len();
    n >= 3 && '1' <= s.get_char(0) && s.get_char(0) <= '9' && s.get_char(n - 2) == '.'
        && s.get_char(n - 1) == ' '
}

/// The level-measurement state the correction passes share: a level
/// index and the indent width it last saw.
pub ghost struct LevelState {
    pub ii: nat,
    pub ilen: nat,
}

/// One line's effect on the level cursor: wider indent steps a level
/// deeper, narrower steps one back (never below zero), equal stays.
pub open spec fn spec_level_step(st: LevelState, w0: nat) -> LevelState {
    if st.ilen < w0 {
        LevelState { ii: st.ii + 1, ilen: w0 }
    } else if st.ilen > w0 {
        LevelState { ii: if st.ii > 0 {
            (st.ii - 1) as nat
        } else {
            0
        }, ilen: w0 }
    } else {
        st
    }
}

/// Clamp a level index into the correction table.
pub open spec fn clamp_level(ii: nat, n: nat) -> int
    recommends
        n > 0,
{
    if ii >= n {
        n - 1
    } else {
        ii as int
    }
}

/// One line's effect on the per-level maximum label width.
pub open spec fn spec_correct_line(st: LevelState, corr: Seq<nat>, l: Seq<WordM>) -> (
    LevelState,
    Seq<nat>,
) {
    if l.len() < 2 || !spec_is_ordered_label(l[1].content) {
        (st, corr)
    } else {
        let w0 = text_width(l[0].content);
        let st2 = spec_level_step(st, w0);
        let idx = clamp_level(st2.ii, corr.len() as nat);
        let lw = text_width(l[1].content);
        let c2 = corr.update(
            idx,
            if corr[idx] >= lw {
                corr[idx]
            } else {
                lw
            },
        );
        (st2, c2)
    }
}

pub open spec fn spec_correct_lines(st: LevelState, corr: Seq<nat>, ls: Seq<Seq<WordM>>) -> (
    LevelState,
    Seq<nat>,
)
    decreases ls.len(),
{
    if ls.len() == 0 {
        (st, corr)
    } else {
        let r = spec_correct_line(st, corr, ls[0]);
        spec_correct_lines(r.0, r.1, ls.skip(1))
    }
}

pub proof fn lemma_correct_lines_snoc(st: LevelState, corr: Seq<nat>, s: Seq<Seq<WordM>>, x: Seq<WordM>)
    ensures
        spec_correct_lines(st, corr, s.push(x)) == spec_correct_line(
            spec_correct_lines(st, corr, s).0,
            spec_correct_lines(st, corr, s).1,
            x,
        ),
    decreases s.len(),
{
    reveal_with_fuel(spec_correct_lines, 3);
    if s.len() == 0 {
        assert(s.push(x)[0] == x);
        assert(s.push(x).skip(1) =~= Seq::<Seq<WordM>>::empty());
    } else {
        assert(s.push(x)[0] == s[0]);
        assert(s.push(x).skip(1) =~= s.skip(1).push(x));
        let r = spec_correct_line(st, corr, s[0]);
        lemma_correct_lines_snoc(r.0, r.1, s.skip(1), x);
    }
}

/// The state of the re-padding pass: the level cursor and whether the
/// walk is inside a run of already-aligned unordered items.
pub ghost struct PadState {
    pub lvl: LevelState,
    pub skip: bool,
}

/// One line's re-padding: ordered labels get their filler re-sized so
/// that siblings at a level share a column; bulleted items and lines
/// inside an unordered run stay; other followers align under the
/// corrected label column.
pub open spec fn spec_pad_line(st: PadState, corr: Seq<nat>, l: Seq<WordM>) -> (PadState, Seq<WordM>) {
    if l.len() < 2 {
        (st, l)
    } else {
        let is_ord = spec_is_ordered_label(l[1].content);
        let skip0 = if is_ord {
            false
        } else {
            st.skip
        };
        if l[1].content == seq!['\u{2022}', ' '] || skip0 {
            (PadState { lvl: st.lvl, skip: true }, l)
        } else {
            let w0 = text_width(l[0].content);
            if is_ord {
                let lvl2 = spec_level_step(st.lvl, w0);
                let idx = clamp_level(lvl2.ii, corr.len() as nat);
                let lw = text_width(l[1].content);
                let amount: nat = ((if corr[idx] >= lw {
                    corr[idx] - lw
                } else {
                    0
                }) + w0) as nat;
                let l2 = l.update(
                    0,
                    WordM { content: spec_spaces(amount), kind: l[0].kind, prev: l[0].prev },
                );
                (PadState { lvl: lvl2, skip: false }, l2)
            } else {
                let idx = clamp_level(st.lvl.ii, corr.len() as nat);
                let amount: nat = if corr[idx] + w0 >= 3 {
                    (corr[idx] + w0 - 3) as nat
                } else {
                    0
                };
                let l2 = l.update(
                    0,
                    WordM { content: spec_spaces(amount), kind: l[0].kind, prev: l[0].prev },
                );
                (PadState { lvl: st.lvl, skip: false }, l2)
            }
        }
    }
}

pub open spec fn spec_pad_lines(st: PadState, corr: Seq<nat>, ls: Seq<Seq<WordM>>) -> Seq<
    Seq<WordM>,
>
    decreases ls.len(),
{
    if ls.len() == 0 {
        Seq::empty()
    } else {
        let r = spec_pad_line(st, corr, ls[0]);
        seq![r.1] + spec_pad_lines(r.0, corr, ls.skip(1))
    }
}

pub proof fn lemma_pad_lines_snoc(st: PadState, corr: Seq<nat>, s: Seq<Seq<WordM>>, x: Seq<WordM>)
    ensures
        ({
            let st_end = spec_pad_state(st, corr, s);
            spec_pad_lines(st, corr, s.push(x)) == spec_pad_lines(st, corr, s).push(
                spec_pad_line(st_end, corr, x).1,
            )
        }),
    decreases s.len(),
{
    reveal_with_fuel(spec_pad_lines, 3);
    reveal_with_fuel(spec_pad_state, 3);
    if s.len() == 0 {
        assert(s.push(x)[0] == x);
        assert(s.push(x).skip(1) =~= Seq::<Seq<WordM>>::empty());
        assert(spec_pad_lines(st, corr, s.push(x)) =~= spec_pad_lines(st, corr, s).push(
            spec_pad_line(st, corr, x).1,
        ));
    } else {
        assert(s.push(x)[0] == s[0]);
        assert(s.push(x).skip(1) =~= s.skip(1).push(x));
        let r = spec_pad_line(st, corr, s[0]);
        lemma_pad_lines_snoc(r.0, corr, s.skip(1), x);
        assert(seq![r.1] + spec_pad_lines(r.0, corr, s.skip(1)).push(
            spec_pad_line(spec_pad_state(r.0, corr, s.skip(1)), corr, x).1,
        ) =~= (seq![r.1] + spec_pad_lines(r.0, corr, s.skip(1))).push(
            spec_pad_line(spec_pad_state(r.0, corr, s.skip(1)), corr, x).1,
        ));
    }
}

/// The pad-pass state after walking `ls`.
pub open spec fn spec_pad_state(st: PadState, corr: Seq<nat>, ls: Seq<Seq<WordM>>) -> PadState
    decreases ls.len(),
{
    if ls.len() == 0 {
        st
    } else {
        spec_pad_state(spec_pad_line(st, corr, ls[0]).0, corr, ls.skip(1))
    }
}


/// A list-type metadata word: ordered or unordered.
pub open spec fn is_list_type_word(w: Word) -> bool {
    w@.kind == WordType::MetaInfo(MetaData::OList) || w@.kind == WordType::MetaInfo(MetaData::UList)
}

/// A white-space-only metadata word (an indent marker).
pub open spec fn is_blank_word(w: Word) -> bool {
    spec_is_blank(w@.content)
}

/// The lines a list block lays out at `width`: the walk of
/// `spec_list_word` over all content words, blank lines dropped, then
/// the two correction passes.
pub open spec fn spec_transform_list(c: Seq<Vec<Word>>, meta: Seq<Word>, width: nat) -> Seq<
    Seq<WordM>,
> {
    let ind = view_words(meta.filter(|w: Word| is_blank_word(w)));
    let typ = view_words(meta.filter(|w: Word| is_list_type_word(w)));
    let st = spec_list_words(list_init(), flat_view(c), width, ind, typ);
    let lines1 = st.lines.push(st.line);
    let kept = lines1.filter(|l: Seq<WordM>| line_nonblank(l));
    let corr = spec_correct_lines(
        LevelState { ii: 0, ilen: 0 },
        Seq::new(st.max_stack, |q: int| 0nat),
        kept,
    ).1;
    spec_pad_lines(PadState { lvl: LevelState { ii: 0, ilen: 0 }, skip: true }, corr, kept)
}

/// Every word short enough to measure.
pub open spec fn wf_words(ws: Seq<Word>) -> bool {
    forall|j: int| 0 <= j < ws.len() ==> (#[trigger] ws[j])@.content.len() <= MAX_TEXT_LEN
}

/// Filter `words` by the blank / list-type predicate.
fn filter_meta(words: &Vec<Word>, want_blank: bool) -> (r: Vec<Word>)
    ensures
        want_blank ==> r@ == words@.filter(|w: Word| is_blank_word(w)),
        !want_blank ==> r@ == words@.filter(|w: Word| is_list_type_word(w)),
{
    let mut r: Vec<Word> = Vec::new();
    let mut i: usize = 0;
    proof {
        reveal(Seq::filter);
        assert(words@.take(0) =~= Seq::<Word>::empty());
        assert(words@.take(0).filter(|w: Word| is_blank_word(w)) =~= Seq::<Word>::empty());
        assert(words@.take(0).filter(|w: Word| is_list_type_word(w)) =~= Seq::<Word>::empty());
    }
    while i < words.len()
        invariant
            0 <= i <= words@.len(),
            want_blank ==> r@ == words@.take(i as int).filter(|w: Word| is_blank_word(w)),
            !want_blank ==> r@ == words@.take(i as int).filter(|w: Word| is_list_type_word(w)),
        decreases words@.len() - i,
    {
        let w = &words[i];
        let keep = if want_blank {
            is_blank(w.content())
        } else {
            matches!(w.kind(), WordType::MetaInfo(MetaData::OList | MetaData::UList))
        };
        if keep {
            r.push(w.clone());
        }
        proof {
            reveal(Seq::filter);
            assert(words@.take(i + 1).drop_last() =~= words@.take(i as int));
            assert(words@.take(i + 1).last() == words@[i as int]);
        }
        i = i + 1;
    }
    proof {
        assert(words@.take(words@.len() as int) =~= words@);
    }
    r
}

/// Keep the lines with at least one non-empty word.
fn retain_nonblank(lines: Vec<Vec<Word>>) -> (r: Vec<Vec<Word>>)
    ensures
        view_lines(r@) == view_lines(lines@).filter(|l: Seq<WordM>| line_nonblank(l)),
        forall|q: int|
            0 <= q < r@.len() ==> exists|p: int|
                0 <= p < lines@.len() && line_view((#[trigger] r@[q])@) == line_view(lines@[p]@),
{
    let ghost pred = |l: Seq<WordM>| line_nonblank(l);
    let mut r: Vec<Vec<Word>> = Vec::new();
    let mut i: usize = 0;
    proof {
        reveal(Seq::filter);
        assert(lines@.take(0) =~= Seq::<Vec<Word>>::empty());
        assert(view_lines(lines@.take(0)) =~= Seq::<Seq<WordM>>::empty());
        assert(view_lines(lines@.take(0)).filter(pred) =~= Seq::<Seq<WordM>>::empty());
        assert(view_lines(r@) =~= Seq::<Seq<WordM>>::empty());
    }
    while i < lines.len()
        invariant
            0 <= i <= lines@.len(),
            view_lines(r@) == view_lines(lines@.take(i as int)).filter(
                |l: Seq<WordM>| line_nonblank(l),
            ),
            forall|q: int|
                0 <= q < r@.len() ==> exists|p: int|
                    0 <= p < lines@.len() && line_view((#[trigger] r@[q])@) == line_view(
                        lines@[p]@,
                    ),
        decreases lines@.len() - i,
    {
        let row = &lines[i];
        let mut any: bool = false;
        let mut j: usize = 0;
        while j < row.len()
            invariant
                0 <= j <= row@.len(),
                row@ == lines@[i as int]@,
                any == (exists|q: int|
                    0 <= q < j && (#[trigger] line_view(row@)[q]).content.len() > 0),
            decreases row@.len() - j,
        {
            if row[j].content().unicode_len() > 0 {
                any = true;
                proof {
                    assert(line_view(row@)[j as int].content.len() > 0);
                }
            }
            j = j + 1;
        }
        proof {
            assert(any == line_nonblank(line_view(row@)));
        }
        let ghost r0 = r;
        if any {
            r.push(row.clone());
            proof {
                crate::wrap::lemma_view_lines_push(r0@, r@.last());
                assert(line_view(r@.last()@) == line_view(lines@[i as int]@));
            }
        }
        proof {
            reveal(Seq::filter);
            assert(lines@.take(i + 1) =~= lines@.take(i as int).push(lines@[i as int]));
            crate::wrap::lemma_view_lines_push(lines@.take(i as int), lines@[i as int]);
            assert(view_lines(lines@.take(i + 1)).drop_last() =~= view_lines(
                lines@.take(i as int),
            ));
            assert(view_lines(lines@.take(i + 1)).last() == line_view(lines@[i as int]@));
        }
        i = i + 1;
    }
    proof {
        assert(lines@.take(lines@.len() as int) =~= lines@);
    }
    r
}

/// Word-length bound that all pass-one output obeys: original words
/// are capped by `MAX_TEXT_LEN`, space fillers by three times that.
pub open spec fn lines_wf(ls: Seq<Seq<WordM>>, lim: nat) -> bool {
    forall|l: int, j: int|
        0 <= l < ls.len() && 0 <= j < ls[l].len() ==> (#[trigger] ls[l][j]).content.len() <= lim
}

/// The per-level maximum label widths over the kept lines.
fn correct_pass(kept: &Vec<Vec<Word>>, max_stack: usize) -> (corr: Vec<usize>)
    requires
        max_stack >= 1,
        lines_wf(view_lines(kept@), MAX_MEASURE_LEN as nat),
    ensures
        corr@.map_values(|x: usize| x as nat) == spec_correct_lines(
            LevelState { ii: 0, ilen: 0 },
            Seq::new(max_stack as nat, |q: int| 0nat),
            view_lines(kept@),
        ).1,
        corr@.len() == max_stack,
        forall|u: int| 0 <= u < corr@.len() ==> (#[trigger] corr@[u]) <= 3 * MAX_MEASURE_LEN,
{
    let ghost keptv = view_lines(kept@);
    let ghost corr0 = Seq::new(max_stack as nat, |q: int| 0nat);
    let mut corr: Vec<usize> = Vec::new();
    let mut q: usize = 0;
    while q < max_stack
        invariant
            0 <= q <= max_stack,
            corr@.len() == q,
            forall|u: int| 0 <= u < q ==> (#[trigger] corr@[u]) == 0,
        decreases max_stack - q,
    {
        corr.push(0);
        q = q + 1;
    }
    proof {
        assert(corr@.map_values(|x: usize| x as nat) =~= corr0);
        assert(keptv.take(0) =~= Seq::<Seq<WordM>>::empty());
    }
    let mut ii: usize = 0;
    let mut ilen: usize = 0;
    let mut t: usize = 0;
    let n = kept.len();
    while t < n
        invariant
            0 <= t <= n,
            n == kept@.len(),
            keptv == view_lines(kept@),
            corr0 == Seq::new(max_stack as nat, |u: int| 0nat),
            max_stack >= 1,
            corr@.len() == max_stack,
            lines_wf(keptv, MAX_MEASURE_LEN as nat),
            ({
                let r = spec_correct_lines(LevelState { ii: 0, ilen: 0 }, corr0, keptv.take(t as int));
                &&& ii as nat == r.0.ii
                &&& ilen as nat == r.0.ilen
                &&& corr@.map_values(|x: usize| x as nat) == r.1
            }),
            ii <= t,
            ilen <= 3 * MAX_MEASURE_LEN,
            forall|u: int| 0 <= u < corr@.len() ==> (#[trigger] corr@[u]) <= 3 * MAX_MEASURE_LEN,
        decreases n - t,
    {
        let ghost r = spec_correct_lines(LevelState { ii: 0, ilen: 0 }, corr0, keptv.take(t as int));
        proof {
            assert(keptv.take(t + 1) =~= keptv.take(t as int).push(keptv[t as int]));
            lemma_correct_lines_snoc(LevelState { ii: 0, ilen: 0 }, corr0, keptv.take(t as int), keptv[t as int]);
            assert(line_view(kept@[t as int]@) == keptv[t as int]);
        }
        let row = &kept[t];
        if row.len() >= 2 && is_ordered_label(row[1].content()) {
            proof {
                assert(keptv[t as int][1] == row@[1]@);
                assert(keptv[t as int][0] == row@[0]@);
            }
            let w0 = display_width(row[0].content());
            if ilen < w0 {
                ii = ii + 1;
                ilen = w0;
            } else if ilen > w0 {
                ii = if ii > 0 {
                    ii - 1
                } else {
                    0
                };
                ilen = w0;
            }
            let idx = if ii >= max_stack {
                max_stack - 1
            } else {
                ii
            };
            let lw = display_width(row[1].content());
            if corr[idx] < lw {
                corr.set(idx, lw);
            }
            proof {
                let r2 = spec_correct_line(r.0, r.1, keptv[t as int]);
                assert(corr@.map_values(|x: usize| x as nat) =~= r2.1);
            }
        } else {
            proof {
                if row.len() >= 2 {
                    assert(keptv[t as int][1] == row@[1]@);
                }
                assert(keptv[t as int].len() == row@.len());
            }
        }
        t = t + 1;
    }
    proof {
        assert(keptv.take(n as int) =~= keptv);
    }
    corr
}

/// Re-pad the filler of each corrected line.
fn pad_pass(kept: Vec<Vec<Word>>, corr: &Vec<usize>) -> (out: Vec<Vec<Word>>)
    requires
        corr@.len() >= 1,
        lines_wf(view_lines(kept@), MAX_MEASURE_LEN as nat),
        forall|u: int| 0 <= u < corr@.len() ==> (#[trigger] corr@[u]) <= 3 * MAX_MEASURE_LEN,
    ensures
        view_lines(out@) == spec_pad_lines(
            PadState { lvl: LevelState { ii: 0, ilen: 0 }, skip: true },
            corr@.map_values(|x: usize| x as nat),
            view_lines(kept@),
        ),
{
    let ghost keptv = view_lines(kept@);
    let ghost corrv = corr@.map_values(|x: usize| x as nat);
    let ghost st0 = PadState { lvl: LevelState { ii: 0, ilen: 0 }, skip: true };
    let mut out: Vec<Vec<Word>> = Vec::new();
    let mut ii: usize = 0;
    let mut ilen: usize = 0;
    let mut skipb: bool = true;
    let mut t: usize = 0;
    let n = kept.len();
    let max_stack = corr.len();
    proof {
        reveal_strlit("\u{2022} ");
        assert(keptv.take(0) =~= Seq::<Seq<WordM>>::empty());
        assert(view_lines(out@) =~= spec_pad_lines(st0, corrv, keptv.take(0)));
    }
    while t < n
        invariant
            0 <= t <= n,
            n == kept@.len(),
            keptv == view_lines(kept@),
            corrv == corr@.map_values(|x: usize| x as nat),
            corr@.len() == max_stack,
            max_stack >= 1,
            lines_wf(keptv, MAX_MEASURE_LEN as nat),
            forall|u: int| 0 <= u < corr@.len() ==> (#[trigger] corr@[u]) <= 3 * MAX_MEASURE_LEN,
            view_lines(out@) == spec_pad_lines(st0, corrv, keptv.take(t as int)),
            ({
                let stt = spec_pad_state(st0, corrv, keptv.take(t as int));
                &&& ii as nat == stt.lvl.ii
                &&& ilen as nat == stt.lvl.ilen
                &&& skipb == stt.skip
            }),
            ii <= t,
            ilen <= 3 * MAX_MEASURE_LEN,
        decreases n - t,
    {
        let ghost stt = spec_pad_state(st0, corrv, keptv.take(t as int));
        proof {
            assert(keptv.take(t + 1) =~= keptv.take(t as int).push(keptv[t as int]));
            lemma_pad_lines_snoc(st0, corrv, keptv.take(t as int), keptv[t as int]);
            lemma_pad_state_snoc(st0, corrv, keptv.take(t as int), keptv[t as int]);
            assert(line_view(kept@[t as int]@) == keptv[t as int]);
        }
        let ghost stepr = spec_pad_line(stt, corrv, keptv[t as int]);
        let row = &kept[t];
        let ghost o0 = out;
        if row.len() < 2 {
            out.push(row.clone());
            proof {
                crate::wrap::lemma_view_lines_push(o0@, out@.last());
                assert(view_lines(out@) =~= spec_pad_lines(st0, corrv, keptv.take(t + 1)));
            }
        } else {
            proof {
                assert(keptv[t as int][1] == row@[1]@);
                assert(keptv[t as int][0] == row@[0]@);
            }
            let is_ord = is_ordered_label(row[1].content());
            let skip0 = if is_ord {
                false
            } else {
                skipb
            };
            let is_bullet = str_eq(row[1].content(), "\u{2022} ");
            proof {
                assert("\u{2022} "@ =~= seq!['\u{2022}', ' ']);
            }
            if is_bullet || skip0 {
                skipb = true;
                out.push(row.clone());
                proof {
                    crate::wrap::lemma_view_lines_push(o0@, out@.last());
                    assert(view_lines(out@) =~= spec_pad_lines(st0, corrv, keptv.take(t + 1)));
                }
            } else {
                let w0 = display_width(row[0].content());
                let amount: usize;
                if is_ord {
                    if ilen < w0 {
                        ii = ii + 1;
                        ilen = w0;
                    } else if ilen > w0 {
                        ii = if ii > 0 {
                            ii - 1
                        } else {
                            0
                        };
                        ilen = w0;
                    }
                    let idx = if ii >= max_stack {
                        max_stack - 1
                    } else {
                        ii
                    };
                    let lw = display_width(row[1].content());
                    let base = if corr[idx] >= lw {
                        corr[idx] - lw
                    } else {
                        0
                    };
                    amount = base + w0;
                } else {
                    let idx = if ii >= max_stack {
                        max_stack - 1
                    } else {
                        ii
                    };
                    let sum = corr[idx] + w0;
                    amount = if sum >= 3 {
                        sum - 3
                    } else {
                        0
                    };
                }
                skipb = false;
                let mut row2 = row.clone();
                let mut w0w = row2[0].clone();
                w0w.set_content(repeat_spaces(amount));
                row2.set(0, w0w);
                out.push(row2);
                proof {
                    crate::wrap::lemma_view_lines_push(o0@, out@.last());
                    assert(line_view(out@.last()@) =~= stepr.1);
                    assert(view_lines(out@) =~= spec_pad_lines(st0, corrv, keptv.take(t + 1)));
                }
            }
        }
        t = t + 1;
    }
    proof {
        assert(keptv.take(n as int) =~= keptv);
    }
    out
}

proof fn lemma_pad_state_snoc(st: PadState, corr: Seq<nat>, s: Seq<Seq<WordM>>, x: Seq<WordM>)
    ensures
        spec_pad_state(st, corr, s.push(x)) == spec_pad_line(spec_pad_state(st, corr, s), corr, x).0,
    decreases s.len(),
{
    reveal_with_fuel(spec_pad_state, 3);
    if s.len() == 0 {
        assert(s.push(x)[0] == x);
        assert(s.push(x).skip(1) =~= Seq::<Seq<WordM>>::empty());
    } else {
        assert(s.push(x)[0] == s[0]);
        assert(s.push(x).skip(1) =~= s.skip(1).push(x));
        lemma_pad_state_snoc(spec_pad_line(st, corr, s[0]).0, corr, s.skip(1), x);
    }
}

/// Lay a list block out at `width`: walk the words, drop emptied
/// lines, measure the per-level label widths, and re-pad.
#[verifier::rlimit(100)]
pub fn transform_list(component: &mut TextComponent, width: u16)
    requires
        wf_content(old(component).content@),
        wf_words(old(component).meta_info@),
        flat_words(old(component).content@).len() < usize::MAX - 1,
    ensures
        final(component).kind == old(component).kind,
        final(component).meta_info == old(component).meta_info,
        final(component).offset == old(component).offset,
        final(component).scroll_offset == old(component).scroll_offset,
        final(component).focused == old(component).focused,
        final(component).focused_index == old(component).focused_index,
        view_lines(final(component).content@) == spec_transform_list(
            old(component).content@,
            old(component).meta_info@,
            width as nat,
        ),
        view_lines(final(component).content@).len() <= 0xFFFF ==> final(component).height
            == view_lines(final(component).content@).len(),
    {
    let flat = flatten_content(&component.content);
    let indv = filter_meta(&component.meta_info, true);
    let typv = filter_meta(&component.meta_info, false);
    let ghost vind = view_words(indv@);
    let ghost vtyp = view_words(typv@);
    let ghost vflat = view_words(flat@);
    proof {
        lemma_flat_wf(component.content@);
        assert(forall|j: int| 0 <= j < flat@.len() ==> (#[trigger] flat@[j])@.content.len()
            <= MAX_TEXT_LEN);
        assert(forall|j: int| 0 <= j < indv@.len() ==> (#[trigger] indv@[j])@.content.len()
            <= MAX_TEXT_LEN) by {
            lemma_filter_keeps_wf(component.meta_info@, |w: Word| is_blank_word(w));
        }
    }
    let mut lines: Vec<Vec<Word>> = Vec::new();
    let mut line: Vec<Word> = Vec::new();
    let mut lenx: usize = 0;
    let mut zi: usize = 0;
    let mut stackv: Vec<u64> = Vec::new();
    stackv.push(0);
    let mut max_stack: usize = 1;
    let mut indent: usize = 0;
    let mut extra: usize = 0;
    let mut tmpv: usize = 0;
    let n = flat.len();
    let mut i: usize = 0;
    proof {
        assert(vflat.take(0) =~= Seq::<WordM>::empty());
        assert(view_lines(lines@) =~= list_init().lines);
        assert(line_view(line@) =~= list_init().line);
        assert(stackv@.map_values(|x: u64| x as nat) =~= list_init().stack);
        assert(lines_wf(view_lines(lines@), (3 * MAX_TEXT_LEN + 10) as nat));
    }
    while i < n
        invariant
            0 <= i <= n,
            n == flat@.len(),
            vflat == view_words(flat@),
            vind == view_words(indv@),
            vtyp == view_words(typv@),
            forall|j: int| 0 <= j < flat@.len() ==> (#[trigger] flat@[j])@.content.len()
                <= MAX_TEXT_LEN,
            forall|j: int| 0 <= j < indv@.len() ==> (#[trigger] indv@[j])@.content.len()
                <= MAX_TEXT_LEN,
            ({
                let st = spec_list_words(list_init(), vflat.take(i as int), width as nat, vind, vtyp);
                &&& view_lines(lines@) == st.lines
                &&& line_view(line@) == st.line
                &&& lenx as nat == st.len
                &&& zi as nat == st.zi
                &&& stackv@.map_values(|x: u64| x as nat) == st.stack
                &&& max_stack as nat == st.max_stack
                &&& indent as nat == st.indent
                &&& extra as nat == st.extra
                &&& tmpv as nat == st.tmp
            }),
            forall|q: int| 0 <= q < stackv@.len() ==> (#[trigger] stackv@[q]) <= i as u64,
            indent <= 3 * MAX_TEXT_LEN,
            tmpv <= 3 * MAX_TEXT_LEN,
            extra <= 1,
            lenx <= 15 * MAX_TEXT_LEN + 100,
            max_stack <= i + 1,
            max_stack >= 1,
            n < usize::MAX - 1,
            zi <= i,
            lines_wf(view_lines(lines@), (3 * MAX_TEXT_LEN + 10) as nat),
            forall|j: int| 0 <= j < line@.len() ==> (#[trigger] line@[j])@.content.len() <= 3
                * MAX_TEXT_LEN + 10,
        decreases n - i,
    {
        let ghost st = spec_list_words(list_init(), vflat.take(i as int), width as nat, vind, vtyp);
        let ghost w = vflat[i as int];
        proof {
            assert(vflat.take(i + 1) =~= vflat.take(i as int).push(vflat[i as int]));
            lemma_list_words_snoc(list_init(), vflat.take(i as int), vflat[i as int], width as nat, vind, vtyp);
            assert(flat@[i as int]@ == w);
        }
        let ghost st2 = spec_list_word(st, w, width as nat, vind, vtyp);
        let word = &flat[i];
        let wl = display_width(word.content());
        if wl + lenx < width as usize && !(matches!(word.kind(), WordType::ListMarker)) {
            line.push(word.clone());
            lenx = lenx + wl;
            proof {
                assert(line_view(line@) =~= st.line.push(w));
            }
        } else if matches!(word.kind(), WordType::ListMarker) {
            let ghost l0 = lines@;
            let ghost cur0 = line;
            if zi < indv.len() && zi < typv.len() {
                let mw = display_width(indv[zi].content());
                proof {
                    assert(vind[zi as int] == indv@[zi as int]@);
                }
                if tmpv < mw {
                    stackv.push(0);
                    max_stack = max_stack + 1;
                    proof {
                        assert(stackv@.map_values(|x: u64| x as nat) =~= st.stack.push(0nat));
                    }
                } else if tmpv > mw {
                    if stackv.len() > 0 {
                        let popped = stackv.pop();
                        proof {
                            assert(stackv@.map_values(|x: u64| x as nat) =~= st.stack.drop_last());
                        }
                    }
                }
                let ghost stack1 = stackv@.map_values(|x: u64| x as nat);
                let is_ord = matches!(typv[zi].kind(), WordType::MetaInfo(MetaData::OList));
                proof {
                    assert(vtyp[zi as int] == typv@[zi as int]@);
                }
                let mut marker_word = word.clone();
                if is_ord {
                    if stackv.len() == 0 {
                        stackv.push(1);
                        proof {
                            assert(stackv@.map_values(|x: u64| x as nat) =~= seq![1nat]);
                        }
                    } else {
                        let top = stackv.len() - 1;
                        let c = stackv[top];
                        stackv.set(top, c + 1);
                        proof {
                            assert(stackv@.map_values(|x: u64| x as nat) =~= stack1.update(
                                stack1.len() - 1,
                                (stack1.last() + 1) as nat,
                            ));
                        }
                    }
                    let nval = stackv[stackv.len() - 1];
                    let mut mtext = u64_to_string(nval);
                    push_char(&mut mtext, '.');
                    push_char(&mut mtext, ' ');
                    proof {
                        assert(mtext@ =~= ordered_marker_text(nval as nat));
                    }
                    marker_word.set_content(mtext);
                    extra = 1;
                } else {
                    extra = 0;
                }
                indent = mw;
                tmpv = mw;
                let filler = Word::new(repeat_spaces(indent), WordType::Normal);
                lines.push(line);
                line = Vec::new();
                let trimmed = trim_start_str(marker_word.content());
                let lw = display_width(trimmed.as_str());
                marker_word.set_content(trimmed);
                let fw = display_width(filler.content());
                lenx = lw + fw;
                line.push(filler);
                line.push(marker_word);
                zi = zi + 1;
            } else {
                let filler = Word::new(repeat_spaces(0), WordType::Normal);
                indent = 0;
                lines.push(line);
                line = Vec::new();
                let mut w2 = word.clone();
                let trimmed = trim_start_str(w2.content());
                let lw = display_width(trimmed.as_str());
                w2.set_content(trimmed);
                let fw = display_width(filler.content());
                lenx = lw + fw;
                line.push(filler);
                line.push(w2);
                zi = zi + 1;
            }
            proof {
                crate::wrap::lemma_view_lines_push(l0, cur0);
                assert(view_lines(lines@) == st.lines.push(st.line));
                assert(line_view(line@) =~= st2.line);
            }
        } else {
            let ghost l0 = lines@;
            let ghost cur0 = line;
            let filler = Word::new(repeat_spaces(indent + 2 + extra), WordType::Normal);
            lines.push(line);
            line = Vec::new();
            let mut w2 = word.clone();
            let trimmed = trim_start_str(w2.content());
            let lw = display_width(trimmed.as_str());
            w2.set_content(trimmed);
            let fw = display_width(filler.content());
            lenx = lw + fw;
            line.push(filler);
            line.push(w2);
            proof {
                crate::wrap::lemma_view_lines_push(l0, cur0);
                assert(view_lines(lines@) == st.lines.push(st.line));
                assert(line_view(line@) =~= st2.line);
            }
        }
        i = i + 1;
    }
    proof {
        assert(vflat.take(n as int) =~= vflat);
    }
    let ghost stf = spec_list_words(list_init(), vflat, width as nat, vind, vtyp);
    let ghost l0 = lines@;
    let ghost cur0 = line;
    lines.push(line);
    proof {
        crate::wrap::lemma_view_lines_push(l0, cur0);
        assert(view_lines(lines@) == stf.lines.push(stf.line));
    }
    let ghost lines_final = lines@;
    let kept = retain_nonblank(lines);
    proof {
        assert(lines_wf(view_lines(kept@), MAX_MEASURE_LEN as nat)) by {
            assert forall|l: int, j: int|
                0 <= l < view_lines(kept@).len() && 0 <= j < view_lines(kept@)[l].len() implies (
            #[trigger] view_lines(kept@)[l][j]).content.len() <= MAX_MEASURE_LEN as nat by {
                assert(view_lines(kept@)[l] == line_view(kept@[l]@));
                let p = choose|p: int|
                    0 <= p < lines_final.len() && line_view(kept@[l]@) == line_view(
                        lines_final[p]@,
                    );
                assert(view_lines(lines_final)[p] == line_view(lines_final[p]@));
                assert(view_lines(lines_final)[p][j].content.len() <= (3 * MAX_TEXT_LEN
                    + 10) as nat);
            }
        }
    }
    let corr = correct_pass(&kept, max_stack);
    let out = pad_pass(kept, &corr);
    let h = out.len();
    if h <= 0xFFFF {
        component.height = h as u16;
    } else {
        component.height = 0xFFFF;
    }
    component.content = out;
}

/// A filter of a bounded word list stays bounded.
proof fn lemma_filter_keeps_wf(s: Seq<Word>, pred: spec_fn(Word) -> bool)
    requires
        wf_words(s),
    ensures
        wf_words(s.filter(pred)),
    decreases s.len(),
{
    reveal(Seq::filter);
    if s.len() > 0 {
        assert(wf_words(s.drop_last())) by {
            assert(forall|j: int| 0 <= j < s.drop_last().len() ==> #[trigger] s.drop_last()[j]
                == s[j]);
        }
        lemma_filter_keeps_wf(s.drop_last(), pred);
        assert(s.last() == s[s.len() - 1]);
        if pred(s.last()) {
            assert(forall|j: int|
                0 <= j < s.filter(pred).len() ==> #[trigger] s.filter(pred)[j] == s.drop_last(
                ).filter(pred).push(s.last())[j]);
        }
    }
}


/// Folding distributes over concatenation of the word sequence.
pub proof fn lemma_list_words_concat(
    st: ListState,
    a: Seq<WordM>,
    b: Seq<WordM>,
    width: nat,
    ind: Seq<WordM>,
    typ: Seq<WordM>,
)
    ensures
        spec_list_words(st, a + b, width, ind, typ) == spec_list_words(
            spec_list_words(st, a, width, ind, typ),
            b,
            width,
            ind,
            typ,
        ),
    decreases a.len(),
{
    if a.len() == 0 {
        assert(a + b =~= b);
    } else {
        assert((a + b)[0] == a[0]);
        assert((a + b).skip(1) =~= a.skip(1) + b);
        lemma_list_words_concat(
            spec_list_word(st, a[0], width, ind, typ),
            a.skip(1),
            b,
            width,
            ind,
            typ,
        );
    }
}

/// A word that is no list marker leaves the counter bookkeeping — the
/// metadata position, the counter stack, and the indent state — as it
/// is.
pub proof fn lemma_nonmarker_keeps_counters(
    st: ListState,
    w: WordM,
    width: nat,
    ind: Seq<WordM>,
    typ: Seq<WordM>,
)
    requires
        !(w.kind is ListMarker),
    ensures
        ({
            let st2 = spec_list_word(st, w, width, ind, typ);
            &&& st2.zi == st.zi
            &&& st2.stack == st.stack
            &&& st2.max_stack == st.max_stack
            &&& st2.indent == st.indent
            &&& st2.extra == st.extra
            &&& st2.tmp == st.tmp
        }),
{
}

/// A whole run of non-marker words keeps the counter bookkeeping.
pub proof fn lemma_run_keeps_counters(
    st: ListState,
    ws: Seq<WordM>,
    width: nat,
    ind: Seq<WordM>,
    typ: Seq<WordM>,
)
    requires
        forall|k: int| 0 <= k < ws.len() ==> !((#[trigger] ws[k]).kind is ListMarker),
    ensures
        ({
            let st2 = spec_list_words(st, ws, width, ind, typ);
            &&& st2.zi == st.zi
            &&& st2.stack == st.stack
            &&& st2.max_stack == st.max_stack
            &&& st2.indent == st.indent
            &&& st2.extra == st.extra
            &&& st2.tmp == st.tmp
        }),
    decreases ws.len(),
{
    if ws.len() > 0 {
        lemma_nonmarker_keeps_counters(st, ws[0], width, ind, typ);
        assert(forall|k: int| 0 <= k < ws.skip(1).len() ==> #[trigger] ws.skip(1)[k] == ws[k
            + 1]);
        lemma_run_keeps_counters(
            spec_list_word(st, ws[0], width, ind, typ),
            ws.skip(1),
            width,
            ind,
            typ,
        );
    }
}

/// Numbering across a whole walk: when the `i`-th and `j`-th words
/// are ordered markers with no marker between them, and their indent
/// markers have the same width (the level does not change), the later
/// item's number is exactly the earlier one's plus one — both as
/// counters and as rendered text.
pub proof fn theorem_list_numbering_run(
    ws: Seq<WordM>,
    i: int,
    j: int,
    width: nat,
    ind: Seq<WordM>,
    typ: Seq<WordM>,
)
    requires
        0 <= i < j < ws.len(),
        ws[i].kind is ListMarker,
        ws[j].kind is ListMarker,
        forall|k: int| i < k < j ==> !((#[trigger] ws[k]).kind is ListMarker),
        ({
            let sti = spec_list_words(list_init(), ws.take(i), width, ind, typ);
            &&& sti.zi + 1 < ind.len()
            &&& sti.zi + 1 < typ.len()
            &&& typ[sti.zi as int].kind == WordType::MetaInfo(MetaData::OList)
            &&& typ[sti.zi as int + 1].kind == WordType::MetaInfo(MetaData::OList)
            &&& text_width(ind[sti.zi as int + 1].content) == text_width(ind[sti.zi as int].content)
            &&& sti.stack.len() > 0
        }),
    ensures
        ({
            let sti2 = spec_list_words(list_init(), ws.take(i + 1), width, ind, typ);
            let stj2 = spec_list_words(list_init(), ws.take(j + 1), width, ind, typ);
            &&& stj2.stack.last() == sti2.stack.last() + 1
            &&& stj2.line[1].content == ordered_marker_text((sti2.stack.last() + 1) as nat)
        }),
{
    let sti = spec_list_words(list_init(), ws.take(i), width, ind, typ);
    let sti2 = spec_list_words(list_init(), ws.take(i + 1), width, ind, typ);
    let stj = spec_list_words(list_init(), ws.take(j), width, ind, typ);
    let stj2 = spec_list_words(list_init(), ws.take(j + 1), width, ind, typ);
    let mw = text_width(ind[sti.zi as int].content);
    // the i-th marker's step
    assert(ws.take(i + 1) =~= ws.take(i).push(ws[i]));
    lemma_list_words_snoc(list_init(), ws.take(i), ws[i], width, ind, typ);
    assert(sti2 == spec_list_word(sti, ws[i], width, ind, typ));
    assert(sti2.zi == sti.zi + 1);
    assert(sti2.tmp == mw);
    assert(sti2.stack.len() > 0);
    // the words between the markers keep the counters
    assert(ws.take(j) =~= ws.take(i + 1) + ws.subrange(i + 1, j));
    lemma_list_words_concat(list_init(), ws.take(i + 1), ws.subrange(i + 1, j), width, ind, typ);
    assert(forall|k: int|
        0 <= k < ws.subrange(i + 1, j).len() ==> !((#[trigger] ws.subrange(i + 1, j)[k]).kind
            is ListMarker)) by {
        assert(forall|k: int|
            0 <= k < ws.subrange(i + 1, j).len() ==> #[trigger] ws.subrange(i + 1, j)[k] == ws[k
                + i + 1]);
    }
    lemma_run_keeps_counters(sti2, ws.subrange(i + 1, j), width, ind, typ);
    assert(stj.zi == sti.zi + 1);
    assert(stj.tmp == mw);
    assert(stj.stack == sti2.stack);
    // the j-th marker's step: the indent width is unchanged, so the
    // top counter advances by one
    assert(ws.take(j + 1) =~= ws.take(j).push(ws[j]));
    lemma_list_words_snoc(list_init(), ws.take(j), ws[j], width, ind, typ);
    assert(stj2 == spec_list_word(stj, ws[j], width, ind, typ));
    theorem_list_numbering(stj, ws[j], width, ind, typ);
    assert(text_width(ind[stj.zi as int].content) == mw);
    crate::width::lemma_digits_first((sti2.stack.last() + 1) as nat);
    assert(ws_prefix_len(ordered_marker_text((sti2.stack.last() + 1) as nat)) == 0);
    assert(ordered_marker_text((stj.stack.last() + 1) as nat).skip(0)
        =~= ordered_marker_text((stj.stack.last() + 1) as nat));
}

} // verus!
