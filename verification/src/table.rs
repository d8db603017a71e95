//! The table transform: natural column measurement, overflow
//! detection, proportional width redistribution with a per-column
//! floor, and per-cell re-wrap.
//!
//! A malformed table (no column-count markers, or a cell count that is
//! not a multiple of the column count) degenerates to a single empty
//! row rather than failing.  The proportional shares are computed in
//! exact integer arithmetic.
use vstd::prelude::*;

use crate::component::TextComponent;
use crate::component::TextNode;
use crate::component::flat_words;
use crate::transform::wf_content;
use crate::width::MAX_TEXT_LEN;
use crate::width::display_width;
use crate::width::text_width;
use crate::word::MetaData;
use crate::word::Word;
use crate::word::WordM;
use crate::word::WordType;
use crate::wrap::line_view;
use crate::wrap::spec_word_wrapping;
use crate::wrap::view_lines;
use crate::wrap::view_words;
use crate::wrap::word_wrapping;

verus! {

/// A column-count marker in the metadata side channel.
pub open spec fn is_column_marker(w: Word) -> bool {
    w@.kind == WordType::MetaInfo(MetaData::ColumnsCount)
}

/// The number of columns a table block declares.
pub open spec fn spec_col_count(meta: Seq<Word>) -> nat {
    meta.filter(|w: Word| is_column_marker(w)).len()
}

/// The display width of one cell: the sum of its words' widths.
pub open spec fn cell_width(l: Seq<WordM>) -> nat
    decreases l.len(),
{
    if l.len() == 0 {
        0
    } else {
        text_width(l[0].content) + cell_width(l.skip(1))
    }
}

/// The natural width of column `col`: the widest cell of that column
/// over the first `rows` rows.
pub open spec fn spec_nat_width(c: Seq<Seq<WordM>>, cc: nat, col: int, rows: int) -> nat
    decreases rows,
{
    if rows <= 0 || cc == 0 {
        0
    } else {
        let prev = spec_nat_width(c, cc, col, rows - 1);
        let idx = (rows - 1) * cc + col;
        let cur = if 0 <= idx < c.len() {
            cell_width(c[idx])
        } else {
            0
        };
        if cur > prev {
            cur
        } else {
            prev
        }
    }
}

/// Sum of a width column segment.
pub open spec fn sum_widths(ws: Seq<u16>) -> nat
    decreases ws.len(),
{
    if ws.len() == 0 {
        0
    } else {
        ws[0] as nat + sum_widths(ws.skip(1))
    }
}

/// The overflow pairs: each column index with its natural width, for
/// the columns wider than the even share.
pub open spec fn spec_overflowing(ws: Seq<u16>, threshold: nat) -> Seq<(usize, u16)> {
    Seq::new(ws.len(), |i: int| (i as usize, ws[i])).filter(|p: (usize, u16)| p.1 > threshold)
}

/// A permutation of `of` sorted by width and, among equal widths, by
/// column index — the order a stable sort by width yields when the
/// indices are distinct.
pub open spec fn lex_sorted_perm(s: Seq<(usize, u16)>, of: Seq<(usize, u16)>) -> bool {
    &&& s.to_multiset() == of.to_multiset()
    &&& forall|i: int, j: int|
        0 <= i < j < s.len() ==> (s[i].1 < s[j].1 || (s[i].1 == s[j].1 && s[i].0 < s[j].0))
}

/// Relies on `itertools::Itertools::sorted_by`, a stable sort by the
/// given comparator: it keeps the input order of entries the
/// comparator ties.  Comparing by the width component over an input
/// whose column indices ascend therefore yields the one permutation
/// ordered by width and, among equal widths, by column index.
#[verifier::external_body]
fn sorted_by_width(v: Vec<(usize, u16)>) -> (r: Vec<(usize, u16)>)
    requires
        forall|i: int, j: int| 0 <= i < j < v@.len() ==> v@[i].0 < v@[j].0,
    ensures
        r@.len() == v@.len(),
        lex_sorted_perm(r@, v@),
{
    itertools::Itertools::sorted_by(v.into_iter(), |a: &(usize, u16), b: &(usize, u16)| Ord::cmp(&a.1, &b.1)).collect()
}

/// One balancing step: the column takes its proportional share of the
/// remaining budget, but never less than the floor; a floored column
/// leaves the pools reduced by its demand.
pub open spec fn spec_balance(
    sorted: Seq<(usize, u16)>,
    widths: Seq<u16>,
    avail_w: nat,
    avail_b: nat,
    min_w: nat,
) -> Seq<u16>
    decreases sorted.len(),
{
    if sorted.len() == 0 {
        widths
    } else {
        let col = sorted[0].0 as int;
        let w = sorted[0].1 as nat;
        let cand = if avail_w > 0 {
            (w * avail_b) / avail_w
        } else {
            0
        };
        if cand < min_w {
            let widths2 = if 0 <= col < widths.len() {
                widths.update(col, min_w as u16)
            } else {
                widths
            };
            let aw2: nat = if avail_w >= w {
                (avail_w - w) as nat
            } else {
                0
            };
            let ab2: nat = if avail_b >= min_w {
                (avail_b - min_w) as nat
            } else {
                0
            };
            spec_balance(sorted.skip(1), widths2, aw2, ab2, min_w)
        } else {
            let widths2 = if 0 <= col < widths.len() {
                widths.update(col, cand as u16)
            } else {
                widths
            };
            spec_balance(sorted.skip(1), widths2, avail_w, avail_b, min_w)
        }
    }
}

/// The widths of all columns, summed from `col` on.
pub open spec fn sum_nat_widths(cv: Seq<Seq<WordM>>, cc: nat, col: int, rows: int) -> nat
    decreases cc - col,
{
    if col < 0 || col >= cc {
        0
    } else {
        spec_nat_width(cv, cc, col, rows) + sum_nat_widths(cv, cc, col + 1, rows)
    }
}

proof fn lemma_cell_width_prefix(l: Seq<WordM>, j: int)
    requires
        0 <= j <= l.len(),
    ensures
        cell_width(l.take(j)) <= cell_width(l),
        cell_width(l.take(j)) + text_width(l[j].content) == cell_width(l.take(j + 1)) || j
            == l.len(),
    decreases l.len(),
{
    if j == l.len() {
        assert(l.take(j) =~= l);
    } else if l.len() > 0 {
        if j == 0 {
            assert(l.take(0) =~= Seq::<WordM>::empty());
            assert(cell_width(l.take(0)) == 0);
            assert(l.take(1)[0] == l[0]);
            assert(l.take(1).skip(1) =~= Seq::<WordM>::empty());
            assert(cell_width(l.take(1)) == text_width(l[0].content));
        } else {
            assert(l.take(j)[0] == l[0]);
            assert(l.take(j).skip(1) =~= l.skip(1).take(j - 1));
            assert(l.take(j + 1)[0] == l[0]);
            assert(l.take(j + 1).skip(1) =~= l.skip(1).take(j));
            lemma_cell_width_prefix(l.skip(1), j - 1);
            assert(l.skip(1)[j - 1] == l[j]);
        }
    }
}

/// The flattened words of wrapped lines.
pub open spec fn flatten_ml(ls: Seq<Seq<WordM>>) -> Seq<WordM>
    decreases ls.len(),
{
    if ls.len() == 0 {
        Seq::empty()
    } else {
        flatten_ml(ls.drop_last()) + ls.last()
    }
}

/// The cell at `idx`, re-wrapped at its column's final width (at least
/// one cell) and flattened back into a single word list.
pub open spec fn spec_rewrap_cell(cell: Seq<WordM>, budget: nat) -> Seq<WordM> {
    flatten_ml(spec_word_wrapping(cell, if budget >= 1 {
        budget
    } else {
        1
    }, true))
}

/// One row's height after the re-wrap: the largest line count of its
/// cells, at least one.
pub open spec fn spec_row_height(cv: Seq<Seq<WordM>>, cc: nat, wb: Seq<u16>, r: int, col: int) -> nat
    decreases cc - col,
{
    if col < 0 || col >= cc {
        1
    } else {
        let rest = spec_row_height(cv, cc, wb, r, col + 1);
        let idx = r * cc + col;
        let cur: nat = if 0 <= idx < cv.len() && 0 <= col < wb.len() {
            let lines = spec_word_wrapping(cv[idx], if wb[col] >= 1 {
                wb[col] as nat
            } else {
                1
            }, true).len();
            if lines > 0xFFFF {
                0xFFFF
            } else {
                lines
            }
        } else {
            1
        };
        if cur > rest {
            cur
        } else {
            rest
        }
    }
}

/// Sum of row heights, saturating at the height field's range.
pub open spec fn sat_sum_heights(hs: Seq<u16>) -> nat
    decreases hs.len(),
{
    if hs.len() == 0 {
        0
    } else {
        let rest = sat_sum_heights(hs.skip(1));
        if hs[0] + rest > 0xFFFF {
            0xFFFF
        } else {
            (hs[0] + rest) as nat
        }
    }
}

/// Count the column markers of the metadata.
fn count_columns(meta: &Vec<Word>) -> (r: usize)
    ensures
        r == spec_col_count(meta@),
{
    let ghost pred = |w: Word| is_column_marker(w);
    let mut count: usize = 0;
    let mut i: usize = 0;
    proof {
        reveal(Seq::filter);
        assert(meta@.take(0) =~= Seq::<Word>::empty());
        assert(meta@.take(0).filter(pred) =~= Seq::<Word>::empty());
    }
    while i < meta.len()
        invariant
            0 <= i <= meta@.len(),
            count == meta@.take(i as int).filter(|w: Word| is_column_marker(w)).len(),
            count <= i,
        decreases meta@.len() - i,
    {
        if matches!(meta[i].kind(), WordType::MetaInfo(MetaData::ColumnsCount)) {
            count = count + 1;
        }
        proof {
            reveal(Seq::filter);
            assert(meta@.take(i + 1).drop_last() =~= meta@.take(i as int));
            assert(meta@.take(i + 1).last() == meta@[i as int]);
            meta@.take(i + 1).drop_last().lemma_filter_len(|w: Word| is_column_marker(w));
        }
        i = i + 1;
    }
    proof {
        assert(meta@.take(meta@.len() as int) =~= meta@);
    }
    count
}

/// The display width of one table cell: the sum of its words' widths.
pub fn content_entry_len(cell: &Vec<Word>) -> (r: usize)
    requires
        forall|j: int| 0 <= j < cell@.len() ==> (#[trigger] cell@[j])@.content.len()
            <= MAX_TEXT_LEN,
        cell_width(line_view(cell@)) <= 0xFFFF,
    ensures
        r == cell_width(line_view(cell@)),
{
    let ghost lv = line_view(cell@);
    let mut sum: usize = 0;
    let mut j: usize = 0;
    proof {
        assert(lv.take(0) =~= Seq::<WordM>::empty());
    }
    while j < cell.len()
        invariant
            0 <= j <= cell@.len(),
            lv == line_view(cell@),
            forall|q: int| 0 <= q < cell@.len() ==> (#[trigger] cell@[q])@.content.len()
                <= MAX_TEXT_LEN,
            cell_width(lv) <= 0xFFFF,
            sum == cell_width(lv.take(j as int)),
            sum <= 0xFFFF,
        decreases cell@.len() - j,
    {
        let w = display_width(cell[j].content());
        proof {
            lemma_cell_width_prefix(lv, j as int);
            assert(lv[j as int].content == cell@[j as int]@.content);
            lemma_cell_width_prefix(lv, j + 1);
        }
        sum = sum + w;
        j = j + 1;
    }
    proof {
        assert(lv.take(cell@.len() as int) =~= lv);
    }
    sum
}



/// Prefix sums of a width list.
pub open spec fn sum_widths_prefix(ws: Seq<u16>, k: int) -> nat
    decreases k,
{
    if k <= 0 || k > ws.len() {
        0
    } else {
        sum_widths_prefix(ws, k - 1) + ws[k - 1] as nat
    }
}

proof fn lemma_sum_widths_prefix_mono(ws: Seq<u16>, a: int, b: int)
    requires
        0 <= a <= b <= ws.len(),
    ensures
        sum_widths_prefix(ws, a) <= sum_widths_prefix(ws, b),
    decreases b - a,
{
    if a < b {
        lemma_sum_widths_prefix_mono(ws, a, b - 1);
    }
}

/// Natural widths only grow with the rows scanned.
proof fn lemma_nat_width_mono(cv: Seq<Seq<WordM>>, cc: nat, col: int, a: int, b: int)
    requires
        a <= b,
    ensures
        spec_nat_width(cv, cc, col, a) <= spec_nat_width(cv, cc, col, b),
    decreases b - a,
{
    if a < b {
        lemma_nat_width_mono(cv, cc, col, a, b - 1);
    }
}

/// Each column's natural width is at most the total over columns.
proof fn lemma_nat_le_sum(cv: Seq<Seq<WordM>>, cc: nat, col: int, k: int, rows: int)
    requires
        0 <= k <= col < cc,
    ensures
        spec_nat_width(cv, cc, col, rows) <= sum_nat_widths(cv, cc, k, rows),
    decreases col - k,
{
    if k < col {
        lemma_nat_le_sum(cv, cc, col, k + 1, rows);
    }
}

/// The measured prefix plus the remaining columns gives the total.
proof fn lemma_sum_split(cv: Seq<Seq<WordM>>, cc: nat, ws: Seq<u16>, k: int, rows: int)
    requires
        0 <= k <= cc,
        ws.len() == cc,
        forall|u: int| 0 <= u < cc ==> (#[trigger] ws[u]) as nat == spec_nat_width(cv, cc, u, rows),
    ensures
        sum_widths_prefix(ws, k) + sum_nat_widths(cv, cc, k, rows) == sum_nat_widths(
            cv,
            cc,
            0,
            rows,
        ),
    decreases k,
{
    if k > 0 {
        lemma_sum_split(cv, cc, ws, k - 1, rows);
        lemma_sum_shift(cv, cc, k - 1, rows);
    }
}

/// Peeling one column off the remaining-columns sum.
proof fn lemma_sum_shift(cv: Seq<Seq<WordM>>, cc: nat, k: int, rows: int)
    requires
        0 <= k < cc,
    ensures
        sum_nat_widths(cv, cc, k, rows) == spec_nat_width(cv, cc, k, rows) + sum_nat_widths(
            cv,
            cc,
            k + 1,
            rows,
        ),
{
}

/// Sum of the width components of the overflow pairs.
pub open spec fn sum_pairs(ps: Seq<(usize, u16)>) -> nat
    decreases ps.len(),
{
    if ps.len() == 0 {
        0
    } else {
        ps[0].1 as nat + sum_pairs(ps.skip(1))
    }
}

proof fn lemma_sum_pairs_snoc(ps: Seq<(usize, u16)>, x: (usize, u16))
    ensures
        sum_pairs(ps.push(x)) == sum_pairs(ps) + x.1 as nat,
    decreases ps.len(),
{
    reveal_with_fuel(sum_pairs, 3);
    if ps.len() == 0 {
        assert(ps.push(x)[0] == x);
        assert(ps.push(x).skip(1) =~= Seq::<(usize, u16)>::empty());
    } else {
        assert(ps.push(x)[0] == ps[0]);
        assert(ps.push(x).skip(1) =~= ps.skip(1).push(x));
        lemma_sum_pairs_snoc(ps.skip(1), x);
    }
}

/// A bounded-entry prefix sums to at most the count times the bound.
proof fn lemma_sum_le_count(ws: Seq<u16>, k: int, bound: nat)
    requires
        0 <= k <= ws.len(),
        forall|u: int| 0 <= u < k ==> (#[trigger] ws[u]) as nat <= bound,
    ensures
        sum_widths_prefix(ws, k) <= k * bound,
    decreases k,
{
    if k > 0 {
        lemma_sum_le_count(ws, k - 1, bound);
        assert(k * bound == (k - 1) * bound + bound) by (nonlinear_arith);
    }
}

/// Flattening commutes with taking views.
proof fn lemma_flatten_view(ls: Seq<Vec<Word>>)
    ensures
        view_words(flat_words(ls)) == flatten_ml(view_lines(ls)),
    decreases ls.len(),
{
    if ls.len() == 0 {
        assert(view_words(flat_words(ls)) =~= flatten_ml(view_lines(ls)));
    } else {
        lemma_flatten_view(ls.drop_last());
        assert(view_lines(ls).drop_last() =~= view_lines(ls.drop_last()));
        assert(view_lines(ls).last() == line_view(ls.last()@));
        assert(view_words(flat_words(ls.drop_last()) + ls.last()@) =~= view_words(
            flat_words(ls.drop_last()),
        ) + view_words(ls.last()@));
        assert(view_words(ls.last()@) =~= line_view(ls.last()@));
        assert(flatten_ml(view_lines(ls)) == flatten_ml(view_lines(ls).drop_last()) + view_lines(
            ls,
        ).last());
    }
}

/// The plain sum of row heights.
pub open spec fn true_sum_heights(hs: Seq<u16>) -> nat
    decreases hs.len(),
{
    if hs.len() == 0 {
        0
    } else {
        hs[0] as nat + true_sum_heights(hs.skip(1))
    }
}

proof fn lemma_sat_sum_is_min(hs: Seq<u16>)
    ensures
        sat_sum_heights(hs) == if true_sum_heights(hs) > 0xFFFF {
            0xFFFF as nat
        } else {
            true_sum_heights(hs)
        },
    decreases hs.len(),
{
    if hs.len() > 0 {
        lemma_sat_sum_is_min(hs.skip(1));
    }
}

proof fn lemma_true_sum_snoc(hs: Seq<u16>, x: u16)
    ensures
        true_sum_heights(hs.push(x)) == true_sum_heights(hs) + x as nat,
    decreases hs.len(),
{
    reveal_with_fuel(true_sum_heights, 3);
    if hs.len() == 0 {
        assert(hs.push(x)[0] == x);
        assert(hs.push(x).skip(1) =~= Seq::<u16>::empty());
    } else {
        assert(hs.push(x)[0] == hs[0]);
        assert(hs.push(x).skip(1) =~= hs.skip(1).push(x));
        lemma_true_sum_snoc(hs.skip(1), x);
    }
}


/// The cell at `idx` still holds its original, measurable words.
pub open spec fn cell_unprocessed(c: Seq<Vec<Word>>, cv: Seq<Seq<WordM>>, idx: int) -> bool {
    &&& line_view(c[idx]@) == cv[idx]
    &&& forall|j: int|
        0 <= j < c[idx]@.len() ==> (#[trigger] c[idx]@[j])@.content.len() <= MAX_TEXT_LEN
}

/// A pair above the threshold appears among the overflow pairs.
proof fn lemma_overflow_member(ps: Seq<(usize, u16)>, pred: spec_fn((usize, u16)) -> bool, u: int)
    requires
        0 <= u < ps.len(),
        pred(ps[u]),
    ensures
        ps.filter(pred).len() > 0,
    decreases ps.len(),
{
    reveal(Seq::filter);
    if u == ps.len() - 1 {
        assert(ps.last() == ps[u]);
    } else {
        assert(forall|q: int| 0 <= q < ps.drop_last().len() ==> #[trigger] ps.drop_last()[q]
            == ps[q]);
        lemma_overflow_member(ps.drop_last(), pred, u);
    }
}

/// Prefix sums of row heights.
pub open spec fn true_sum_prefix(hs: Seq<u16>, k: int) -> nat
    decreases k,
{
    if k <= 0 || k > hs.len() {
        0
    } else {
        true_sum_prefix(hs, k - 1) + hs[k - 1] as nat
    }
}

proof fn lemma_true_sum_prefix_full(hs: Seq<u16>)
    ensures
        true_sum_prefix(hs, hs.len() as int) == true_sum_heights(hs),
{
    lemma_true_sum_prefix_eq(hs, hs.len() as int);
    assert(hs.take(hs.len() as int) =~= hs);
}

proof fn lemma_true_sum_prefix_eq(hs: Seq<u16>, k: int)
    requires
        0 <= k <= hs.len(),
    ensures
        true_sum_prefix(hs, k) == true_sum_heights(hs.take(k)),
    decreases k,
{
    if k == 0 {
        assert(hs.take(0) =~= Seq::<u16>::empty());
    } else {
        lemma_true_sum_prefix_eq(hs, k - 1);
        assert(hs.take(k).drop_last() =~= hs.take(k - 1));
        lemma_true_sum_snoc(hs.take(k - 1), hs[k - 1]);
        assert(hs.take(k) =~= hs.take(k - 1).push(hs[k - 1]));
    }
}

/// Lay a table block out at `width`.
///
/// A malformed table degenerates to an empty tag of height one.  A
/// table whose natural widths fit keeps them, with one-line rows.
/// Otherwise the overflowing columns share the remaining budget
/// proportionally (with a floor), and every cell is re-wrapped at its
/// final column width.
#[verifier::rlimit(100)]
pub fn transform_table(component: &mut TextComponent, width: u16)
    requires
        wf_content(old(component).content@),
        old(component).content@.len() <= 0xFFFF,
        ({
            let cv = view_lines(old(component).content@);
            let cc = spec_col_count(old(component).meta_info@);
            let rows = if cc > 0 {
                old(component).content@.len() as int / cc as int
            } else {
                0
            };
            cc > 0 && (old(component).content@.len() as int) % (cc as int) == 0 ==> {
                &&& sum_nat_widths(cv, cc, 0, rows) + cc <= 0xFFFF
                &&& width as nat >= cc
            }
        }),
    ensures
        final(component).meta_info == old(component).meta_info,
        final(component).offset == old(component).offset,
        final(component).scroll_offset == old(component).scroll_offset,
        final(component).focused == old(component).focused,
        final(component).focused_index == old(component).focused_index,
        ({
            let cv = view_lines(old(component).content@);
            let cc = spec_col_count(old(component).meta_info@);
            let n = old(component).content@.len() as int;
            let rows = if cc > 0 {
                n / cc as int
            } else {
                0
            };
            let widths = Seq::new(cc, |col: int| spec_nat_width(cv, cc, col, rows) as u16);
            if cc == 0 || n % (cc as int) != 0 {
                // malformed: empty tag, height one, content untouched
                &&& final(component).kind matches TextNode::Table(w, h) && w@.len() == 0
                    && h@.len() == 0
                &&& final(component).height == 1
                &&& final(component).content == old(component).content
            } else if width as nat >= sum_nat_widths(cv, cc, 0, rows) + cc {
                // natural widths fit
                &&& final(component).kind matches TextNode::Table(w, h) && w@ == widths && h@
                    == Seq::new(rows as nat, |r: int| 1u16)
                &&& final(component).height == rows
                &&& final(component).content == old(component).content
            } else {
                // overflow: proportional redistribution, then re-wrap
                exists|sorted: Seq<(usize, u16)>|
                    #![trigger sorted.len()]
                    {
                        let threshold = ((width as int - cc) / (cc as int)) as nat;
                        let ovf = spec_overflowing(widths, threshold);
                        let ovf_sum = sum_pairs(ovf);
                        let non_ovf = (sum_nat_widths(cv, cc, 0, rows) - ovf_sum) as nat;
                        let b0: nat = if width as nat >= non_ovf + cc {
                            (width as nat - non_ovf - cc) as nat
                        } else {
                            0
                        };
                        let minw: nat = if ovf.len() > 0 && b0 / (2 * ovf.len()) > 1 {
                            b0 / (2 * ovf.len())
                        } else {
                            1
                        };
                        let wb = spec_balance(sorted, widths, ovf_sum, b0, minw);
                        let heights = Seq::new(
                            rows as nat,
                            |r: int| spec_row_height(cv, cc, wb, r, 0) as u16,
                        );
                        &&& lex_sorted_perm(sorted, ovf)
                        &&& final(component).kind matches TextNode::Table(w, h) && w@ == wb && h@
                            == heights
                        &&& final(component).height == sat_sum_heights(heights)
                        &&& view_lines(final(component).content@) == Seq::new(
                            cv.len(),
                            |idx: int|
                                spec_rewrap_cell(
                                    cv[idx],
                                    wb[idx % (cc as int)] as nat,
                                ),
                        )
                    }
            }
        }),
    {
    let cc = count_columns(&component.meta_info);
    let n = component.content.len();
    let ghost cv = view_lines(component.content@);
    if cc == 0 || n % cc != 0 {
        component.height = 1;
        component.kind = TextNode::Table(Vec::new(), Vec::new());
        return ;
    }
    let rows = n / cc;
    // measure natural widths
    let mut widths: Vec<u16> = Vec::new();
    let mut col: usize = 0;
    while col < cc
        invariant
            0 <= col <= cc,
            cc > 0,
            n == component.content@.len(),
            n <= 0xFFFF,
            n % cc == 0,
            rows == n / cc,
            cv == view_lines(component.content@),
            *component == *old(component),
            wf_content(component.content@),
            sum_nat_widths(cv, cc as nat, 0, rows as int) + cc <= 0xFFFF,
            cc == spec_col_count(component.meta_info@),
            widths@.len() == col,
            forall|q: int| 0 <= q < col ==> (#[trigger] widths@[q]) as nat == spec_nat_width(
                cv,
                cc as nat,
                q,
                rows as int,
            ),
        decreases cc - col,
    {
        proof {
            lemma_nat_le_sum(cv, cc as nat, col as int, 0, rows as int);
        }
        let mut best: usize = 0;
        let mut r: usize = 0;
        while r < rows
            invariant
                0 <= r <= rows,
                0 <= col < cc,
                n == component.content@.len(),
                rows == n / cc,
                n % cc == 0,
                cc > 0,
                cv == view_lines(component.content@),
                *component == *old(component),
                wf_content(component.content@),
                best == spec_nat_width(cv, cc as nat, col as int, r as int),
                spec_nat_width(cv, cc as nat, col as int, rows as int) <= 0xFFFF,
                best <= 0xFFFF,
            decreases rows - r,
        {
            proof {
                assert(r * cc + col < n) by (nonlinear_arith)
                    requires
                        0 <= r < rows,
                        0 <= col < cc,
                        rows == n / cc,
                        n % cc == 0,
                        cc > 0,
                        n >= 0,
                ;
            }
            let idx = r * cc + col;
            proof {
                assert(cv[idx as int] == line_view(component.content@[idx as int]@));
                lemma_nat_width_mono(cv, cc as nat, col as int, r + 1, rows as int);
                assert(cell_width(cv[idx as int]) <= spec_nat_width(
                    cv,
                    cc as nat,
                    col as int,
                    r + 1,
                ));
                assert(forall|j: int|
                    0 <= j < component.content@[idx as int]@.len()
                        ==> (#[trigger] component.content@[idx as int]@[j])@.content.len()
                        <= MAX_TEXT_LEN);
            }
            let cw = content_entry_len(&component.content[idx]);
            if cw > best {
                best = cw;
            }
            r = r + 1;
        }
        widths.push(best as u16);
        col = col + 1;
    }
    let styling_width = cc as u16;
    // total natural width
    let mut unbalanced: usize = 0;
    let mut q: usize = 0;
    proof {
        lemma_sum_split(cv, cc as nat, widths@, cc as int, rows as int);
    }
    while q < cc
        invariant
            0 <= q <= cc,
            widths@.len() == cc,
            cc > 0,
            unbalanced == sum_widths_prefix(widths@, q as int),
            sum_widths_prefix(widths@, cc as int) <= 0xFFFF,
            forall|u: int| 0 <= u < cc ==> (#[trigger] widths@[u]) as nat == spec_nat_width(
                cv,
                cc as nat,
                u,
                rows as int,
            ),
        decreases cc - q,
    {
        proof {
            lemma_sum_widths_prefix_mono(widths@, q + 1, cc as int);
        }
        unbalanced = unbalanced + widths[q] as usize;
        q = q + 1;
    }
    let ghost total_nat = sum_nat_widths(cv, cc as nat, 0, rows as int);
    proof {
        lemma_sum_split(cv, cc as nat, widths@, cc as int, rows as int);
        assert(unbalanced == total_nat);
    }
    if width as usize >= unbalanced + cc {
        if rows <= 0xFFFF {
            component.height = rows as u16;
        } else {
            component.height = 0xFFFF;
        }
        let mut hs: Vec<u16> = Vec::new();
        let mut r2: usize = 0;
        while r2 < rows
            invariant
                0 <= r2 <= rows,
                hs@.len() == r2,
                forall|u: int| 0 <= u < r2 ==> (#[trigger] hs@[u]) == 1u16,
            decreases rows - r2,
        {
            hs.push(1);
            r2 = r2 + 1;
        }
        proof {
            assert(hs@ =~= Seq::new(rows as nat, |r3: int| 1u16));
            assert(widths@ =~= Seq::new(
                spec_col_count(old(component).meta_info@),
                |c2: int| spec_nat_width(cv, cc as nat, c2, rows as int) as u16,
            ));
        }
        component.kind = TextNode::Table(widths, hs);
        return ;
    }
    // overflow: classify, redistribute, re-wrap
    let threshold: u16 = (width - styling_width) / (cc as u16);
    let mut ovf: Vec<(usize, u16)> = Vec::new();
    let mut ovf_sum: usize = 0;
    let mut q2: usize = 0;
    proof {
        reveal(Seq::filter);
        assert(widths@.take(0) =~= Seq::<u16>::empty());
        assert(spec_overflowing(widths@.take(0), threshold as nat) =~= Seq::<(usize, u16)>::empty());
    }
    while q2 < cc
        invariant
            0 <= q2 <= cc,
            widths@.len() == cc,
            cc > 0,
            ovf@ == spec_overflowing(widths@.take(q2 as int), threshold as nat),
            ovf_sum == sum_pairs(ovf@),
            ovf_sum <= sum_widths_prefix(widths@, q2 as int),
            sum_widths_prefix(widths@, cc as int) <= 0xFFFF,
            forall|a: int, b: int| 0 <= a < b < ovf@.len() ==> ovf@[a].0 < ovf@[b].0,
            forall|a: int| 0 <= a < ovf@.len() ==> (#[trigger] ovf@[a]).0 < q2,
            forall|a: int| 0 <= a < ovf@.len() ==> (#[trigger] ovf@[a]).1 > threshold,
            ovf@.len() <= q2,
            forall|u: int| 0 <= u < cc ==> (#[trigger] widths@[u]) as nat == spec_nat_width(
                cv,
                cc as nat,
                u,
                rows as int,
            ),
        decreases cc - q2,
    {
        let ghost pairs_prev = Seq::new(q2 as nat, |i: int| (i as usize, widths@[i]));
        let ghost pairs_next = Seq::new((q2 + 1) as nat, |i: int| (i as usize, widths@[i]));
        proof {
            assert(Seq::new(widths@.take(q2 as int).len(), |i: int| (i as usize, widths@.take(
                q2 as int,
            )[i])) =~= pairs_prev);
            assert(Seq::new(widths@.take(q2 + 1).len(), |i: int| (i as usize, widths@.take(
                q2 + 1,
            )[i])) =~= pairs_next);
            assert(pairs_next =~= pairs_prev.push((q2 as usize, widths@[q2 as int])));
            reveal(Seq::filter);
            assert(pairs_next.drop_last() =~= pairs_prev);
            lemma_sum_widths_prefix_mono(widths@, q2 + 1, cc as int);
        }
        let wq = widths[q2];
        if wq > threshold {
            ovf.push((q2, wq));
            ovf_sum = ovf_sum + wq as usize;
            proof {
                lemma_sum_pairs_snoc(ovf@.drop_last(), (q2, wq));
                assert(ovf@.drop_last() =~= spec_overflowing(widths@.take(q2 as int), threshold as nat));
            }
        }
        q2 = q2 + 1;
    }
    proof {
        assert(widths@.take(cc as int) =~= widths@);
    }
    let k = ovf.len();
    proof {
        if k == 0 {
            assert(forall|u: int| 0 <= u < cc ==> (#[trigger] widths@[u]) as nat <= threshold as nat)
                by {
                assert forall|u: int| 0 <= u < cc implies (#[trigger] widths@[u]) as nat
                    <= threshold as nat by {
                    let pairs = Seq::new(cc as nat, |i: int| (i as usize, widths@[i]));
                    if widths@[u] > threshold {
                        assert(pairs[u].1 > threshold);
                        lemma_overflow_member(pairs, |p: (usize, u16)| p.1 > threshold, u);
                        assert(false);
                    }
                }
            }
            lemma_sum_le_count(widths@, cc as int, threshold as nat);
            assert(cc * (threshold as nat) <= width as nat - cc) by (nonlinear_arith)
                requires
                    threshold as int == (width as int - cc) / (cc as int),
                    cc > 0,
                    width as nat >= cc,
            ;
            assert(false);
        }
    }
    let non_ovf = unbalanced - ovf_sum;
    let b0: usize = if width as usize >= non_ovf + cc {
        width as usize - non_ovf - cc
    } else {
        0
    };
    let minw_div = b0 / (2 * k);
    let minw: usize = if minw_div > 1 {
        minw_div
    } else {
        1
    };
    let sorted = sorted_by_width(ovf);
    let ghost sortedv = sorted@;
    let ghost widths0 = widths@;
    let ghost target = spec_balance(sortedv, widths0, ovf_sum as nat, b0 as nat, minw as nat);
    let mut wb = widths;
    let mut aw: usize = ovf_sum;
    let mut ab: usize = b0;
    let mut si: usize = 0;
    let ns = sorted.len();
    proof {
        assert(sortedv.skip(0) =~= sortedv);
    }
    while si < ns
        invariant
            0 <= si <= ns,
            ns == sortedv.len(),
            sortedv == sorted@,
            wb@.len() == cc,
            cc > 0,
            aw <= 0xFFFF,
            ab <= 0xFFFF,
            1 <= minw <= 0xFFFF,
            spec_balance(sortedv.skip(si as int), wb@, aw as nat, ab as nat, minw as nat)
                == target,
        decreases ns - si,
    {
        let ghost wb0 = wb@;
        let ghost aw0 = aw;
        let ghost ab0 = ab;
        let (colx, w) = sorted[si];
        proof {
            assert(w as u64 <= 0xFFFFu64);
            assert(ab as u64 <= 0xFFFFu64);
            assert((w as u64) * (ab as u64) <= 0xFFFF_0000_0000u64) by (nonlinear_arith)
                requires
                    w as u64 <= 0xFFFFu64,
                    ab as u64 <= 0xFFFFu64,
            ;
        }
        let cand: u64 = if aw > 0 {
            (w as u64) * (ab as u64) / (aw as u64)
        } else {
            0
        };
        proof {
            assert(sortedv.skip(si as int)[0] == sortedv[si as int]);
            assert(sortedv.skip(si as int).skip(1) =~= sortedv.skip(si + 1));
        }
        if cand < minw as u64 {
            if colx < wb.len() {
                wb.set(colx, minw as u16);
            }
            aw = if aw >= w as usize {
                aw - w as usize
            } else {
                0
            };
            ab = if ab >= minw {
                ab - minw
            } else {
                0
            };
        } else {
            if colx < wb.len() {
                let candt = #[verifier::truncate] (cand as u16);
                wb.set(colx, candt);
            }
        }
        proof {
            assert(spec_balance(sortedv.skip(si as int), wb0, aw0 as nat, ab0 as nat, minw as nat)
                == spec_balance(sortedv.skip(si + 1), wb@, aw as nat, ab as nat, minw as nat));
        }
        si = si + 1;
    }
    proof {
        assert(sortedv.skip(ns as int) =~= Seq::<(usize, u16)>::empty());
        assert(wb@ == target);
    }
    // re-wrap every cell at its final column width
    let ghost wbv = wb@;
    let mut heights: Vec<u16> = Vec::new();
    let mut r4: usize = 0;
    while r4 < rows
        invariant
            0 <= r4 <= rows,
            n == component.content@.len(),
            n <= 0xFFFF,
            rows == n / cc,
            n % cc == 0,
            cc > 0,
            wb@ == wbv,
            wbv.len() == cc,
            cv.len() == n,
            component.content@.len() == cv.len(),
            component.kind == old(component).kind,
            component.meta_info == old(component).meta_info,
            component.offset == old(component).offset,
            component.scroll_offset == old(component).scroll_offset,
            component.focused == old(component).focused,
            component.focused_index == old(component).focused_index,
            forall|idx: int|
                r4 * cc <= idx < n ==> #[trigger] cell_unprocessed(component.content@, cv, idx),
            heights@.len() == r4,
            forall|u: int| 0 <= u < r4 ==> (#[trigger] heights@[u]) as nat == spec_row_height(
                cv,
                cc as nat,
                wbv,
                u,
                0,
            ),
            forall|idx: int|
                0 <= idx < r4 * cc ==> line_view((#[trigger] component.content@[idx])@)
                    == spec_rewrap_cell(cv[idx], wbv[idx % (cc as int)] as nat),
        decreases rows - r4,
    {
        let mut row_h: usize = 1;
        let mut c3: usize = cc;
        proof {
            assert((r4 + 1) * cc == r4 * cc + cc) by (nonlinear_arith);
            assert((r4 + 1) * cc <= rows * cc) by (nonlinear_arith)
                requires
                    r4 + 1 <= rows,
                    cc >= 0,
            ;
            assert(rows * cc == n) by (nonlinear_arith)
                requires
                    rows == n / cc,
                    n % cc == 0,
                    cc > 0,
                    n >= 0,
            ;
        }
        while c3 > 0
            invariant
                0 <= c3 <= cc,
                0 <= r4 < rows,
                n == component.content@.len(),
                n <= 0xFFFF,
                rows == n / cc,
                n % cc == 0,
                cc > 0,
                wb@ == wbv,
                wbv.len() == cc,
                cv.len() == n,
                component.content@.len() == cv.len(),
                r4 * cc + cc <= n,
                component.kind == old(component).kind,
                component.meta_info == old(component).meta_info,
                component.offset == old(component).offset,
                component.scroll_offset == old(component).scroll_offset,
                component.focused == old(component).focused,
                component.focused_index == old(component).focused_index,
                forall|idx: int|
                    (r4 * cc <= idx < r4 * cc + c3) || ((r4 + 1) * cc <= idx < n)
                        ==> #[trigger] cell_unprocessed(component.content@, cv, idx),
                row_h as nat == spec_row_height(cv, cc as nat, wbv, r4 as int, c3 as int),
                row_h <= 0xFFFF,
                forall|idx: int|
                    0 <= idx < r4 * cc ==> line_view((#[trigger] component.content@[idx])@)
                        == spec_rewrap_cell(cv[idx], wbv[idx % (cc as int)] as nat),
                forall|idx: int|
                    r4 * cc + c3 <= idx < r4 * cc + cc ==> line_view(
                        (#[trigger] component.content@[idx])@,
                    ) == spec_rewrap_cell(cv[idx], wbv[idx % (cc as int)] as nat),
                heights@.len() == r4,
                forall|u: int| 0 <= u < r4 ==> (#[trigger] heights@[u]) as nat == spec_row_height(
                    cv,
                    cc as nat,
                    wbv,
                    u,
                    0,
                ),
            decreases c3,
        {
            let c2 = c3 - 1;
            let idx = r4 * cc + c2;
            let ghost cpre = component.content@;
            proof {
                assert(idx < n);
                assert(cell_unprocessed(component.content@, cv, idx as int));
                assert(line_view(component.content@[idx as int]@) == cv[idx as int]);
                assert(idx as int % (cc as int) == c2) by (nonlinear_arith)
                    requires
                        idx == r4 * cc + c2,
                        0 <= c2 < cc,
                        cc > 0,
                        r4 >= 0,
                ;
            }
            let mut cell: Vec<Word> = Vec::new();
            component.content.set_and_swap(idx, &mut cell);
            let budget: usize = if wb[c2] >= 1 {
                wb[c2] as usize
            } else {
                1
            };
            proof {
                assert(forall|j: int| 0 <= j < cell@.len() ==> (#[trigger] cell@[j])@.content.len()
                    <= MAX_TEXT_LEN);
            }
            let lines = word_wrapping(&cell, budget, true);
            let lc = lines.len();
            let lc16: usize = if lc > 0xFFFF {
                0xFFFF
            } else {
                lc
            };
            if lc16 > row_h {
                row_h = lc16;
            }
            let mut flat2 = crate::component::flatten_content(&lines);
            component.content.set_and_swap(idx, &mut flat2);
            proof {
                lemma_flatten_view(lines@);
                assert(line_view(component.content@[idx as int]@) == spec_rewrap_cell(
                    cv[idx as int],
                    wbv[c2 as int] as nat,
                ));
                assert forall|u: int|
                    ((r4 * cc <= u < r4 * cc + c2) || ((r4 + 1) * cc <= u < n)) implies #[trigger] cell_unprocessed(
                    component.content@,
                    cv,
                    u,
                ) by {
                    assert(component.content@[u] == cpre[u]);
                    assert(cell_unprocessed(cpre, cv, u));
                }
                assert forall|u: int|
                    r4 * cc + c2 <= u < r4 * cc + cc implies line_view(
                    (#[trigger] component.content@[u])@,
                ) == spec_rewrap_cell(cv[u], wbv[u % (cc as int)] as nat) by {
                    if u != idx {
                        assert(component.content@[u] == cpre[u]);
                    }
                }
                assert forall|u: int|
                    0 <= u < r4 * cc implies line_view((#[trigger] component.content@[u])@)
                    == spec_rewrap_cell(cv[u], wbv[u % (cc as int)] as nat) by {
                    assert(component.content@[u] == cpre[u]);
                }
            }
            c3 = c2;
        }
        heights.push(row_h as u16);
        proof {
            assert((r4 + 1) * cc == r4 * cc + cc) by (nonlinear_arith);
        }
        r4 = r4 + 1;
    }
    // total height, saturating at the field's range
    let ghost hsv = heights@;
    let mut total: usize = 0;
    let mut hi: usize = 0;
    let nh = heights.len();
    while hi < nh
        invariant
            0 <= hi <= nh,
            nh == hsv.len(),
            hsv == heights@,
            nh <= 0xFFFF,
            total == true_sum_prefix(hsv, hi as int),
            total <= hi * 0xFFFF,
        decreases nh - hi,
    {
        proof {
            assert((hi + 1) * 0xFFFF == hi * 0xFFFF + 0xFFFF) by (nonlinear_arith);
        }
        total = total + heights[hi] as usize;
        hi = hi + 1;
    }
    proof {
        lemma_true_sum_prefix_full(hsv);
        lemma_sat_sum_is_min(hsv);
    }
    if total > 0xFFFF {
        component.height = 0xFFFF;
    } else {
        component.height = total as u16;
    }
    proof {
        assert(rows * cc == n) by (nonlinear_arith)
            requires
                rows == n / cc,
                n % cc == 0,
                cc > 0,
                n >= 0,
        ;
        assert(heights@ =~= Seq::new(rows as nat, |r5: int| spec_row_height(
            cv,
            cc as nat,
            wbv,
            r5,
            0,
        ) as u16));
        assert(view_lines(component.content@) =~= Seq::new(
            cv.len(),
            |idx: int| spec_rewrap_cell(cv[idx], wbv[idx % (cc as int)] as nat),
        ));
        // Tie the executable values to the contract's formulation and
        // exhibit the sorted permutation as the witness.
        let widths_s = Seq::new(
            spec_col_count(old(component).meta_info@),
            |c2: int| spec_nat_width(cv, cc as nat, c2, rows as int) as u16,
        );
        assert(widths0 =~= widths_s);
        let threshold_s = ((width as int - cc) / (cc as int)) as nat;
        assert(threshold as nat == threshold_s);
        assert(lex_sorted_perm(sortedv, spec_overflowing(widths_s, threshold_s)));
        assert(sum_pairs(spec_overflowing(widths_s, threshold_s)) == ovf_sum as nat);
        assert(sortedv.len() == ns);
    }
    component.kind = TextNode::Table(wb, heights);
}


/// Sum over a whole width list via the prefix sums.
proof fn lemma_sum_widths_full(ws: Seq<u16>)
    ensures
        sum_widths_prefix(ws, ws.len() as int) == sum_widths(ws),
    decreases ws.len(),
{
    if ws.len() > 0 {
        lemma_sum_widths_full(ws.skip(1));
        lemma_sum_widths_prefix_skip(ws, ws.len() as int);
    }
}

proof fn lemma_sum_widths_prefix_skip(ws: Seq<u16>, k: int)
    requires
        1 <= k <= ws.len(),
    ensures
        sum_widths_prefix(ws, k) == ws[0] as nat + sum_widths_prefix(ws.skip(1), k - 1),
    decreases k,
{
    reveal_with_fuel(sum_widths_prefix, 3);
    if k > 1 {
        lemma_sum_widths_prefix_skip(ws, k - 1);
        assert(ws.skip(1)[k - 2] == ws[k - 1]);
        assert(sum_widths_prefix(ws.skip(1), k - 1) == sum_widths_prefix(ws.skip(1), k - 2)
            + ws.skip(1)[k - 2] as nat);
    }
}

/// Updating one slot moves the sum by the difference.
proof fn lemma_sum_widths_update(ws: Seq<u16>, col: int, v: u16)
    requires
        0 <= col < ws.len(),
    ensures
        sum_widths(ws.update(col, v)) == sum_widths(ws) - ws[col] + v,
    decreases ws.len(),
{
    if col == 0 {
        assert(ws.update(0, v)[0] == v);
        assert(ws.update(0, v).skip(1) =~= ws.skip(1));
    } else {
        assert(ws.update(col, v)[0] == ws[0]);
        assert(ws.update(col, v).skip(1) =~= ws.skip(1).update(col - 1, v));
        lemma_sum_widths_update(ws.skip(1), col - 1, v);
        assert(ws.skip(1)[col - 1] == ws[col]);
    }
}

/// Removing one pair takes exactly its width out of the sum.
proof fn lemma_sum_pairs_remove(b: Seq<(usize, u16)>, k: int)
    requires
        0 <= k < b.len(),
    ensures
        sum_pairs(b) == b[k].1 as nat + sum_pairs(b.remove(k)),
    decreases k,
{
    if k == 0 {
        assert(b.remove(0) =~= b.skip(1));
    } else {
        assert(b.remove(k)[0] == b[0]);
        assert(b.remove(k).skip(1) =~= b.skip(1).remove(k - 1));
        lemma_sum_pairs_remove(b.skip(1), k - 1);
        assert(b.skip(1)[k - 1] == b[k]);
    }
}

/// Sequences with the same multiset have the same width sum.
proof fn lemma_sum_pairs_perm(a: Seq<(usize, u16)>, b: Seq<(usize, u16)>)
    requires
        a.to_multiset() == b.to_multiset(),
    ensures
        sum_pairs(a) == sum_pairs(b),
    decreases a.len(),
{
    broadcast use vstd::seq_lib::group_to_multiset_ensures;

    if a.len() == 0 {
        assert(b.to_multiset().len() == 0);
        assert(b.len() == 0);
    } else {
        let x = a[0];
        assert(a.to_multiset().count(x) > 0) by {
            assert(a.contains(x));
        }
        assert(b.contains(x));
        let k = choose|k: int| 0 <= k < b.len() && b[k] == x;
        assert(a.remove(0).to_multiset() =~= a.to_multiset().remove(x));
        assert(b.remove(k).to_multiset() =~= b.to_multiset().remove(x));
        assert(a.remove(0) =~= a.skip(1));
        lemma_sum_pairs_perm(a.skip(1), b.remove(k));
        lemma_sum_pairs_remove(b, k);
    }
}

/// Integer division distributes no worse than the sum: part quotients
/// never exceed the whole's quotient.
proof fn lemma_div_sum(a: int, b: int, c: int)
    requires
        a >= 0,
        b >= 0,
        c >= 1,
    ensures
        a / c + b / c <= (a + b) / c,
{
    let qa = a / c;
    let qb = b / c;
    vstd::arithmetic::div_mod::lemma_fundamental_div_mod(a, c);
    vstd::arithmetic::div_mod::lemma_fundamental_div_mod(b, c);
    vstd::arithmetic::div_mod::lemma_mod_bound(a, c);
    vstd::arithmetic::div_mod::lemma_mod_bound(b, c);
    assert((qa + qb) * c <= a + b) by (nonlinear_arith)
        requires
            a == c * qa + a % c,
            b == c * qb + b % c,
            a % c >= 0,
            b % c >= 0,
    ;
    vstd::arithmetic::div_mod::lemma_div_is_ordered((qa + qb) * c, a + b, c);
    vstd::arithmetic::div_mod::lemma_div_multiples_vanish(qa + qb, c);
    assert(c * (qa + qb) == (qa + qb) * c) by (nonlinear_arith);
}

/// A quotient of a smaller numerator is no larger.
proof fn lemma_div_mono_num(a: int, b: int, c: int)
    requires
        0 <= a <= b,
        c >= 1,
    ensures
        a / c <= b / c,
{
    vstd::arithmetic::div_mod::lemma_div_is_ordered(a, b, c);
}

/// The pointwise facts the balancing argument needs of the sorted
/// pairs.
spec fn pairs_wf(sorted: Seq<(usize, u16)>, ws: Seq<u16>) -> bool {
    &&& forall|i: int| 0 <= i < sorted.len() ==> (#[trigger] sorted[i]).0 < ws.len()
    &&& forall|i: int| 0 <= i < sorted.len() ==> ws[(#[trigger] sorted[i]).0 as int]
        == sorted[i].1
    &&& forall|i: int| 0 <= i < sorted.len() ==> (#[trigger] sorted[i]).1 >= 1
    &&& forall|i: int, j: int| 0 <= i < j < sorted.len() ==> (#[trigger] sorted[i]).0 != (
    #[trigger] sorted[j]).0
    &&& forall|i: int, j: int|
        0 <= i < j < sorted.len() ==> ((#[trigger] sorted[i]).1 < (#[trigger] sorted[j]).1 || (
        sorted[i].1 == sorted[j].1 && sorted[i].0 < sorted[j].0))
}

proof fn lemma_pairs_wf_skip(sorted: Seq<(usize, u16)>, ws: Seq<u16>, col: int, v: u16)
    requires
        pairs_wf(sorted, ws),
        sorted.len() > 0,
        col == sorted[0].0 as int,
        0 <= col < ws.len(),
    ensures
        pairs_wf(sorted.skip(1), ws.update(col, v)),
        pairs_wf(sorted.skip(1), ws),
    decreases sorted.len(),
{
    assert(forall|i: int| 0 <= i < sorted.skip(1).len() ==> #[trigger] sorted.skip(1)[i]
        == sorted[i + 1]);
    assert(forall|i: int|
        0 <= i < sorted.skip(1).len() ==> (#[trigger] sorted.skip(1)[i]).0 != sorted[0].0);
}

/// When no column is floored — the first proportional share already
/// meets the floor — every column takes its exact proportional share,
/// and together they take at most the proportional share of their
/// total width.
proof fn lemma_balance_nf(
    sorted: Seq<(usize, u16)>,
    ws: Seq<u16>,
    aw: nat,
    ab: nat,
    minw: nat,
)
    requires
        pairs_wf(sorted, ws),
        aw >= 1,
        ab <= 0xFFFF,
        sum_pairs(sorted) <= aw,
        sorted.len() > 0 ==> (sorted[0].1 as nat * ab) / aw >= minw,
    ensures
        sum_widths(spec_balance(sorted, ws, aw, ab, minw)) <= sum_widths(ws) - sum_pairs(sorted)
            + (sum_pairs(sorted) * ab) / aw,
    decreases sorted.len(),
{
    if sorted.len() == 0 {
    } else {
        let col = sorted[0].0 as int;
        let w = sorted[0].1 as nat;
        let cand = (w * ab) / aw;
        assert(cand >= minw);
        assert(w <= sum_pairs(sorted));
        assert(cand <= ab) by {
            assert(w * ab <= aw * ab) by (nonlinear_arith)
                requires
                    w <= aw,
                    ab >= 0,
            ;
            lemma_div_mono_num((w * ab) as int, (aw * ab) as int, aw as int);
            vstd::arithmetic::div_mod::lemma_div_multiples_vanish(ab as int, aw as int);
            assert(aw as int * ab as int == ab as int * aw as int) by (nonlinear_arith);
        }
        let ws2 = ws.update(col, cand as u16);
        lemma_pairs_wf_skip(sorted, ws, col, cand as u16);
        assert(sum_pairs(sorted.skip(1)) == sum_pairs(sorted) - w);
        assert(sorted.skip(1).len() > 0 ==> (sorted.skip(1)[0].1 as nat * ab) / aw >= minw) by {
            if sorted.skip(1).len() > 0 {
                assert(sorted.skip(1)[0] == sorted[1]);
                assert(sorted[0].1 <= sorted[1].1);
                assert(sorted[1].1 as nat * ab >= sorted[0].1 as nat * ab) by (nonlinear_arith)
                    requires
                        sorted[0].1 <= sorted[1].1,
                        ab >= 0,
                ;
                lemma_div_mono_num(
                    (sorted[0].1 as nat * ab) as int,
                    (sorted[1].1 as nat * ab) as int,
                    aw as int,
                );
            }
        }
        lemma_balance_nf(sorted.skip(1), ws2, aw, ab, minw);
        lemma_sum_widths_update(ws, col, cand as u16);
        assert((cand as u16) as nat == cand);
        lemma_div_sum((w * ab) as int, ((sum_pairs(sorted) - w) * ab) as int, aw as int);
        assert(w * ab + (sum_pairs(sorted) - w) * ab == sum_pairs(sorted) * ab) by (nonlinear_arith);
    }
}

/// The balanced widths spend at most the budget: every floored column
/// takes the floor (paid for out of the budget pool), and the rest
/// share proportionally.
proof fn lemma_balance_bound(
    sorted: Seq<(usize, u16)>,
    ws: Seq<u16>,
    aw: nat,
    ab: nat,
    minw: nat,
)
    requires
        pairs_wf(sorted, ws),
        minw >= 1,
        ab <= 0xFFFF,
        minw * sorted.len() <= ab,
        sum_pairs(sorted) <= aw,
    ensures
        sum_widths(spec_balance(sorted, ws, aw, ab, minw)) <= sum_widths(ws) - sum_pairs(sorted)
            + ab,
    decreases sorted.len(),
{
    if sorted.len() == 0 {
    } else {
        let col = sorted[0].0 as int;
        let w = sorted[0].1 as nat;
        assert(w <= sum_pairs(sorted));
        assert(aw >= 1);
        let cand = (w * ab) / aw;
        if cand < minw {
            assert(minw <= ab) by {
                assert(minw * 1 <= minw * sorted.len()) by (nonlinear_arith)
                    requires
                        sorted.len() >= 1,
                        minw >= 0,
                ;
            }
            let ws2 = ws.update(col, minw as u16);
            lemma_pairs_wf_skip(sorted, ws, col, minw as u16);
            assert(sum_pairs(sorted.skip(1)) == sum_pairs(sorted) - w);
            assert(minw * sorted.skip(1).len() <= ab - minw) by {
                assert(minw * sorted.len() == minw * sorted.skip(1).len() + minw)
                    by (nonlinear_arith)
                    requires
                        sorted.len() == sorted.skip(1).len() + 1,
                ;
            }
            lemma_balance_bound(
                sorted.skip(1),
                ws2,
                (aw - w) as nat,
                (ab - minw) as nat,
                minw,
            );
            lemma_sum_widths_update(ws, col, minw as u16);
            assert((minw as u16) as nat == minw);
        } else {
            lemma_balance_nf(sorted, ws, aw, ab, minw);
            assert((sum_pairs(sorted) * ab) / aw <= ab) by {
                assert(sum_pairs(sorted) * ab <= aw * ab) by (nonlinear_arith)
                    requires
                        sum_pairs(sorted) <= aw,
                        ab >= 0,
                ;
                lemma_div_mono_num(
                    (sum_pairs(sorted) * ab) as int,
                    (aw * ab) as int,
                    aw as int,
                );
                vstd::arithmetic::div_mod::lemma_div_multiples_vanish(ab as int, aw as int);
                assert(aw as int * ab as int == ab as int * aw as int) by (nonlinear_arith);
            }
        }
    }
}


/// Every filtered element is an element of the original sequence.
proof fn lemma_filter_elem<T>(s: Seq<T>, pred: spec_fn(T) -> bool, q: int)
    requires
        0 <= q < s.filter(pred).len(),
    ensures
        s.contains(s.filter(pred)[q]),
    decreases s.len(),
{
    reveal(Seq::filter);
    if s.len() > 0 {
        let f = s.filter(pred);
        let fp = s.drop_last().filter(pred);
        if pred(s.last()) {
            if q < fp.len() {
                lemma_filter_elem(s.drop_last(), pred, q);
                let x = fp[q];
                assert(s.drop_last().contains(x));
                let p = choose|p: int| 0 <= p < s.drop_last().len() && s.drop_last()[p] == x;
                assert(s[p] == x);
            } else {
                assert(f[q] == s.last());
                assert(s[s.len() - 1] == s.last());
            }
        } else {
            lemma_filter_elem(s.drop_last(), pred, q);
            let x = fp[q];
            let p = choose|p: int| 0 <= p < s.drop_last().len() && s.drop_last()[p] == x;
            assert(s[p] == x);
        }
    }
}

proof fn lemma_sum_widths_drop_last(ws: Seq<u16>)
    requires
        ws.len() > 0,
    ensures
        sum_widths(ws) == sum_widths(ws.drop_last()) + ws.last() as nat,
    decreases ws.len(),
{
    if ws.len() == 1 {
        assert(ws.drop_last() =~= Seq::<u16>::empty());
        assert(ws.skip(1) =~= Seq::<u16>::empty());
    } else {
        lemma_sum_widths_drop_last(ws.skip(1));
        assert(ws.skip(1).drop_last() =~= ws.drop_last().skip(1));
        assert(ws.skip(1).last() == ws.last());
        assert(ws.drop_last()[0] == ws[0]);
    }
}

/// The overflow pairs carry at most the whole width total, and what
/// they leave behind fits under the threshold per column.
proof fn lemma_ovf_split(ws: Seq<u16>, t: nat)
    ensures
        sum_pairs(spec_overflowing(ws, t)) <= sum_widths(ws),
        sum_widths(ws) - sum_pairs(spec_overflowing(ws, t)) <= ws.len() * t,
    decreases ws.len(),
{
    reveal(Seq::filter);
    if ws.len() == 0 {
        assert(Seq::new(0, |i: int| (i as usize, ws[i])) =~= Seq::<(usize, u16)>::empty());
    } else {
        let base = Seq::new(ws.len(), |i: int| (i as usize, ws[i]));
        let basep = Seq::new(ws.drop_last().len(), |i: int| (i as usize, ws.drop_last()[i]));
        assert(base.drop_last() =~= basep);
        lemma_ovf_split(ws.drop_last(), t);
        lemma_sum_widths_drop_last(ws);
        assert(base.last() == (((ws.len() - 1) as usize, ws.last())));
        if base.last().1 > t {
            lemma_sum_pairs_snoc(basep.filter(|p: (usize, u16)| p.1 > t), base.last());
            assert((ws.len() as int) * t == (ws.drop_last().len() as int) * t + t)
                by (nonlinear_arith)
                requires
                    ws.len() >= 1,
            ;
        } else {
            assert((ws.len() as int) * t == (ws.drop_last().len() as int) * t + t)
                by (nonlinear_arith)
                requires
                    ws.len() >= 1,
            ;
        }
    }
}

/// The budget law of the table transform: whenever a table is
/// redistributed (the overflow branch ran) and the floor demand fits
/// in the budget, the final column widths together with one styling
/// cell per column fit the target width.
pub proof fn theorem_table_budget(ws: Seq<u16>, sorted: Seq<(usize, u16)>, width: u16, cc: nat)
    requires
        cc >= 1,
        width as nat >= cc,
        ws.len() == cc,
        ({
            let threshold = ((width as int - cc) / (cc as int)) as nat;
            let ovf = spec_overflowing(ws, threshold);
            let ovf_sum = sum_pairs(ovf);
            let non_ovf = sum_widths(ws) - ovf_sum;
            let b0: nat = if width as int >= non_ovf + cc {
                (width as int - non_ovf - cc) as nat
            } else {
                0
            };
            &&& lex_sorted_perm(sorted, ovf)
            &&& ovf.len() > 0
            &&& (b0 >= 2 * ovf.len() || ovf.len() <= b0)
        }),
    ensures
        ({
            let threshold = ((width as int - cc) / (cc as int)) as nat;
            let ovf = spec_overflowing(ws, threshold);
            let ovf_sum = sum_pairs(ovf);
            let non_ovf = sum_widths(ws) - ovf_sum;
            let b0: nat = if width as int >= non_ovf + cc {
                (width as int - non_ovf - cc) as nat
            } else {
                0
            };
            let minw: nat = if ovf.len() > 0 && b0 / (2 * ovf.len()) > 1 {
                b0 / (2 * ovf.len())
            } else {
                1
            };
            sum_widths(spec_balance(sorted, ws, ovf_sum, b0, minw)) + cc <= width as nat
        }),
{
    broadcast use vstd::seq_lib::group_to_multiset_ensures;

    let threshold = ((width as int - cc) / (cc as int)) as nat;
    let pred = |p: (usize, u16)| p.1 > threshold;
    let base = Seq::new(ws.len(), |i: int| (i as usize, ws[i]));
    let ovf = spec_overflowing(ws, threshold);
    let ovf_sum = sum_pairs(ovf);
    let k = ovf.len();
    // every sorted pair is an overflow pair, hence a (column, width)
    // pair of the table
    assert forall|i: int| 0 <= i < sorted.len() implies {
        &&& (#[trigger] sorted[i]).0 < ws.len()
        &&& ws[sorted[i].0 as int] == sorted[i].1
        &&& sorted[i].1 >= 1
    } by {
        assert(sorted.contains(sorted[i]));
        assert(sorted.to_multiset().count(sorted[i]) > 0);
        assert(ovf.contains(sorted[i]));
        let q = choose|q: int| 0 <= q < ovf.len() && ovf[q] == sorted[i];
        assert(ovf == base.filter(pred));
        base.lemma_filter_pred(pred, q);
        lemma_filter_elem(base, pred, q);
        let p = choose|p: int| 0 <= p < base.len() && base[p] == ovf[q];
        assert(base[p] == (p as usize, ws[p]));
    }
    assert forall|i: int, j: int| 0 <= i < j < sorted.len() implies (#[trigger] sorted[i]).0 != (
    #[trigger] sorted[j]).0 by {
        if sorted[i].0 == sorted[j].0 {
            assert(ws[sorted[i].0 as int] == sorted[i].1);
            assert(ws[sorted[j].0 as int] == sorted[j].1);
            assert(sorted[i].1 == sorted[j].1);
            assert(sorted[i].0 < sorted[j].0);
        }
    }
    assert(pairs_wf(sorted, ws));
    sorted.to_multiset();
    lemma_sum_pairs_perm(sorted, ovf);
    assert(sorted.len() == k) by {
        assert(sorted.to_multiset().len() == sorted.len());
        assert(ovf.to_multiset().len() == ovf.len());
    }
    lemma_ovf_split(ws, threshold);
    let non_ovf = sum_widths(ws) - ovf_sum;
    assert(non_ovf + cc <= width as nat) by {
        assert(non_ovf <= ws.len() * threshold);
        assert((cc as int) * threshold <= width - cc) by {
            vstd::arithmetic::div_mod::lemma_fundamental_div_mod(width as int - cc, cc as int);
            vstd::arithmetic::div_mod::lemma_mod_bound(width as int - cc, cc as int);
            assert((cc as int) * ((width as int - cc) / (cc as int)) <= width as int - cc);
        }
    }
    let b0: nat = (width as int - non_ovf - cc) as nat;
    let minw: nat = if k > 0 && b0 / (2 * k) > 1 {
        b0 / (2 * k)
    } else {
        1
    };
    assert(minw * k <= b0) by {
        if k > 0 && b0 / (2 * k) > 1 {
            vstd::arithmetic::div_mod::lemma_fundamental_div_mod(b0 as int, 2 * k as int);
            vstd::arithmetic::div_mod::lemma_mod_bound(b0 as int, 2 * k as int);
            assert((2 * (k as int)) * (b0 as int / (2 * (k as int))) <= b0 as int);
            assert(minw * k <= minw * (2 * k)) by (nonlinear_arith)
                requires
                    k >= 1,
                    minw >= 0,
            ;
            assert((minw as int) * (2 * (k as int)) == (2 * (k as int)) * (minw as int))
                by (nonlinear_arith);
        } else {
            assert(minw == 1);
            if b0 >= 2 * k {
                assert(1 * k <= b0) by (nonlinear_arith)
                    requires
                        b0 >= 2 * k,
                        k >= 0,
                ;
            } else {
                assert(k <= b0);
                assert(1 * k <= b0) by (nonlinear_arith)
                    requires
                        k <= b0,
                ;
            }
        }
    }
    assert(b0 <= 0xFFFF);
    lemma_balance_bound(sorted, ws, ovf_sum, b0, minw);
}


/// One cell's width, cut off above the tag range: the exact width
/// when it fits a width tag, and a sentinel just above the range when
/// it does not.
fn cell_width_capped(cell: &Vec<Word>) -> (r: usize)
    requires
        forall|j: int| 0 <= j < cell@.len() ==> (#[trigger] cell@[j])@.content.len()
            <= MAX_TEXT_LEN,
    ensures
        r <= 0xFFFF ==> r == cell_width(line_view(cell@)),
        r > 0xFFFF ==> r == 0x10000 && cell_width(line_view(cell@)) > 0xFFFF,
{
    let ghost lv = line_view(cell@);
    let mut sum: usize = 0;
    let mut j: usize = 0;
    proof {
        assert(lv.take(0) =~= Seq::<WordM>::empty());
    }
    while j < cell.len()
        invariant
            0 <= j <= cell@.len(),
            lv == line_view(cell@),
            forall|q: int| 0 <= q < cell@.len() ==> (#[trigger] cell@[q])@.content.len()
                <= MAX_TEXT_LEN,
            sum == cell_width(lv.take(j as int)),
            sum <= 0xFFFF,
        decreases cell@.len() - j,
    {
        let w = display_width(cell[j].content());
        proof {
            lemma_cell_width_prefix(lv, j as int);
            assert(lv[j as int].content == cell@[j as int]@.content);
            lemma_cell_width_prefix(lv, j + 1);
        }
        sum = sum + w;
        if sum > 0xFFFF {
            proof {
                lemma_cell_width_prefix(lv, j + 1);
                assert(cell_width(lv.take(j + 1)) <= cell_width(lv));
            }
            return 0x10000;
        }
        j = j + 1;
    }
    proof {
        assert(lv.take(cell@.len() as int) =~= lv);
    }
    sum
}

/// Whether a table block's measured widths allow a layout pass at
/// `width`: a malformed table always passes (it degenerates); a
/// well-formed one needs its natural widths, plus one styling cell
/// per column, inside the width-tag range, and the width to cover the
/// styling cells.
pub fn table_fits_check(component: &TextComponent, width: u16) -> (ok: bool)
    requires
        wf_content(component.content@),
        component.content@.len() <= 0xFFFF,
    ensures
        ok == ({
            let cv = view_lines(component.content@);
            let cc = spec_col_count(component.meta_info@);
            let rows = if cc > 0 {
                component.content@.len() as int / cc as int
            } else {
                0
            };
            cc > 0 && (component.content@.len() as int) % (cc as int) == 0 ==> {
                &&& sum_nat_widths(cv, cc, 0, rows) + cc <= 0xFFFF
                &&& width as nat >= cc
            }
        }),
{
    let cc = count_columns(&component.meta_info);
    let n = component.content.len();
    let ghost cv = view_lines(component.content@);
    if cc == 0 || n % cc != 0 {
        return true;
    }
    if (width as usize) < cc {
        return false;
    }
    let rows = n / cc;
    let mut widths: Vec<u16> = Vec::new();
    let mut col: usize = 0;
    while col < cc
        invariant
            0 <= col <= cc,
            cc > 0,
            n == component.content@.len(),
            n <= 0xFFFF,
            n % cc == 0,
            rows == n / cc,
            cv == view_lines(component.content@),
            wf_content(component.content@),
            cc == spec_col_count(component.meta_info@),
            widths@.len() == col,
            forall|q: int| 0 <= q < col ==> (#[trigger] widths@[q]) as nat == spec_nat_width(
                cv,
                cc as nat,
                q,
                rows as int,
            ),
        decreases cc - col,
    {
        let mut best: usize = 0;
        let mut r: usize = 0;
        while r < rows
            invariant
                0 <= r <= rows,
                0 <= col < cc,
                n == component.content@.len(),
                rows == n / cc,
                n % cc == 0,
                cc > 0,
                cv == view_lines(component.content@),
                wf_content(component.content@),
                best == spec_nat_width(cv, cc as nat, col as int, r as int),
                best <= 0xFFFF,
            decreases rows - r,
        {
            proof {
                assert(r * cc + col < n) by (nonlinear_arith)
                    requires
                        0 <= r < rows,
                        0 <= col < cc,
                        rows == n / cc,
                        n % cc == 0,
                        cc > 0,
                        n >= 0,
                ;
            }
            let idx = r * cc + col;
            proof {
                assert(cv[idx as int] == line_view(component.content@[idx as int]@));
                assert(forall|j: int|
                    0 <= j < component.content@[idx as int]@.len()
                        ==> (#[trigger] component.content@[idx as int]@[j])@.content.len()
                        <= MAX_TEXT_LEN);
            }
            let cw = cell_width_capped(&component.content[idx]);
            if cw > 0xFFFF {
                proof {
                    assert(cell_width(cv[idx as int]) > 0xFFFF);
                    assert(spec_nat_width(cv, cc as nat, col as int, r + 1) > 0xFFFF);
                    lemma_nat_width_mono(cv, cc as nat, col as int, r + 1, rows as int);
                    lemma_nat_le_sum(cv, cc as nat, col as int, 0, rows as int);
                }
                return false;
            }
            if cw > best {
                best = cw;
            }
            r = r + 1;
        }
        widths.push(best as u16);
        col = col + 1;
    }
    // total natural width against the range
    let mut total: usize = 0;
    let mut q: usize = 0;
    proof {
        lemma_sum_split(cv, cc as nat, widths@, cc as int, rows as int);
    }
    while q < cc
        invariant
            0 <= q <= cc,
            widths@.len() == cc,
            cc > 0,
            cc <= width as usize,
            total == sum_widths_prefix(widths@, q as int),
            total <= 0xFFFF,
            sum_widths_prefix(widths@, cc as int) == sum_nat_widths(
                cv,
                cc as nat,
                0,
                rows as int,
            ),
        decreases cc - q,
    {
        proof {
            lemma_sum_widths_prefix_mono(widths@, q + 1, cc as int);
        }
        total = total + widths[q] as usize;
        if total > 0xFFFF {
            return false;
        }
        q = q + 1;
    }
    total + cc <= 0xFFFF as usize
}

} // verus!
