//! Width-dependent layout passes: re-wrap a block's content for a
//! display width and recompute its height.
use vstd::prelude::*;
use vstd::string::StringExecFns;

use crate::component::TextComponent;
use crate::component::TextNode;
use crate::component::flat_words;
use crate::component::flat_view;
use crate::component::flatten_content;
use crate::width::MAX_TEXT_LEN;
use crate::word::Word;
use crate::word::WordM;
use crate::word::WordType;
use crate::wrap::line_view;
use crate::wrap::spec_word_wrapping;
use crate::wrap::view_lines;
use crate::wrap::word_wrapping;

verus! {

/// Every word short enough for the layout arithmetic.
pub open spec fn wf_content(c: Seq<Vec<Word>>) -> bool {
    forall|l: int, j: int|
        0 <= l < c.len() && 0 <= j < c[l]@.len() ==> (#[trigger] c[l]@[j])@.content.len()
            <= MAX_TEXT_LEN
}

pub proof fn lemma_flat_wf(c: Seq<Vec<Word>>)
    requires
        wf_content(c),
    ensures
        forall|q: int| 0 <= q < flat_words(c).len() ==> (#[trigger] flat_words(c)[q])@.content.len()
            <= MAX_TEXT_LEN,
    decreases c.len(),
{
    if c.len() > 0 {
        let cp = c.drop_last();
        assert(wf_content(cp)) by {
            assert(forall|l: int| 0 <= l < cp.len() ==> #[trigger] cp[l] == c[l]);
        }
        lemma_flat_wf(cp);
        assert(forall|q: int|
            0 <= q < flat_words(c).len() ==> #[trigger] flat_words(c)[q] == (flat_words(cp)
                + c.last()@)[q]);
        assert(forall|j: int| 0 <= j < c.last()@.len() ==> (#[trigger] c.last()@[j])@.content.len()
            <= MAX_TEXT_LEN) by {
            assert(c.last() == c[c.len() - 1]);
        }
    }
}

/// The single-space word that continuation lines of a quote get.
pub open spec fn space_wm() -> WordM {
    WordM { content: seq![' '], kind: WordType::Normal, prev: None }
}

/// The wrapped lines of a quote, with a leading space on every line
/// from `skip` on.
pub open spec fn spec_prefix_lines(ls: Seq<Seq<WordM>>, skip: int) -> Seq<Seq<WordM>> {
    Seq::new(
        ls.len(),
        |i: int|
            if i >= skip {
                seq![space_wm()] + ls[i]
            } else {
                ls[i]
            },
    )
}

/// The width budget a paragraph-family block wraps at: the display
/// width less the block's decoration (one cell for a paragraph, four
/// for a task checkbox, two for a quote bar).
pub open spec fn paragraph_budget(kind: TextNode, width: nat) -> int {
    match kind {
        TextNode::Paragraph => width - 1,
        TextNode::Task => width - 4,
        _ => width - 2,
    }
}

/// The lines a paragraph, task or quote block lays out at `width`.
pub open spec fn spec_transform_paragraph(
    kind: TextNode,
    c: Seq<Vec<Word>>,
    meta_len: nat,
    width: nat,
) -> Seq<Seq<WordM>> {
    let wrapped = spec_word_wrapping(flat_view(c), paragraph_budget(kind, width) as nat, true);
    if kind is Quote {
        spec_prefix_lines(
            wrapped,
            if meta_len > 0 {
                1
            } else {
                0
            },
        )
    } else {
        wrapped
    }
}

/// Re-wrap a paragraph, task or quote block to the given width; quote
/// continuation lines are indented by one space.  The height becomes
/// the line count (when it fits the height field).
pub fn transform_paragraph(component: &mut TextComponent, width: u16)
    requires
        old(component).kind is Paragraph || old(component).kind is Task || old(
            component,
        ).kind is Quote,
        old(component).kind is Paragraph ==> width >= 2,
        old(component).kind is Task ==> width >= 5,
        old(component).kind is Quote ==> width >= 3,
        wf_content(old(component).content@),
    ensures
        final(component).kind == old(component).kind,
        final(component).meta_info == old(component).meta_info,
        final(component).offset == old(component).offset,
        final(component).scroll_offset == old(component).scroll_offset,
        final(component).focused == old(component).focused,
        final(component).focused_index == old(component).focused_index,
        view_lines(final(component).content@) == spec_transform_paragraph(
            old(component).kind,
            old(component).content@,
            old(component).meta_info@.len() as nat,
            width as nat,
        ),
        view_lines(final(component).content@).len() <= 0xFFFF ==> final(component).height
            == view_lines(final(component).content@).len(),
    {
    let flat = flatten_content(&component.content);
    let w2: usize = match component.kind {
        TextNode::Paragraph => width as usize - 1,
        TextNode::Task => width as usize - 4,
        _ => width as usize - 2,
    };
    proof {
        lemma_flat_wf(component.content@);
        assert(forall|j: int| 0 <= j < flat@.len() ==> (#[trigger] flat@[j])@.content.len()
            <= MAX_TEXT_LEN);
    }
    let mut lines = word_wrapping(&flat, w2, true);
    proof {
        assert(crate::wrap::view_words(flat@) == flat_view(old(component).content@));
    }
    if matches!(component.kind, TextNode::Quote) {
        let is_special = component.meta_info.len() > 0;
        let skip: usize = if is_special {
            1
        } else {
            0
        };
        let ghost wrapped = view_lines(lines@);
        let mut i: usize = skip;
        proof {
            assert(forall|q: int|
                0 <= q < lines@.len() ==> line_view(#[trigger] lines@[q]@) == wrapped[q]);
        }
        while i < lines.len()
            invariant
                skip <= i <= lines@.len() || (skip > lines@.len() && i == skip),
                wrapped.len() == lines@.len(),
                skip <= 1,
                forall|q: int|
                    0 <= q < lines@.len() && (q < skip || q >= i) ==> line_view(
                        #[trigger] lines@[q]@,
                    ) == wrapped[q],
                forall|q: int|
                    skip <= q < i && q < lines@.len() ==> line_view(#[trigger] lines@[q]@)
                        == seq![space_wm()] + wrapped[q],
            decreases lines@.len() - i,
        {
            let mut row: Vec<Word> = Vec::new();
            lines.set_and_swap(i, &mut row);
            let ghost r0 = row@;
            let mut sp = String::new();
            crate::width::push_char(&mut sp, ' ');
            row.insert(0, Word::new(sp, WordType::Normal));
            lines.set_and_swap(i, &mut row);
            proof {
                assert(Seq::<char>::empty().push(' ') =~= seq![' ']);
                assert(line_view(lines@[i as int]@) =~= seq![space_wm()] + line_view(r0));
            }
            i = i + 1;
        }
        proof {
            assert(view_lines(lines@) =~= spec_prefix_lines(wrapped, skip as int));
        }
    }
    let h = lines.len();
    if h <= 0xFFFF {
        component.height = h as u16;
    } else {
        component.height = 0xFFFF;
    }
    component.content = lines;
}


/// The conditions under which a block can be laid out at `width`
/// without faulting: sane sizes, and enough room for the block's
/// decoration.
pub open spec fn spec_transformable(c: TextComponent, width: u16) -> bool {
    &&& wf_content(c.content@)
    &&& crate::list::wf_words(c.meta_info@)
    &&& c.content@.len() < 0xFFFF
    &&& flat_words(c.content@).len() < usize::MAX - 1
    &&& (c.kind is Paragraph ==> width >= 2)
    &&& (c.kind is Task ==> width >= 5)
    &&& (c.kind is Quote ==> width >= 3)
    &&& !(c.kind is Image)
    &&& (c.kind is Table ==> {
        let cv = view_lines(c.content@);
        let cc = crate::table::spec_col_count(c.meta_info@);
        let rows = if cc > 0 {
            c.content@.len() as int / cc as int
        } else {
            0
        };
        cc > 0 && (c.content@.len() as int) % (cc as int) == 0 ==> {
            &&& crate::table::sum_nat_widths(cv, cc, 0, rows) + cc <= 0xFFFF
            &&& width as nat >= cc
        }
    })
}

/// What a width-`width` layout pass does to a block, by its kind.
pub open spec fn spec_transformed(c0: TextComponent, c: TextComponent, width: u16) -> bool {
    &&& c.kind is Table == c0.kind is Table
    &&& c.meta_info == c0.meta_info
    &&& c.offset == c0.offset
    &&& c.scroll_offset == c0.scroll_offset
    &&& c.focused == c0.focused
    &&& c.focused_index == c0.focused_index
    &&& match c0.kind {
        TextNode::Paragraph | TextNode::Task | TextNode::Quote => {
            &&& c.kind == c0.kind
            &&& view_lines(c.content@) == spec_transform_paragraph(
                c0.kind,
                c0.content@,
                c0.meta_info@.len() as nat,
                width as nat,
            )
            &&& (view_lines(c.content@).len() <= 0xFFFF ==> c.height == view_lines(
                c.content@,
            ).len())
        },
        TextNode::List => {
            &&& c.kind == c0.kind
            &&& view_lines(c.content@) == crate::list::spec_transform_list(
                c0.content@,
                c0.meta_info@,
                width as nat,
            )
            &&& (view_lines(c.content@).len() <= 0xFFFF ==> c.height == view_lines(
                c.content@,
            ).len())
        },
        TextNode::CodeBlock => {
            &&& c.kind == c0.kind
            &&& ({
                let with_lead = if c0.meta_info@.len() == 0 {
                    view_lines(c0.content@).insert(
                        0,
                        seq![
                            WordM {
                                content: Seq::empty(),
                                kind: WordType::CodeBlock(crate::word::CodeColor::Reset),
                                prev: None,
                            },
                        ],
                    )
                } else {
                    view_lines(c0.content@)
                };
                view_lines(c.content@) == with_lead && c.height == with_lead.len()
            })
        },
        TextNode::LineBreak | TextNode::Heading | TextNode::HorizontalSeparator => {
            &&& c.kind == c0.kind
            &&& c.content == c0.content
            &&& c.height == 1
        },
        TextNode::Footnote => {
            &&& c.kind == c0.kind
            &&& c.content == c0.content
            &&& c.height == 0
        },
        TextNode::Image => false,
        TextNode::Table(w0, h0) => {
            let cv = view_lines(c0.content@);
            let cc = crate::table::spec_col_count(c0.meta_info@);
            let n = c0.content@.len() as int;
            let rows = if cc > 0 {
                n / cc as int
            } else {
                0
            };
            let widths = Seq::new(cc, |col: int| crate::table::spec_nat_width(cv, cc, col, rows) as u16);
            if cc == 0 || n % (cc as int) != 0 {
                &&& c.kind matches TextNode::Table(w, h) && w@.len() == 0 && h@.len() == 0
                &&& c.height == 1
                &&& c.content == c0.content
            } else if width as nat >= crate::table::sum_nat_widths(cv, cc, 0, rows) + cc {
                &&& c.kind matches TextNode::Table(w, h) && w@ == widths && h@ == Seq::new(
                    rows as nat,
                    |r: int| 1u16,
                )
                &&& c.height == rows
                &&& c.content == c0.content
            } else {
                exists|sorted: Seq<(usize, u16)>|
                    #![trigger sorted.len()]
                    {
                        let threshold = ((width as int - cc) / (cc as int)) as nat;
                        let ovf = crate::table::spec_overflowing(widths, threshold);
                        let ovf_sum = crate::table::sum_pairs(ovf);
                        let non_ovf = (crate::table::sum_nat_widths(cv, cc, 0, rows)
                            - ovf_sum) as nat;
                        let b0: nat = if width as nat >= non_ovf + cc {
                            (width as nat - non_ovf - cc) as nat
                        } else {
                            0
                        };
                        let minw: nat = if ovf.len() > 0 && b0 / (2 * ovf.len()) > 1 {
                            b0 / (2 * ovf.len())
                        } else {
                            1
                        };
                        let wb = crate::table::spec_balance(sorted, widths, ovf_sum, b0, minw);
                        let heights = Seq::new(
                            rows as nat,
                            |r: int| crate::table::spec_row_height(cv, cc, wb, r, 0) as u16,
                        );
                        &&& crate::table::lex_sorted_perm(sorted, ovf)
                        &&& c.kind matches TextNode::Table(w, h) && w@ == wb && h@ == heights
                        &&& c.height == crate::table::sat_sum_heights(heights)
                        &&& view_lines(c.content@) == Seq::new(
                            cv.len(),
                            |idx: int|
                                crate::table::spec_rewrap_cell(
                                    cv[idx],
                                    wb[idx % (cc as int)] as nat,
                                ),
                        )
                    }
            }
        },
    }
}

impl TextComponent {
    /// Lay the block out for the given display width: wrap, renumber,
    /// balance or re-split according to its kind, and recompute its
    /// height.  A code block takes the unhighlighted path here;
    /// callers with a highlighter use `transform_codeblock`.
    pub fn transform(&mut self, width: u16)
        requires
            spec_transformable(*old(self), width),
        ensures
            spec_transformed(*old(self), *final(self), width),
    {
        match &self.kind {
            TextNode::List => {
                crate::list::transform_list(self, width);
            },
            TextNode::CodeBlock => {
                self.transform_codeblock(crate::codeblock::HighlightInfo::Unhighlighted);
            },
            TextNode::Paragraph | TextNode::Task | TextNode::Quote => {
                transform_paragraph(self, width);
            },
            TextNode::LineBreak | TextNode::Heading => {
                self.height = 1;
            },
            TextNode::Table(_, _) => {
                crate::table::transform_table(self, width);
            },
            TextNode::HorizontalSeparator => {
                self.height = 1;
            },
            TextNode::Footnote => {
                self.height = 0;
            },
            TextNode::Image => {
                proof {
                    assert(false);
                }
            },
        }
    }
}


impl TextComponent {
    /// Whether a layout pass at `width` is admissible for this block,
    /// checked entirely at run time: every word short enough to
    /// measure, sane line and word counts, room for the kind's
    /// decoration, no media block, and for a table the measured
    /// natural widths inside the width-tag range.
    pub fn transform_check(&self, width: u16) -> (ok: bool)
        ensures
            ok == spec_transformable(*self, width),
    {
        // the metadata words
        let mut i: usize = 0;
        while i < self.meta_info.len()
            invariant
                0 <= i <= self.meta_info@.len(),
                forall|j: int| 0 <= j < i ==> (#[trigger] self.meta_info@[j])@.content.len()
                    <= MAX_TEXT_LEN,
            decreases self.meta_info@.len() - i,
        {
            if self.meta_info[i].content().unicode_len() > MAX_TEXT_LEN {
                return false;
            }
            i = i + 1;
        }
        proof {
            assert(crate::list::wf_words(self.meta_info@));
        }
        // the content words, counting the flat total as we go
        if self.content.len() >= 0xFFFF {
            return false;
        }
        let mut flat_total: usize = 0;
        let mut l: usize = 0;
        let n = self.content.len();
        proof {
            assert(self.content@.take(0) =~= Seq::<Vec<Word>>::empty());
        }
        while l < n
            invariant
                0 <= l <= n,
                n == self.content@.len(),
                forall|u: int, j: int|
                    0 <= u < l && 0 <= j < self.content@[u]@.len()
                        ==> (#[trigger] self.content@[u]@[j])@.content.len() <= MAX_TEXT_LEN,
                flat_total == flat_words(self.content@.take(l as int)).len(),
                flat_total < usize::MAX - 1,
            decreases n - l,
        {
            let row = &self.content[l];
            let mut j: usize = 0;
            while j < row.len()
                invariant
                    0 <= j <= row@.len(),
                    row@ == self.content@[l as int]@,
                    forall|q: int| 0 <= q < j ==> (#[trigger] row@[q])@.content.len()
                        <= MAX_TEXT_LEN,
                decreases row@.len() - j,
            {
                if row[j].content().unicode_len() > MAX_TEXT_LEN {
                    return false;
                }
                j = j + 1;
            }
            proof {
                crate::component::lemma_flat_line(self.content@, l as int);
            }
            if row.len() >= usize::MAX - 1 - flat_total {
                proof {
                    crate::component::lemma_flat_base_mono(self.content@, l + 1, n as int);
                    assert(self.content@.take(n as int) =~= self.content@);
                }
                return false;
            }
            flat_total = flat_total + row.len();
            l = l + 1;
        }
        proof {
            assert(self.content@.take(n as int) =~= self.content@);
            assert(wf_content(self.content@));
        }
        // the kind's own demands
        match &self.kind {
            TextNode::Image => false,
            TextNode::Paragraph => width >= 2,
            TextNode::Task => width >= 5,
            TextNode::Quote => width >= 3,
            TextNode::Table(_, _) => crate::table::table_fits_check(self, width),
            _ => true,
        }
    }

    /// Measure first, then lay out: run the layout pass only when
    /// `transform_check` admits it, and report whether it ran.
    pub fn try_transform(&mut self, width: u16) -> (ok: bool)
        ensures
            ok == spec_transformable(*old(self), width),
            ok ==> spec_transformed(*old(self), *final(self), width),
            !ok ==> *final(self) == *old(self),
    {
        if !self.transform_check(width) {
            return false;
        }
        self.transform(width);
        true
    }
}

} // verus!
