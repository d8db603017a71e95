//! One structural unit of a document: a block of lines of words with a
//! kind, a non-rendered metadata side channel, and layout state.
use vstd::prelude::*;
use vstd::string::StrSliceExecFns;

use crate::word::Word;
use crate::word::WordM;
use crate::word::WordType;
use crate::word::spec_is_renderable;
use crate::wrap::line_view;
use crate::wrap::view_lines;
use crate::width::is_blank;
use crate::width::spec_is_blank;

verus! {

/// The kind of a block.  A `Table` carries its per-column widths and
/// per-row heights once a transform has computed them.
#[derive(Debug)]
pub enum TextNode {
    Image,
    Paragraph,
    LineBreak,
    Heading,
    Task,
    List,
    Footnote,
    Table(Vec<u16>, Vec<u16>),
    CodeBlock,
    Quote,
    HorizontalSeparator,
}

/// Structural equality of two block kinds; table tags compare their
/// width and height lists by value.
pub open spec fn spec_textnode_eq(a: TextNode, b: TextNode) -> bool {
    match (a, b) {
        (TextNode::Image, TextNode::Image) => true,
        (TextNode::Paragraph, TextNode::Paragraph) => true,
        (TextNode::LineBreak, TextNode::LineBreak) => true,
        (TextNode::Heading, TextNode::Heading) => true,
        (TextNode::Task, TextNode::Task) => true,
        (TextNode::List, TextNode::List) => true,
        (TextNode::Footnote, TextNode::Footnote) => true,
        (TextNode::Table(aw, ah), TextNode::Table(bw, bh)) => aw@ == bw@ && ah@ == bh@,
        (TextNode::CodeBlock, TextNode::CodeBlock) => true,
        (TextNode::Quote, TextNode::Quote) => true,
        (TextNode::HorizontalSeparator, TextNode::HorizontalSeparator) => true,
        _ => false,
    }
}

fn vec_u16_eq(a: &Vec<u16>, b: &Vec<u16>) -> (r: bool)
    ensures
        r == (a@ == b@),
{
    if a.len() != b.len() {
        return false;
    }
    let mut i: usize = 0;
    while i < a.len()
        invariant
            0 <= i <= a@.len(),
            a@.len() == b@.len(),
            forall|j: int| 0 <= j < i ==> a@[j] == b@[j],
        decreases a@.len() - i,
    {
        if a[i] != b[i] {
            return false;
        }
        i = i + 1;
    }
    proof {
        assert(a@ =~= b@);
    }
    true
}

impl PartialEq for TextNode {
    fn eq(&self, other: &Self) -> (r: bool) {
        match (self, other) {
            (TextNode::Image, TextNode::Image) => true,
            (TextNode::Paragraph, TextNode::Paragraph) => true,
            (TextNode::LineBreak, TextNode::LineBreak) => true,
            (TextNode::Heading, TextNode::Heading) => true,
            (TextNode::Task, TextNode::Task) => true,
            (TextNode::List, TextNode::List) => true,
            (TextNode::Footnote, TextNode::Footnote) => true,
            (TextNode::Table(aw, ah), TextNode::Table(bw, bh)) => {
                vec_u16_eq(aw, bw) && vec_u16_eq(ah, bh)
            },
            (TextNode::CodeBlock, TextNode::CodeBlock) => true,
            (TextNode::Quote, TextNode::Quote) => true,
            (TextNode::HorizontalSeparator, TextNode::HorizontalSeparator) => true,
            _ => false,
        }
    }
}

impl vstd::std_specs::cmp::PartialEqSpecImpl for TextNode {
    open spec fn obeys_eq_spec() -> bool {
        true
    }

    open spec fn eq_spec(&self, other: &TextNode) -> bool {
        spec_textnode_eq(*self, *other)
    }
}

impl Clone for TextNode {
    fn clone(&self) -> (r: Self)
        ensures
            spec_textnode_eq(r, *self),
    {
        match self {
            TextNode::Image => TextNode::Image,
            TextNode::Paragraph => TextNode::Paragraph,
            TextNode::LineBreak => TextNode::LineBreak,
            TextNode::Heading => TextNode::Heading,
            TextNode::Task => TextNode::Task,
            TextNode::List => TextNode::List,
            TextNode::Footnote => TextNode::Footnote,
            TextNode::Table(w, h) => {
                let w2 = clone_vec_u16(w);
                let h2 = clone_vec_u16(h);
                TextNode::Table(w2, h2)
            },
            TextNode::CodeBlock => TextNode::CodeBlock,
            TextNode::Quote => TextNode::Quote,
            TextNode::HorizontalSeparator => TextNode::HorizontalSeparator,
        }
    }
}

fn clone_vec_u16(v: &Vec<u16>) -> (r: Vec<u16>)
    ensures
        r@ == v@,
{
    let mut r: Vec<u16> = Vec::new();
    let mut i: usize = 0;
    while i < v.len()
        invariant
            0 <= i <= v@.len(),
            r@ == v@.take(i as int),
        decreases v@.len() - i,
    {
        r.push(v[i]);
        proof {
            assert(v@.take(i + 1) =~= v@.take(i as int).push(v@[i as int]));
        }
        i = i + 1;
    }
    proof {
        assert(v@.take(v@.len() as int) =~= v@);
    }
    r
}

/// A word belongs to the metadata side channel: it is not renderable,
/// or it is a footnote-reference marker (renderable, but duplicated
/// into the side channel for link navigation).
pub open spec fn is_meta_word(w: Word) -> bool {
    !spec_is_renderable(w@.kind) || w@.kind == WordType::FootnoteInline
}

/// A word that belongs to the rendered content.
pub open spec fn is_renderable_word(w: Word) -> bool {
    spec_is_renderable(w@.kind)
}

/// A metadata entry that stands for a followable link: a link target
/// or a footnote reference.
pub open spec fn is_link_meta(w: Word) -> bool {
    w@.kind == WordType::LinkData || w@.kind == WordType::FootnoteInline
}

/// One block of the document.  `content` holds the renderable words,
/// line by line; `meta_info` the side channel.  `height` is only valid
/// after a transform at the current width.
#[derive(Debug, Clone)]
pub struct TextComponent {
    pub kind: TextNode,
    pub content: Vec<Vec<Word>>,
    pub meta_info: Vec<Word>,
    pub height: u16,
    pub offset: u16,
    pub scroll_offset: u16,
    pub focused: bool,
    pub focused_index: usize,
}

/// The image of a block's content: its lines of word images.
pub open spec fn content_view(c: Seq<Vec<Word>>) -> Seq<Seq<WordM>> {
    view_lines(c)
}

/// Which word filter to apply when building a block.
enum WordFilter {
    Meta,
    Renderable,
}

impl WordFilter {
    spec fn pred(self) -> spec_fn(Word) -> bool {
        match self {
            WordFilter::Meta => |w: Word| is_meta_word(w),
            WordFilter::Renderable => |w: Word| is_renderable_word(w),
        }
    }
}

/// The words of `words` that the chosen filter keeps, in order.
fn filter_words(words: &Vec<Word>, which: WordFilter) -> (r: Vec<Word>)
    ensures
        r@ == words@.filter(which.pred()),
{
    let mut r: Vec<Word> = Vec::new();
    let mut i: usize = 0;
    proof {
        reveal(Seq::filter);
        assert(words@.take(0) =~= Seq::<Word>::empty());
        assert(words@.take(0).filter(which.pred()) =~= Seq::<Word>::empty());
    }
    while i < words.len()
        invariant
            0 <= i <= words@.len(),
            r@ == words@.take(i as int).filter(which.pred()),
        decreases words@.len() - i,
    {
        let w = &words[i];
        let keep = match which {
            WordFilter::Meta => !w.is_renderable() || matches!(
                w.kind(),
                WordType::FootnoteInline,
            ),
            WordFilter::Renderable => w.is_renderable(),
        };
        if keep {
            r.push(w.clone());
        }
        proof {
            reveal(Seq::filter);
            assert(words@.take(i + 1).drop_last() =~= words@.take(i as int));
            assert(words@.take(i + 1).last() == words@[i as int]);
            assert(keep == which.pred()(words@[i as int]));
        }
        i = i + 1;
    }
    proof {
        assert(words@.take(words@.len() as int) =~= words@);
    }
    r
}

impl TextComponent {
    /// Build a block from a flat token list: metadata goes to the side
    /// channel, renderable words become one unsplit line.
    pub fn new(kind: TextNode, content: Vec<Word>) -> (r: Self)
        ensures
            r.kind == kind,
            r.meta_info@ == content@.filter(|w: Word| is_meta_word(w)),
            r.content@.len() == 1,
            r.content@[0]@ == content@.filter(|w: Word| is_renderable_word(w)),
            r.height == 0,
            r.offset == 0,
            r.scroll_offset == 0,
            !r.focused,
            r.focused_index == 0,
    {
        let meta_info = filter_words(&content, WordFilter::Meta);
        let rendered = filter_words(&content, WordFilter::Renderable);
        let mut lines: Vec<Vec<Word>> = Vec::new();
        lines.push(rendered);
        Self {
            kind,
            content: lines,
            meta_info,
            height: 0,
            offset: 0,
            scroll_offset: 0,
            focused: false,
            focused_index: 0,
        }
    }

    /// Build a block from already-line-split input.  Metadata from all
    /// lines goes to the side channel (footnote-reference markers both
    /// stay renderable and are duplicated there); lines left empty
    /// after the metadata is removed are dropped, and the height is
    /// the number of remaining lines.
    pub fn new_formatted(kind: TextNode, content: Vec<Vec<Word>>) -> (r: Self)
        requires
            content@.len() <= 0xFFFF,
        ensures
            r.kind == kind,
            r.meta_info@ == flat_words(content@).filter(|w: Word| is_meta_word(w)),
            content_view(r.content@) == content@.map_values(
                |l: Vec<Word>| l@.filter(|w: Word| is_renderable_word(w)),
            ).filter(|l: Seq<Word>| l.len() > 0).map_values(|l: Seq<Word>| line_view(l)),
            r.height == content_view(r.content@).len(),
            r.offset == 0,
            r.scroll_offset == 0,
            !r.focused,
            r.focused_index == 0,
    {
        let ghost rend = |w: Word| is_renderable_word(w);
        let ghost keep_line = |l: Seq<Word>| l.len() > 0;
        let mut meta_info: Vec<Word> = Vec::new();
        let mut lines: Vec<Vec<Word>> = Vec::new();
        let mut i: usize = 0;
        proof {
            reveal(Seq::filter);
            assert(content@.take(0) =~= Seq::<Vec<Word>>::empty());
            assert(flat_words(content@.take(0)) =~= Seq::<Word>::empty());
        }
        while i < content.len()
            invariant
                0 <= i <= content@.len(),
                content@.len() <= 0xFFFF,
                meta_info@ == flat_words(content@.take(i as int)).filter(
                    |w: Word| is_meta_word(w),
                ),
                content_view(lines@) == content@.take(i as int).map_values(
                    |l: Vec<Word>| l@.filter(|w: Word| is_renderable_word(w)),
                ).filter(|l: Seq<Word>| l.len() > 0).map_values(|l: Seq<Word>| line_view(l)),
                lines@.len() <= i,
            decreases content@.len() - i,
        {
            let row = &content[i];
            let kept = filter_words(row, WordFilter::Renderable);
            let dropped = filter_words(row, WordFilter::Meta);
            let ghost meta0 = meta_info@;
            let ghost lines0 = lines@;
            let ghost keptv = kept;
            let mut dropped = dropped;
            meta_info.append(&mut dropped);
            if kept.len() > 0 {
                lines.push(kept);
            }
            proof {
                lemma_flat_words_snoc(content@.take(i as int), content@[i as int]);
                assert(content@.take(i + 1) =~= content@.take(i as int).push(content@[i as int]));
                lemma_filter_concat(
                    flat_words(content@.take(i as int)),
                    content@[i as int]@,
                    |w: Word| is_meta_word(w),
                );
                assert(meta_info@ =~= flat_words(content@.take(i + 1)).filter(
                    |w: Word| is_meta_word(w),
                ));
                lemma_map_filter_map_snoc(content@.take(i as int), content@[i as int], lines0);
                if keptv@.len() > 0 {
                    crate::wrap::lemma_view_lines_push(lines0, keptv);
                    assert(line_view(keptv@) == line_view(
                        content@[i as int]@.filter(|w: Word| is_renderable_word(w)),
                    ));
                }
            }
            i = i + 1;
        }
        proof {
            assert(content@.take(content@.len() as int) =~= content@);
        }
        let height16 = lines.len() as u16;
        Self {
            kind,
            height: height16,
            meta_info,
            content: lines,
            offset: 0,
            scroll_offset: 0,
            focused: false,
            focused_index: 0,
        }
    }

    pub fn kind(&self) -> (r: TextNode)
        ensures
            spec_textnode_eq(r, self.kind),
    {
        self.kind.clone()
    }

    /// True iff this is a list block whose metadata holds an indent
    /// marker: a word of white space only, but not empty.
    pub fn is_indented_list(&self) -> (r: bool)
        ensures
            r == spec_is_indented_list(self.kind, self.meta_info@),
    {
        if !(matches!(self.kind, TextNode::List)) {
            return false;
        }
        let mut i: usize = 0;
        while i < self.meta_info.len()
            invariant
                0 <= i <= self.meta_info@.len(),
                forall|j: int| 0 <= j < i ==> !spec_is_blank(#[trigger] self.meta_info@[j]@.content),
            decreases self.meta_info@.len() - i,
        {
            if is_blank(self.meta_info[i].content()) {
                proof {
                    lemma_first_blank(self.meta_info@, i as int);
                }
                return self.meta_info[i].content().unicode_len() > 0;
            }
            i = i + 1;
        }
        proof {
            lemma_no_blank(self.meta_info@);
        }
        false
    }

    pub fn content(&self) -> (r: &Vec<Vec<Word>>)
        ensures
            r == self.content,
    {
        &self.content
    }

    pub fn meta_info(&self) -> (r: &Vec<Word>)
        ensures
            r == self.meta_info,
    {
        &self.meta_info
    }

    pub fn content_owned(self) -> (r: Vec<Vec<Word>>)
        ensures
            r == self.content,
    {
        self.content
    }

    pub fn height(&self) -> (r: u16)
        ensures
            r == self.height,
    {
        self.height
    }

    pub fn y_offset(&self) -> (r: u16)
        ensures
            r == self.offset,
    {
        self.offset
    }

    pub fn scroll_offset(&self) -> (r: u16)
        ensures
            r == self.scroll_offset,
    {
        self.scroll_offset
    }

    pub fn set_y_offset(&mut self, y_offset: u16)
        ensures
            *final(self) == (TextComponent { offset: y_offset, ..*old(self) }),
    {
        self.offset = y_offset;
    }

    pub fn set_scroll_offset(&mut self, offset: u16)
        ensures
            *final(self) == (TextComponent { scroll_offset: offset, ..*old(self) }),
    {
        self.scroll_offset = offset;
    }

    pub fn is_focused(&self) -> (r: bool)
        ensures
            r == self.focused,
    {
        self.focused
    }
}

/// A list block is indented iff its first all-white-space metadata
/// word is non-empty.
pub open spec fn spec_is_indented_list(kind: TextNode, meta: Seq<Word>) -> bool {
    kind is List && first_blank_is_nonempty(meta)
}

pub open spec fn first_blank_is_nonempty(meta: Seq<Word>) -> bool
    decreases meta.len(),
{
    if meta.len() == 0 {
        false
    } else if spec_is_blank(meta[0]@.content) {
        meta[0]@.content.len() > 0
    } else {
        first_blank_is_nonempty(meta.skip(1))
    }
}

proof fn lemma_first_blank(meta: Seq<Word>, i: int)
    requires
        0 <= i < meta.len(),
        forall|j: int| 0 <= j < i ==> !spec_is_blank(#[trigger] meta[j]@.content),
        spec_is_blank(meta[i]@.content),
    ensures
        first_blank_is_nonempty(meta) == (meta[i]@.content.len() > 0),
    decreases i,
{
    if i > 0 {
        assert(forall|j: int| 0 <= j < i - 1 ==> meta.skip(1)[j] == meta[j + 1]);
        lemma_first_blank(meta.skip(1), i - 1);
    }
}

proof fn lemma_no_blank(meta: Seq<Word>)
    requires
        forall|j: int| 0 <= j < meta.len() ==> !spec_is_blank(#[trigger] meta[j]@.content),
    ensures
        !first_blank_is_nonempty(meta),
    decreases meta.len(),
{
    if meta.len() > 0 {
        assert(forall|j: int| 0 <= j < meta.skip(1).len() ==> meta.skip(1)[j] == meta[j + 1]);
        lemma_no_blank(meta.skip(1));
    }
}

/// All the words of the given lines, in order.
pub open spec fn flat_words(ls: Seq<Vec<Word>>) -> Seq<Word>
    decreases ls.len(),
{
    if ls.len() == 0 {
        Seq::empty()
    } else {
        flat_words(ls.drop_last()) + ls.last()@
    }
}

proof fn lemma_flat_words_snoc(ls: Seq<Vec<Word>>, l: Vec<Word>)
    ensures
        flat_words(ls.push(l)) == flat_words(ls) + l@,
{
    assert(ls.push(l).drop_last() =~= ls);
    assert(ls.push(l).last() == l);
}

proof fn lemma_filter_concat<T>(a: Seq<T>, b: Seq<T>, pred: spec_fn(T) -> bool)
    ensures
        (a + b).filter(pred) == a.filter(pred) + b.filter(pred),
    decreases b.len(),
{
    reveal(Seq::filter);
    if b.len() == 0 {
        assert(a + b =~= a);
        assert(b.filter(pred) =~= Seq::<T>::empty());
        assert(a.filter(pred) + b.filter(pred) =~= a.filter(pred));
    } else {
        lemma_filter_concat(a, b.drop_last(), pred);
        assert((a + b).drop_last() =~= a + b.drop_last());
        assert((a + b).last() == b.last());
        if pred(b.last()) {
            assert(a.filter(pred) + b.filter(pred) =~= (a.filter(pred) + b.drop_last().filter(
                pred,
            )).push(b.last()));
        } else {
            assert(a.filter(pred) + b.filter(pred) =~= a.filter(pred) + b.drop_last().filter(
                pred,
            ));
        }
    }
}

proof fn lemma_map_filter_map_snoc(done: Seq<Vec<Word>>, row: Vec<Word>, lines: Seq<Vec<Word>>)
    requires
        content_view(lines) == done.map_values(
            |l: Vec<Word>| l@.filter(|w: Word| is_renderable_word(w)),
        ).filter(|l: Seq<Word>| l.len() > 0).map_values(|l: Seq<Word>| line_view(l)),
    ensures
        ({
            let kept = row@.filter(|w: Word| is_renderable_word(w));
            let target = done.push(row).map_values(
                |l: Vec<Word>| l@.filter(|w: Word| is_renderable_word(w)),
            ).filter(|l: Seq<Word>| l.len() > 0).map_values(|l: Seq<Word>| line_view(l));
            if kept.len() > 0 {
                target == content_view(lines).push(line_view(kept))
            } else {
                target == content_view(lines)
            }
        }),
{
    reveal(Seq::filter);
    let fw = |l: Vec<Word>| l@.filter(|w: Word| is_renderable_word(w));
    let kl = |l: Seq<Word>| l.len() > 0;
    let lv = |l: Seq<Word>| line_view(l);
    let kept = row@.filter(|w: Word| is_renderable_word(w));
    assert(done.push(row).map_values(fw) =~= done.map_values(fw).push(kept));
    let mapped = done.map_values(fw);
    assert(mapped.push(kept).drop_last() =~= mapped);
    assert(mapped.push(kept).last() == kept);
    if kept.len() > 0 {
        assert(mapped.push(kept).filter(kl) =~= mapped.filter(kl).push(kept));
        assert(mapped.filter(kl).push(kept).map_values(lv) =~= mapped.filter(kl).map_values(
            lv,
        ).push(line_view(kept)));
    } else {
        assert(mapped.push(kept).filter(kl) =~= mapped.filter(kl));
    }
}


/// A word kind that takes part in a selectable link run.
pub open spec fn is_linkish(t: WordType) -> bool {
    t is Link || t is FootnoteInline
}

/// The image of all content words in reading order.
pub open spec fn flat_view(c: Seq<Vec<Word>>) -> Seq<WordM> {
    crate::wrap::view_words(flat_words(c))
}

/// Content splits at any line count: the flat words are the flat words
/// of the prefix followed by those of the suffix.
pub proof fn lemma_flat_split(c: Seq<Vec<Word>>, m: int)
    requires
        0 <= m <= c.len(),
    ensures
        flat_words(c) == flat_words(c.take(m)) + flat_words(c.skip(m)),
    decreases c.len(),
{
    if m == c.len() {
        assert(c.take(m) =~= c);
        assert(c.skip(m) =~= Seq::<Vec<Word>>::empty());
        assert(flat_words(c) + flat_words(c.skip(m)) =~= flat_words(c));
    } else {
        let cp = c.drop_last();
        lemma_flat_split(cp, m);
        assert(cp.take(m) =~= c.take(m));
        assert(c.skip(m) =~= cp.skip(m).push(c.last()));
        lemma_flat_words_snoc(cp.skip(m), c.last());
        assert(c =~= cp.push(c.last()));
        lemma_flat_words_snoc(cp, c.last());
        assert((flat_words(c.take(m)) + flat_words(cp.skip(m))) + c.last()@ =~= flat_words(
            c.take(m),
        ) + (flat_words(cp.skip(m)) + c.last()@));
    }
}

/// Where line `l` sits inside the flat word order.
pub proof fn lemma_flat_line(c: Seq<Vec<Word>>, l: int)
    requires
        0 <= l < c.len(),
    ensures
        flat_words(c.take(l + 1)).len() == flat_words(c.take(l)).len() + c[l]@.len(),
        flat_words(c.take(l)).len() + c[l]@.len() <= flat_words(c).len(),
        forall|j: int|
            0 <= j < c[l]@.len() ==> #[trigger] flat_words(c)[flat_words(c.take(l)).len() + j]
                == c[l]@[j],
{
    assert(c.take(l + 1) =~= c.take(l).push(c[l]));
    lemma_flat_words_snoc(c.take(l), c[l]);
    lemma_flat_split(c, l + 1);
    assert(forall|j: int|
        0 <= j < c[l]@.len() ==> #[trigger] flat_words(c)[flat_words(c.take(l)).len() + j]
            == (flat_words(c.take(l)) + c[l]@)[flat_words(c.take(l)).len() + j]);
}

/// How many link runs start in the first `upto` flat positions.  A run
/// starts at a link-like word not preceded by another.
pub open spec fn run_count(f: Seq<WordM>, upto: int) -> nat
    decreases upto,
{
    if upto <= 0 {
        0
    } else if upto > f.len() {
        run_count(f, f.len() as int)
    } else {
        run_count(f, upto - 1) + if is_linkish(f[upto - 1].kind) && (upto - 1 == 0 || !is_linkish(
            f[upto - 2].kind,
        )) {
            1nat
        } else {
            0nat
        }
    }
}

/// Word `p` belongs to run number `idx` (counted from zero).
pub open spec fn in_run(f: Seq<WordM>, p: int, idx: nat) -> bool {
    0 <= p < f.len() && is_linkish(f[p].kind) && run_count(f, p + 1) == idx + 1
}

/// The re-tag that selection applies to a word.
pub open spec fn selected_word(w: WordM) -> WordM {
    WordM { content: w.content, kind: WordType::Selected, prev: Some(w.kind) }
}

/// The flat content after selecting run `idx`: every word of that run
/// re-tagged, everything else untouched.
pub open spec fn spec_select_at(f: Seq<WordM>, idx: nat) -> Seq<WordM> {
    Seq::new(
        f.len(),
        |p: int|
            if in_run(f, p, idx) {
                selected_word(f[p])
            } else {
                f[p]
            },
    )
}

/// The un-tag that deselection applies: a selected word gets its saved
/// kind back (or keeps its own, lacking one) and the slot is emptied.
pub open spec fn deselected_word(w: WordM) -> WordM {
    if w.kind is Selected {
        WordM {
            content: w.content,
            kind: match w.prev {
                Some(t) => t,
                None => w.kind,
            },
            prev: None,
        }
    } else {
        w
    }
}

pub open spec fn spec_deselect_flat(f: Seq<WordM>) -> Seq<WordM> {
    Seq::new(f.len(), |p: int| deselected_word(f[p]))
}

/// Selecting a link run and deselecting again restores the content
/// exactly, from any untagged state: no word selected, no saved kind
/// pending.
pub proof fn theorem_select_then_deselect(f: Seq<WordM>, idx: nat)
    requires
        forall|p: int| 0 <= p < f.len() ==> !(#[trigger] f[p].kind is Selected),
        forall|p: int| 0 <= p < f.len() ==> (#[trigger] f[p].prev) is None,
    ensures
        spec_deselect_flat(spec_select_at(f, idx)) == f,
{
    let g = spec_select_at(f, idx);
    assert forall|p: int| 0 <= p < f.len() implies spec_deselect_flat(g)[p] == f[p] by {
        assert(!(f[p].kind is Selected));
        assert(f[p].prev is None);
        assert(spec_deselect_flat(g)[p] == deselected_word(g[p]));
        if in_run(f, p, idx) {
            assert(g[p] == selected_word(f[p]));
            assert(deselected_word(selected_word(f[p])) == f[p]);
        } else {
            assert(g[p] == f[p]);
        }
    }
    assert(spec_deselect_flat(g) =~= f);
}

impl TextComponent {
    /// How many followable links the block's metadata lists.
    pub fn num_links(&self) -> (r: usize)
        ensures
            r == self.meta_info@.filter(|w: Word| is_link_meta(w)).len(),
    {
        let ghost pred = |w: Word| is_link_meta(w);
        let mut count: usize = 0;
        let mut i: usize = 0;
        proof {
            reveal(Seq::filter);
            assert(self.meta_info@.take(0) =~= Seq::<Word>::empty());
            assert(self.meta_info@.take(0).filter(pred) =~= Seq::<Word>::empty());
        }
        while i < self.meta_info.len()
            invariant
                0 <= i <= self.meta_info@.len(),
                count == self.meta_info@.take(i as int).filter(|w: Word| is_link_meta(w)).len(),
                count <= i,
            decreases self.meta_info@.len() - i,
        {
            let k = self.meta_info[i].kind();
            if matches!(k, WordType::LinkData | WordType::FootnoteInline) {
                count = count + 1;
            }
            proof {
                reveal(Seq::filter);
                assert(self.meta_info@.take(i + 1).drop_last() =~= self.meta_info@.take(i as int));
                assert(self.meta_info@.take(i + 1).last() == self.meta_info@[i as int]);
                self.meta_info@.take(i + 1).drop_last().lemma_filter_len(
                    |w: Word| is_link_meta(w),
                );
            }
            i = i + 1;
        }
        proof {
            assert(self.meta_info@.take(self.meta_info@.len() as int) =~= self.meta_info@);
        }
        count
    }

    /// Drop focus and restore every selected word's saved kind.
    pub fn deselect(&mut self)
        ensures
            !final(self).focused,
            final(self).focused_index == 0,
            final(self).content@.len() == old(self).content@.len(),
            forall|l: int|
                0 <= l < old(self).content@.len()
                    ==> (#[trigger] final(self).content@[l])@.len()
                    == old(self).content@[l]@.len(),
            forall|l: int, j: int|
                0 <= l < old(self).content@.len() && 0 <= j < old(self).content@[l]@.len()
                    ==> (#[trigger] final(self).content@[l]@[j])@ == deselected_word(
                    old(self).content@[l]@[j]@,
                ),
            final(self).kind == old(self).kind,
            final(self).meta_info == old(self).meta_info,
            final(self).height == old(self).height,
            final(self).offset == old(self).offset,
            final(self).scroll_offset == old(self).scroll_offset,
    {
        self.focused = false;
        self.focused_index = 0;
        let ghost c0 = self.content@;
        proof {
            assert(c0 == old(self).content@);
        }
        let mut l: usize = 0;
        while l < self.content.len()
            invariant
                0 <= l <= c0.len(),
                c0 == old(self).content@,
                !self.focused,
                self.focused_index == 0,
                self.kind == old(self).kind,
                self.meta_info == old(self).meta_info,
                self.height == old(self).height,
                self.offset == old(self).offset,
                self.scroll_offset == old(self).scroll_offset,
                self.content@.len() == c0.len(),
                forall|u: int| l <= u < c0.len() ==> #[trigger] self.content@[u] == c0[u],
                forall|u: int| 0 <= u < l ==> (#[trigger] self.content@[u])@.len()
                    == c0[u]@.len(),
                forall|u: int, j: int|
                    0 <= u < l && 0 <= j < c0[u]@.len() ==> (#[trigger] self.content@[u]@[j])@
                        == deselected_word(c0[u]@[j]@),
            decreases c0.len() - l,
        {
            let mut row: Vec<Word> = Vec::new();
            self.content.set_and_swap(l, &mut row);
            let ghost r0 = row@;
            let mut j: usize = 0;
            while j < row.len()
                invariant
                    0 <= j <= r0.len(),
                    row@.len() == r0.len(),
                    forall|v: int| j <= v < r0.len() ==> #[trigger] row@[v] == r0[v],
                    forall|v: int| 0 <= v < j ==> (#[trigger] row@[v])@ == deselected_word(
                        r0[v]@,
                    ),
                decreases r0.len() - j,
            {
                if matches!(row[j].kind(), WordType::Selected) {
                    let mut w = row[j].clone();
                    w.clear_kind();
                    row.set(j, w);
                }
                j = j + 1;
            }
            self.content.set_and_swap(l, &mut row);
            l = l + 1;
        }
    }
}


/// Flat position at which line `l` of `c` begins.
pub open spec fn flat_base(c: Seq<Vec<Word>>, l: int) -> nat {
    flat_words(c.take(l)).len()
}

pub proof fn lemma_run_count_le(f: Seq<WordM>, upto: int)
    ensures
        run_count(f, upto) <= if upto <= 0 {
            0
        } else {
            upto as nat
        },
    decreases upto,
{
    if 0 < upto <= f.len() {
        lemma_run_count_le(f, upto - 1);
    } else if upto > f.len() {
        lemma_run_count_le(f, f.len() as int);
    }
}

/// Line bases never decrease along the document.
pub proof fn lemma_flat_base_mono(c: Seq<Vec<Word>>, a: int, b: int)
    requires
        0 <= a <= b <= c.len(),
    ensures
        flat_base(c, a) <= flat_base(c, b),
        a < b ==> flat_base(c, a) + c[a]@.len() <= flat_base(c, b),
    decreases b - a,
{
    if a < b {
        lemma_flat_line(c, b - 1);
        if a < b - 1 {
            lemma_flat_base_mono(c, a, b - 1);
        }
    }
}

/// A sequence of lines whose words match `g` position for position has
/// `g` as its flat image.
pub proof fn lemma_flat_pointwise(c1: Seq<Vec<Word>>, c2: Seq<Vec<Word>>, g: Seq<WordM>)
    requires
        c2.len() == c1.len(),
        g.len() == flat_words(c1).len(),
        forall|l: int| 0 <= l < c1.len() ==> (#[trigger] c2[l])@.len() == c1[l]@.len(),
        forall|l: int, j: int|
            0 <= l < c1.len() && 0 <= j < c1[l]@.len() ==> (#[trigger] c2[l]@[j])@ == g[flat_base(
                c1,
                l,
            ) + j],
    ensures
        flat_view(c2) == g,
    decreases c1.len(),
{
    if c1.len() == 0 {
        assert(flat_words(c2) =~= Seq::<Word>::empty());
        assert(flat_view(c2) =~= g);
    } else {
        let n = c1.len() as int;
        let c1p = c1.drop_last();
        let c2p = c2.drop_last();
        assert(c1.take(n - 1) =~= c1p);
        let base = flat_base(c1, n - 1);
        lemma_flat_words_snoc(c1p, c1.last());
        assert(c1 =~= c1p.push(c1.last()));
        assert(flat_words(c1) == flat_words(c1p) + c1.last()@);
        let gp = g.take(base as int);
        assert(gp.len() == flat_words(c1p).len());
        assert(forall|l: int| 0 <= l < c1p.len() ==> #[trigger] c1p[l] == c1[l]);
        assert(forall|l: int| 0 <= l < c2p.len() ==> #[trigger] c2p[l] == c2[l]);
        assert(forall|l: int| 0 <= l <= c1p.len() ==> #[trigger] c1p.take(l) =~= c1.take(l));
        assert(forall|l: int, j: int|
            0 <= l < c1p.len() && 0 <= j < c1p[l]@.len() ==> (#[trigger] c2p[l]@[j])@
                == gp[flat_base(c1p, l) + j]) by {
            assert forall|l: int, j: int|
                0 <= l < c1p.len() && 0 <= j < c1p[l]@.len() implies (#[trigger] c2p[l]@[j])@
                == gp[flat_base(c1p, l) + j] by {
                assert(c1p.take(l) =~= c1.take(l));
                lemma_flat_line(c1, l);
                lemma_flat_base_mono(c1, l + 1, n - 1);
                assert(flat_base(c1, l) + j < base);
                assert(gp[flat_base(c1p, l) + j] == g[flat_base(c1, l) + j]);
            }
        }
        lemma_flat_pointwise(c1p, c2p, gp);
        assert(c2 =~= c2p.push(c2.last()));
        lemma_flat_words_snoc(c2p, c2.last());
        assert(flat_words(c2) == flat_words(c2p) + c2.last()@);
        assert(flat_view(c2) =~= flat_view(c2p) + crate::wrap::view_words(c2.last()@));
        assert(crate::wrap::view_words(c2.last()@) =~= g.skip(base as int)) by {
            assert(c2.last() == c2[n - 1]);
            assert(c1.last() == c1[n - 1]);
            assert(c2.last()@.len() == c1.last()@.len());
            assert(g.skip(base as int).len() == c1.last()@.len());
            assert forall|j: int| 0 <= j < c2.last()@.len() implies crate::wrap::view_words(
                c2.last()@,
            )[j] == g.skip(base as int)[j] by {
                assert((c2[n - 1]@[j])@ == g[flat_base(c1, n - 1) + j]);
            }
        }
        assert(flat_view(c2) =~= g) by {
            assert(g =~= g.take(base as int) + g.skip(base as int));
        }
    }
}

/// The out-of-bounds message that link selection reports.
pub open spec fn select_err_msg(index: nat, n: nat) -> Seq<char> {
    "Index out of bounds: "@ + crate::width::spec_digits(index) + " >= "@
        + crate::width::spec_digits(n)
}

pub(crate) fn select_err_string(index: usize, n: usize) -> (r: String)
    ensures
        r@ == select_err_msg(index as nat, n as nat),
{
    let mut s = String::from_str("Index out of bounds: ");
    let a = crate::width::u64_to_string(index as u64);
    s.append(a.as_str());
    s.append(" >= ");
    let b = crate::width::u64_to_string(n as u64);
    s.append(b.as_str());
    proof {
        assert(s@ =~= select_err_msg(index as nat, n as nat));
    }
    s
}

impl TextComponent {
    /// Focus the block and re-tag the words of the `index`-th link run
    /// as selected.  Fails when `index` is not below the metadata link
    /// count, or when the content holds no run of that number; the
    /// content is untouched on either failure.
    pub fn visually_select(&mut self, index: usize) -> (r: Result<(), String>)
        requires
            flat_words(old(self).content@).len() < usize::MAX,
        ensures
            final(self).focused,
            final(self).focused_index == index,
            final(self).kind == old(self).kind,
            final(self).meta_info == old(self).meta_info,
            final(self).height == old(self).height,
            final(self).offset == old(self).offset,
            final(self).scroll_offset == old(self).scroll_offset,
            final(self).content@.len() == old(self).content@.len(),
            forall|l: int|
                0 <= l < old(self).content@.len()
                    ==> (#[trigger] final(self).content@[l])@.len()
                    == old(self).content@[l]@.len(),
            ({
                let links = old(self).meta_info@.filter(|w: Word| is_link_meta(w)).len();
                let f = flat_view(old(self).content@);
                let total_runs = run_count(f, f.len() as int);
                if index >= links {
                    (r matches Err(m) && m@ == select_err_msg(index as nat, links)
                        && final(self).content@ == old(self).content@)
                } else if index < total_runs {
                    (r is Ok && flat_view(final(self).content@) == spec_select_at(f, index as nat))
                } else {
                    (r matches Err(m) && m@ == "index out of bounds"@ && flat_view(
                        final(self).content@,
                    ) == f)
                }
            }),
    {
        self.focused = true;
        self.focused_index = index;
        let n_links = self.num_links();
        if index >= n_links {
            return Err(select_err_string(index, n_links));
        }
        let ghost c0 = self.content@;
        let ghost f = flat_view(c0);
        let ghost g = spec_select_at(f, index as nat);
        proof {
            assert(g.len() == f.len());
        }
        let mut runs: usize = 0;
        let mut prev_lk: bool = false;
        let mut l: usize = 0;
        while l < self.content.len()
            invariant
                0 <= l <= c0.len(),
                c0 == old(self).content@,
                f == flat_view(c0),
                g == spec_select_at(f, index as nat),
                f.len() == flat_words(c0).len(),
                f.len() < usize::MAX,
                self.focused,
                self.focused_index == index,
                self.kind == old(self).kind,
                self.meta_info == old(self).meta_info,
                self.height == old(self).height,
                self.offset == old(self).offset,
                self.scroll_offset == old(self).scroll_offset,
                self.content@.len() == c0.len(),
                runs == run_count(f, flat_base(c0, l as int) as int),
                runs <= flat_base(c0, l as int),
                flat_base(c0, l as int) <= f.len(),
                prev_lk == (flat_base(c0, l as int) > 0 && is_linkish(
                    f[flat_base(c0, l as int) - 1].kind,
                )),
                forall|u: int| l <= u < c0.len() ==> #[trigger] self.content@[u] == c0[u],
                forall|u: int| 0 <= u < l ==> (#[trigger] self.content@[u])@.len()
                    == c0[u]@.len(),
                forall|u: int, j: int|
                    0 <= u < l && 0 <= j < c0[u]@.len() ==> (#[trigger] self.content@[u]@[j])@
                        == g[flat_base(c0, u) + j],
            decreases c0.len() - l,
        {
            let mut row: Vec<Word> = Vec::new();
            self.content.set_and_swap(l, &mut row);
            let ghost r0 = row@;
            proof {
                assert(r0 == c0[l as int]@);
                lemma_flat_line(c0, l as int);
            }
            let ghost base = flat_base(c0, l as int);
            let mut j: usize = 0;
            while j < row.len()
                invariant
                    0 <= j <= r0.len(),
                    row@.len() == r0.len(),
                    r0 == c0[l as int]@,
                    0 <= l < c0.len(),
                    f == flat_view(c0),
                    g == spec_select_at(f, index as nat),
                    f.len() == flat_words(c0).len(),
                    f.len() < usize::MAX,
                    base == flat_base(c0, l as int),
                    base + r0.len() <= f.len(),
                    forall|q: int| 0 <= q < r0.len() ==> #[trigger] flat_words(c0)[base + q]
                        == r0[q],
                    runs == run_count(f, base + j),
                    runs <= base + j,
                    prev_lk == (base + j > 0 && is_linkish(f[base + j - 1].kind)),
                    forall|v: int| j <= v < r0.len() ==> #[trigger] row@[v] == r0[v],
                    forall|v: int| 0 <= v < j ==> (#[trigger] row@[v])@ == g[base + v],
                decreases r0.len() - j,
            {
                let ghost p = base + j;
                proof {
                    assert(flat_words(c0)[p as int] == r0[j as int]);
                    assert(f[p as int] == r0[j as int]@);
                }
                let k = row[j].kind();
                let lk = matches!(k, WordType::Link | WordType::FootnoteInline);
                if lk && !prev_lk {
                    runs = runs + 1;
                }
                proof {
                    assert(runs == run_count(f, p + 1));
                }
                if lk && runs == index + 1 {
                    let mut w = row[j].clone();
                    w.set_kind(WordType::Selected);
                    row.set(j, w);
                    proof {
                        assert(in_run(f, p as int, index as nat));
                        assert(g[p as int] == selected_word(f[p as int]));
                    }
                } else {
                    proof {
                        if lk {
                            assert(runs >= index + 2 || runs <= index);
                            assert(!in_run(f, p as int, index as nat));
                        } else {
                            assert(!in_run(f, p as int, index as nat));
                        }
                        assert(g[p as int] == f[p as int]);
                    }
                }
                prev_lk = lk;
                j = j + 1;
            }
            self.content.set_and_swap(l, &mut row);
            proof {
                assert(flat_base(c0, l + 1) == base + r0.len());
                assert(run_count(f, flat_base(c0, l + 1) as int) == run_count(f, (base + r0.len()) as int));
            }
            l = l + 1;
        }
        proof {
            assert(flat_base(c0, c0.len() as int) == f.len()) by {
                assert(c0.take(c0.len() as int) =~= c0);
            }
        }
        let found = runs > index;
        proof {
            if found {
                lemma_flat_pointwise(c0, self.content@, g);
            } else {
                assert forall|p: int| 0 <= p < f.len() implies g[p] == f[p] by {
                    lemma_run_count_le(f, p + 1);
                    assert(run_count(f, p + 1) <= run_count(f, f.len() as int)) by {
                        lemma_run_count_mono(f, p + 1, f.len() as int);
                    }
                    assert(!in_run(f, p as int, index as nat));
                }
                assert(g =~= f);
                lemma_flat_pointwise(c0, self.content@, g);
            }
        }
        if found {
            Ok(())
        } else {
            Err(String::from_str("index out of bounds"))
        }
    }
}

/// Run counts only grow with the scanned prefix.
pub proof fn lemma_run_count_mono(f: Seq<WordM>, a: int, b: int)
    requires
        a <= b,
    ensures
        run_count(f, a) <= run_count(f, b),
    decreases b - a,
{
    if a < b {
        lemma_run_count_mono(f, a, b - 1);
        if b > f.len() {
            if a <= f.len() {
                lemma_run_count_mono(f, a, f.len() as int);
            }
        }
    }
}


/// Clone all content words into one flat list, in reading order.
pub fn flatten_content(c: &Vec<Vec<Word>>) -> (r: Vec<Word>)
    ensures
        r@ == flat_words(c@),
{
    let mut r: Vec<Word> = Vec::new();
    let mut l: usize = 0;
    proof {
        assert(c@.take(0) =~= Seq::<Vec<Word>>::empty());
        assert(r@ =~= flat_words(c@.take(0)));
    }
    while l < c.len()
        invariant
            0 <= l <= c@.len(),
            r@ == flat_words(c@.take(l as int)),
        decreases c@.len() - l,
    {
        let row = &c[l];
        let mut j: usize = 0;
        while j < row.len()
            invariant
                0 <= j <= row@.len(),
                row@ == c@[l as int]@,
                0 <= l < c@.len(),
                r@ == flat_words(c@.take(l as int)) + row@.take(j as int),
            decreases row@.len() - j,
        {
            r.push(row[j].clone());
            proof {
                assert(row@.take(j + 1) =~= row@.take(j as int).push(row@[j as int]));
                assert(flat_words(c@.take(l as int)) + row@.take(j as int).push(
                    row@[j as int],
                ) =~= (flat_words(c@.take(l as int)) + row@.take(j as int)).push(
                    row@[j as int],
                ));
            }
            j = j + 1;
        }
        proof {
            assert(c@.take(l + 1) =~= c@.take(l as int).push(c@[l as int]));
            lemma_flat_words_snoc(c@.take(l as int), c@[l as int]);
            assert(row@.take(row@.len() as int) =~= row@);
        }
        l = l + 1;
    }
    proof {
        assert(c@.take(c@.len() as int) =~= c@);
    }
    r
}

/// The first flat position at which a footnote lookup stops skipping:
/// a footnote-definition word, or one whose text equals the key.
pub open spec fn footnote_start(f: Seq<WordM>, search: Seq<char>) -> nat
    decreases f.len(),
{
    if f.len() == 0 {
        0
    } else if f[0].kind is FootnoteData || f[0].content == search {
        0
    } else {
        1 + footnote_start(f.skip(1), search)
    }
}

/// How many words from `from` onward carry the footnote-body kind.
pub open spec fn footnote_take(f: Seq<WordM>, from: int) -> nat
    decreases f.len() - from,
{
    if from < 0 || from >= f.len() {
        0
    } else if f[from].kind is Footnote {
        1 + footnote_take(f, from + 1)
    } else {
        0
    }
}

/// The concatenated text of the words in `[a, b)`.
pub open spec fn contents_between(f: Seq<WordM>, a: int, b: int) -> Seq<char>
    decreases b - a,
{
    if a < 0 || a >= b || b > f.len() {
        Seq::empty()
    } else {
        f[a].content + contents_between(f, a + 1, b)
    }
}

impl TextComponent {
    /// The footnote text reachable from `search`: skip to the first
    /// footnote-definition word or to the word equal to `search`, then
    /// concatenate the footnote-body words from there.
    pub fn get_footnote(&self, search: &str) -> (r: String)
        ensures
            ({
                let f = flat_view(self.content@);
                let a = footnote_start(f, search@) as int;
                r@ == contents_between(f, a, a + footnote_take(f, a))
            }),
    {
        let flat = flatten_content(&self.content);
        let ghost f = flat_view(self.content@);
        proof {
            assert(f.len() == flat@.len());
            assert(forall|q: int| 0 <= q < flat@.len() ==> f[q] == (#[trigger] flat@[q])@);
        }
        let n = flat.len();
        let mut i: usize = 0;
        while i < n && !(matches!(flat[i].kind(), WordType::FootnoteData) || crate::width::str_eq(
            flat[i].content(),
            search,
        ))
            invariant
                0 <= i <= n,
                n == f.len(),
                f == flat_view(self.content@),
                forall|q: int| 0 <= q < flat@.len() ==> f[q] == (#[trigger] flat@[q])@,
                forall|q: int|
                    0 <= q < i ==> !((#[trigger] f[q]).kind is FootnoteData || f[q].content
                        == search@),
            decreases n - i,
        {
            i = i + 1;
        }
        proof {
            lemma_footnote_start_at(f, search@, i as int);
        }
        let start = i;
        let mut out = String::new();
        let mut j: usize = start;
        while j < n && matches!(flat[j].kind(), WordType::Footnote)
            invariant
                start <= j <= n,
                n == f.len(),
                f == flat_view(self.content@),
                forall|q: int| 0 <= q < flat@.len() ==> f[q] == (#[trigger] flat@[q])@,
                forall|q: int| start <= q < j ==> (#[trigger] f[q]).kind is Footnote,
                out@ == contents_between(f, start as int, j as int),
            decreases n - j,
        {
            out.append(flat[j].content());
            proof {
                lemma_contents_between_snoc(f, start as int, j as int);
            }
            j = j + 1;
        }
        proof {
            lemma_footnote_take_at(f, start as int, j as int);
        }
        out
    }

    /// The link target that the focused link index points at: the text
    /// of the matching metadata entry, or an error past the end.
    pub fn highlight_link(&self) -> (r: Result<&str, String>)
        ensures
            ({
                let links = self.meta_info@.filter(|w: Word| is_link_meta(w));
                if self.focused_index < links.len() {
                    (r matches Ok(s) && s@ == links[self.focused_index as int]@.content)
                } else {
                    (r matches Err(m) && m@ == "index out of bounds"@)
                }
            }),
    {
        let ghost links = self.meta_info@.filter(|w: Word| is_link_meta(w));
        let mut i: usize = 0;
        let mut seen: usize = 0;
        proof {
            reveal(Seq::filter);
            assert(self.meta_info@.take(0) =~= Seq::<Word>::empty());
            assert(self.meta_info@.take(0).filter(|w: Word| is_link_meta(w)) =~= Seq::<
                Word,
            >::empty());
        }
        while i < self.meta_info.len()
            invariant
                0 <= i <= self.meta_info@.len(),
                links == self.meta_info@.filter(|w: Word| is_link_meta(w)),
                seen == self.meta_info@.take(i as int).filter(|w: Word| is_link_meta(w)).len(),
                seen <= self.focused_index,
            decreases self.meta_info@.len() - i,
        {
            let w = &self.meta_info[i];
            let lk = matches!(w.kind(), WordType::LinkData | WordType::FootnoteInline);
            proof {
                reveal(Seq::filter);
                assert(self.meta_info@.take(i + 1).drop_last() =~= self.meta_info@.take(i as int));
                assert(self.meta_info@.take(i + 1).last() == self.meta_info@[i as int]);
                lemma_filter_prefix(self.meta_info@, |w: Word| is_link_meta(w), i as int);
            }
            if lk {
                if seen == self.focused_index {
                    proof {
                        assert(self.meta_info@.take(i + 1).filter(|w: Word| is_link_meta(w)).last()
                            == self.meta_info@[i as int]);
                        lemma_filter_prefix(self.meta_info@, |w: Word| is_link_meta(w), i + 1);
                        assert(links[seen as int] == self.meta_info@[i as int]);
                    }
                    return Ok(self.meta_info[i].content());
                }
                seen = seen + 1;
            }
            i = i + 1;
        }
        proof {
            assert(self.meta_info@.take(self.meta_info@.len() as int) =~= self.meta_info@);
        }
        Err(String::from_str("index out of bounds"))
    }

    /// Re-tag the word at flat position `idx` as a search hit.
    pub fn mark_word(&mut self, idx: usize)
        requires
            idx < flat_words(old(self).content@).len(),
        ensures
            final(self).kind == old(self).kind,
            final(self).meta_info == old(self).meta_info,
            final(self).height == old(self).height,
            final(self).offset == old(self).offset,
            final(self).scroll_offset == old(self).scroll_offset,
            final(self).focused == old(self).focused,
            final(self).focused_index == old(self).focused_index,
            final(self).content@.len() == old(self).content@.len(),
            forall|l: int|
                0 <= l < old(self).content@.len()
                    ==> (#[trigger] final(self).content@[l])@.len()
                    == old(self).content@[l]@.len(),
            flat_view(final(self).content@) == flat_view(old(self).content@).update(
                idx as int,
                selected_word(flat_view(old(self).content@)[idx as int]),
            ),
    {
        let ghost c0 = self.content@;
        let ghost f = flat_view(c0);
        let ghost g = f.update(idx as int, selected_word(f[idx as int]));
        let n = self.content.len();
        let mut l: usize = 0;
        let mut before: usize = 0;
        proof {
            assert(c0.take(0) =~= Seq::<Vec<Word>>::empty());
        }
        loop
            invariant
                0 <= l <= c0.len(),
                n == c0.len(),
                c0 == old(self).content@,
                f == flat_view(c0),
                g == f.update(idx as int, selected_word(f[idx as int])),
                idx < f.len(),
                f.len() == flat_words(c0).len(),
                *self == *old(self),
                before == flat_base(c0, l as int),
                before <= idx,
            decreases c0.len() - l,
        {
            proof {
                if l as int == c0.len() {
                    assert(c0.take(c0.len() as int) =~= c0);
                    assert(false);
                }
                lemma_flat_line(c0, l as int);
            }
            let row_len = self.content[l].len();
            proof {
                assert(self.content@[l as int] == c0[l as int]);
                assert(row_len == c0[l as int]@.len());
            }
            if idx - before < row_len {
                let j = idx - before;
                let mut row: Vec<Word> = Vec::new();
                self.content.set_and_swap(l, &mut row);
                let mut w = row[j].clone();
                w.set_kind(WordType::Selected);
                row.set(j, w);
                self.content.set_and_swap(l, &mut row);
                proof {
                    assert(idx as int == flat_base(c0, l as int) + j);
                    assert(flat_words(c0)[flat_base(c0, l as int) + j] == c0[l as int]@[j as int]);
                    assert(flat_words(c0)[idx as int] == c0[l as int]@[j as int]);
                    assert(f[idx as int] == c0[l as int]@[j as int]@);
                    assert(self.content@.len() == c0.len());
                    assert forall|u: int|
                        0 <= u < c0.len() implies (#[trigger] self.content@[u])@.len()
                        == c0[u]@.len() by {
                        if u != l {
                            assert(self.content@[u] == c0[u]);
                        }
                    }
                    assert forall|u: int, q: int|
                        0 <= u < c0.len() && 0 <= q < c0[u]@.len() implies (#[trigger] self
                        .content@[u]@[q])@ == g[flat_base(c0, u) + q] by {
                        lemma_flat_line(c0, u);
                        assert(f[flat_base(c0, u) + q] == c0[u]@[q]@);
                        if u < l {
                            lemma_flat_base_mono(c0, u + 1, l as int);
                            assert(flat_base(c0, u) + q < before);
                            assert(g[flat_base(c0, u) + q] == f[flat_base(c0, u) + q]);
                            assert(self.content@[u] == c0[u]);
                        } else if u > l {
                            lemma_flat_base_mono(c0, l + 1, u);
                            assert(flat_base(c0, u) + q >= before + row_len);
                            assert(g[flat_base(c0, u) + q] == f[flat_base(c0, u) + q]);
                            assert(self.content@[u] == c0[u]);
                        } else {
                            assert(flat_base(c0, u) == before);
                            if q == j {
                                assert((self.content@[u]@[q])@ == selected_word(f[idx as int]));
                                assert(g[before + q] == selected_word(f[idx as int]));
                            } else {
                                assert(self.content@[u]@[q] == c0[u]@[q]);
                                assert(g[before + q] == f[before + q]);
                            }
                        }
                    }
                    lemma_flat_pointwise(c0, self.content@, g);
                }
                return ;
            }
            proof {
                assert(before + row_len <= idx);
                assert(flat_base(c0, l + 1) == before + row_len);
            }
            before = before + row_len;
            l = l + 1;
        }
    }
}

proof fn lemma_footnote_start_at(f: Seq<WordM>, search: Seq<char>, i: int)
    requires
        0 <= i <= f.len(),
        forall|q: int| 0 <= q < i ==> !((#[trigger] f[q]).kind is FootnoteData || f[q].content
            == search),
        i < f.len() ==> (f[i].kind is FootnoteData || f[i].content == search),
    ensures
        footnote_start(f, search) == i,
    decreases i,
{
    if i > 0 {
        assert(forall|q: int| 0 <= q < i - 1 ==> #[trigger] f.skip(1)[q] == f[q + 1]);
        if i - 1 < f.skip(1).len() {
            assert(f.skip(1)[i - 1] == f[i]);
        }
        lemma_footnote_start_at(f.skip(1), search, i - 1);
    }
}

proof fn lemma_footnote_take_at(f: Seq<WordM>, start: int, j: int)
    requires
        0 <= start <= j <= f.len(),
        forall|q: int| start <= q < j ==> (#[trigger] f[q]).kind is Footnote,
        j < f.len() ==> !(f[j].kind is Footnote),
    ensures
        footnote_take(f, start) == j - start,
    decreases j - start,
{
    if start < j {
        lemma_footnote_take_at(f, start + 1, j);
    }
}

proof fn lemma_contents_between_snoc(f: Seq<WordM>, a: int, j: int)
    requires
        0 <= a <= j < f.len(),
    ensures
        contents_between(f, a, j + 1) == contents_between(f, a, j) + f[j].content,
    decreases j - a,
{
    reveal_with_fuel(contents_between, 3);
    if a == j {
        assert(contents_between(f, a, j) =~= Seq::<char>::empty());
        assert(contents_between(f, j, j + 1) =~= f[j].content);
        assert(contents_between(f, a, j) + f[j].content =~= f[j].content);
    } else {
        lemma_contents_between_snoc(f, a + 1, j);
        assert(f[a].content + (contents_between(f, a + 1, j) + f[j].content) =~= (f[a].content
            + contents_between(f, a + 1, j)) + f[j].content);
    }
}

/// The filtered prefix is a prefix of the whole filtered list.
proof fn lemma_filter_prefix(s: Seq<Word>, pred: spec_fn(Word) -> bool, i: int)
    requires
        0 <= i <= s.len(),
    ensures
        s.take(i).filter(pred).len() <= s.filter(pred).len(),
        forall|q: int|
            0 <= q < s.take(i).filter(pred).len() ==> #[trigger] s.take(i).filter(pred)[q]
                == s.filter(pred)[q],
    decreases s.len() - i,
{
    reveal(Seq::filter);
    if i == s.len() {
        assert(s.take(i) =~= s);
    } else {
        lemma_filter_prefix(s, pred, i + 1);
        assert(s.take(i + 1).drop_last() =~= s.take(i));
        assert(s.take(i + 1).last() == s[i]);
        if pred(s[i]) {
            assert(s.take(i + 1).filter(pred) == s.take(i).filter(pred).push(s[i]));
        } else {
            assert(s.take(i + 1).filter(pred) == s.take(i).filter(pred));
        }
        assert forall|q: int|
            0 <= q < s.take(i).filter(pred).len() implies #[trigger] s.take(i).filter(pred)[q]
            == s.filter(pred)[q] by {
            assert(s.take(i).filter(pred)[q] == s.take(i + 1).filter(pred)[q]);
        }
    }
}


/// The selected chunk indices below `row`, in increasing order.
pub open spec fn sel_rows_upto(c: Seq<Vec<Word>>, cc: nat, row: int) -> Seq<usize>
    decreases row,
{
    if row <= 0 {
        Seq::empty()
    } else {
        sel_rows_upto(c, cc, row - 1) + if row_has_selected(c, cc, row - 1) {
            seq![(row - 1) as usize]
        } else {
            Seq::empty()
        }
    }
}

/// Whether any word of chunk `r` (of `cc` lines each) is selected.
pub open spec fn row_has_selected(c: Seq<Vec<Word>>, cc: nat, r: int) -> bool {
    exists|l: int, j: int|
        r * cc <= l < c.len() && l < (r + 1) * cc && 0 <= j < c[l]@.len() && (#[trigger] c[l]@[j])@.kind
            is Selected
}

/// The text of one line: its words' contents joined.
pub fn join_line(l: &Vec<Word>) -> (r: String)
    ensures
        r@ == crate::wrap::words_text(line_view(l@)),
{
    let mut out = String::new();
    let mut j: usize = 0;
    proof {
        assert(line_view(l@).take(0) =~= Seq::<WordM>::empty());
        assert(out@ =~= line_words_prefix_text(l@, 0));
    }
    while j < l.len()
        invariant
            0 <= j <= l@.len(),
            out@ == line_words_prefix_text(l@, j as int),
        decreases l@.len() - j,
    {
        out.append(l[j].content());
        proof {
            lemma_line_words_prefix_snoc(l@, j as int);
        }
        j = j + 1;
    }
    proof {
        lemma_line_words_prefix_full(l@);
    }
    out
}

/// The joined text of the first `j` words of a line.
pub open spec fn line_words_prefix_text(l: Seq<Word>, j: int) -> Seq<char>
    decreases j,
{
    if j <= 0 || j > l.len() {
        Seq::empty()
    } else {
        line_words_prefix_text(l, j - 1) + l[j - 1]@.content
    }
}

proof fn lemma_line_words_prefix_snoc(l: Seq<Word>, j: int)
    requires
        0 <= j < l.len(),
    ensures
        line_words_prefix_text(l, j + 1) == line_words_prefix_text(l, j) + l[j]@.content,
{
}

proof fn lemma_line_words_prefix_full(l: Seq<Word>)
    ensures
        line_words_prefix_text(l, l.len() as int) == crate::wrap::words_text(line_view(l)),
{
    lemma_line_words_prefix_eq(l, l.len() as int);
    assert(l.take(l.len() as int) =~= l);
}

proof fn lemma_line_words_prefix_eq(l: Seq<Word>, j: int)
    requires
        0 <= j <= l.len(),
    ensures
        line_words_prefix_text(l, j) == crate::wrap::words_text(line_view(l.take(j))),
    decreases j,
{
    if j == 0 {
        assert(line_view(l.take(0)) =~= Seq::<WordM>::empty());
    } else {
        lemma_line_words_prefix_eq(l, j - 1);
        assert(l.take(j) =~= l.take(j - 1).push(l[j - 1]));
        crate::wrap::lemma_line_view_push(l.take(j - 1), l[j - 1]);
        lemma_words_text_snoc_pub(line_view(l.take(j - 1)), l[j - 1]@);
    }
}

/// The concatenated text grows by the pushed word's content.
pub proof fn lemma_words_text_snoc_pub(s: Seq<WordM>, x: WordM)
    ensures
        crate::wrap::words_text(s.push(x)) == crate::wrap::words_text(s) + x.content,
    decreases s.len(),
{
    reveal_with_fuel(crate::wrap::words_text, 3);
    if s.len() == 0 {
        assert(s.push(x)[0] == x);
        assert(s.push(x).skip(1) =~= Seq::<WordM>::empty());
        assert(crate::wrap::words_text(s.push(x)) =~= crate::wrap::words_text(s) + x.content);
    } else {
        assert(s.push(x)[0] == s[0]);
        assert(s.push(x).skip(1) =~= s.skip(1).push(x));
        lemma_words_text_snoc_pub(s.skip(1), x);
        assert(s[0].content + (crate::wrap::words_text(s.skip(1)) + x.content) =~= (s[0].content
            + crate::wrap::words_text(s.skip(1))) + x.content);
    }
}

impl TextComponent {
    /// The chunk indices (table rows, or plain lines) that hold a
    /// selected word, in increasing order.
    pub fn selected_heights(&self) -> (r: Vec<usize>)
        requires
            (self.kind matches TextNode::Table(w, h) ==> w@.len() > 0),
        ensures
            ({
                let cc: nat = match self.kind {
                    TextNode::Table(w, _) => w@.len() as nat,
                    _ => 1,
                };
                &&& forall|a: int, b: int| 0 <= a < b < r@.len() ==> r@[a] < r@[b]
                &&& forall|a: int| 0 <= a < r@.len() ==> row_has_selected(
                    self.content@,
                    cc,
                    #[trigger] r@[a] as int,
                )
                &&& forall|row: int|
                    0 <= row && row * cc < self.content@.len() && row_has_selected(
                        self.content@,
                        cc,
                        row,
                    ) ==> exists|a: int| 0 <= a < r@.len() && #[trigger] r@[a] == row
                &&& (cc >= 1 ==> r@ == sel_rows_upto(
                    self.content@,
                    cc,
                    ((self.content@.len() + cc - 1) / (cc as int)) as int,
                ))
            }),
    {
        let cc: usize = match &self.kind {
            TextNode::Table(w, _) => w.len(),
            _ => 1,
        };
        let ghost ccn = cc as nat;
        let mut heights: Vec<usize> = Vec::new();
        let mut l: usize = 0;
        let mut row: usize = 0;
        let n = self.content.len();
        while l < n
            invariant
                cc >= 1,
                ccn == cc,
                n == self.content@.len(),
                0 <= l <= n,
                l as int == row as int * ccn || (l == n && n <= row as int * ccn),
                forall|a: int, b: int| 0 <= a < b < heights@.len() ==> heights@[a] < heights@[b],
                forall|a: int| 0 <= a < heights@.len() ==> (#[trigger] heights@[a]) < row,
                forall|a: int| 0 <= a < heights@.len() ==> row_has_selected(
                    self.content@,
                    ccn,
                    #[trigger] heights@[a] as int,
                ),
                forall|q: int|
                    0 <= q < row && row_has_selected(self.content@, ccn, q) ==> exists|a: int|
                        0 <= a < heights@.len() && #[trigger] heights@[a] == q,
                heights@ == sel_rows_upto(self.content@, ccn, row as int),
            decreases n - l,
        {
            proof {
                assert(l as int == row as int * ccn);
                assert((row as int + 1) * ccn == row as int * ccn + ccn) by (nonlinear_arith);
            }
            let mut any: bool = false;
            let mut u: usize = l;
            let stop = if n - l < cc {
                n
            } else {
                l + cc
            };
            while u < stop
                invariant
                    l <= u <= stop,
                    stop <= n,
                    n == self.content@.len(),
                    cc >= 1,
                    ccn == cc,
                    stop <= l + cc,
                    any == (exists|v: int, j: int|
                        l <= v < u && 0 <= j < self.content@[v]@.len() && (#[trigger] self
                            .content@[v]@[j])@.kind is Selected),
                decreases stop - u,
            {
                let line = &self.content[u];
                let mut j: usize = 0;
                while j < line.len()
                    invariant
                        0 <= j <= line@.len(),
                        line@ == self.content@[u as int]@,
                        l <= u < n,
                        n == self.content@.len(),
                        any == ((exists|v: int, jj: int|
                            l <= v < u && 0 <= jj < self.content@[v]@.len() && (#[trigger] self
                                .content@[v]@[jj])@.kind is Selected) || (exists|jj: int|
                            0 <= jj < j && (#[trigger] self.content@[u as int]@[jj])@.kind
                                is Selected)),
                    decreases line@.len() - j,
                {
                    if matches!(line[j].kind(), WordType::Selected) {
                        any = true;
                    }
                    j = j + 1;
                }
                u = u + 1;
            }
            let ghost h0 = heights@;
            if any {
                heights.push(row);
            }
            proof {
                assert((row as int + 1) * ccn == row as int * ccn + ccn) by (nonlinear_arith);
                if any {
                    assert(row_has_selected(self.content@, ccn, row as int));
                } else {
                    assert(!row_has_selected(self.content@, ccn, row as int)) by {
                        assert((row as int + 1) * ccn == row as int * ccn + ccn) by (nonlinear_arith);
                        assert forall|v: int, j: int|
                            row * ccn <= v < self.content@.len() && v < (row + 1) * ccn && 0 <= j
                                < self.content@[v]@.len() implies !((#[trigger] self.content@[v]@[
                        j])@.kind is Selected) by {
                            assert(row as int * ccn == l as int);
                            assert((row as int + 1) * ccn == l as int + ccn) by (nonlinear_arith)
                                requires
                                    row as int * ccn == l as int,
                            ;
                            assert(v < l + ccn);
                            assert(l <= v < stop);
                        }
                    }
                }
                assert forall|q: int|
                    0 <= q < row + 1 && row_has_selected(self.content@, ccn, q) implies exists|
                    a: int|
                    0 <= a < heights@.len() && #[trigger] heights@[a] == q by {
                    if q == row {
                        assert(row as int * ccn == l as int);
                        assert((row as int + 1) * ccn == l as int + ccn) by (nonlinear_arith)
                            requires
                                row as int * ccn == l as int,
                        ;
                        assert(any);
                        assert(heights@[heights@.len() - 1] == row);
                    } else {
                        let a = choose|a: int| 0 <= a < h0.len() && h0[a] == q;
                        assert(heights@[a] == q);
                    }
                }
            }
            let ghost row0 = row as int;
            proof {
                assert(row as int <= row as int * ccn) by (nonlinear_arith)
                    requires
                        ccn >= 1,
                        row >= 0,
                ;
                if any {
                    assert(heights@ =~= sel_rows_upto(self.content@, ccn, row as int) + seq![
                        row as usize,
                    ]);
                } else {
                    assert(heights@ =~= sel_rows_upto(self.content@, ccn, row as int) + Seq::<
                        usize,
                    >::empty());
                }
            }
            row = row + 1;
            l = stop;
            proof {
                assert((row0 + 1) * ccn == row0 * ccn + ccn) by (nonlinear_arith);
                assert(forall|a: int| 0 <= a < heights@.len() ==> (#[trigger] heights@[a]) < row);
            }
        }
        proof {
            assert(n <= row as int * ccn);
            assert(heights@ == sel_rows_upto(
                self.content@,
                ccn,
                ((n + ccn - 1) / (ccn as int)) as int,
            )) by {
                let target = ((n + ccn - 1) / (ccn as int)) as int;
                vstd::arithmetic::div_mod::lemma_fundamental_div_mod(
                    n as int + ccn - 1,
                    ccn as int,
                );
                vstd::arithmetic::div_mod::lemma_mod_bound(n as int + ccn - 1, ccn as int);
                assert((ccn as int) * target <= n as int + ccn - 1);
                assert((ccn as int) * target >= n as int);
                assert(target * (ccn as int) == (ccn as int) * target) by (nonlinear_arith);
                if row as int <= target {
                    lemma_sel_rows_stable(self.content@, ccn, row as int, target);
                } else {
                    lemma_sel_rows_stable(self.content@, ccn, target, row as int);
                }
            }
            assert forall|q: int|
                0 <= q && q * ccn < self.content@.len() && row_has_selected(
                    self.content@,
                    ccn,
                    q,
                ) implies exists|a: int| 0 <= a < heights@.len() && #[trigger] heights@[a]
                == q by {
                if q >= row {
                    assert(q * ccn >= row as int * ccn) by (nonlinear_arith)
                        requires
                            q >= row as int,
                            ccn >= 1,
                    ;
                    assert(false);
                }
            }
        }
        heights
    }
}


/// Chunk lists do not grow past the rows that exist.
proof fn lemma_sel_rows_stable(c: Seq<Vec<Word>>, cc: nat, a: int, b: int)
    requires
        cc >= 1,
        a * cc >= c.len(),
        a >= 0,
    ensures
        sel_rows_upto(c, cc, a) == sel_rows_upto(c, cc, if b >= a {
            b
        } else {
            a
        }),
    decreases b - a,
{
    if b > a {
        assert(!row_has_selected(c, cc, a));
        assert((a + 1) * cc >= c.len()) by (nonlinear_arith)
            requires
                a * cc >= c.len(),
                cc >= 1,
                a >= 0,
        ;
        lemma_sel_rows_stable(c, cc, a + 1, b);
        assert(sel_rows_upto(c, cc, a + 1) =~= sel_rows_upto(c, cc, a) + Seq::<usize>::empty());
    }
}

/// The text of lines `[lo, hi)` joined with single spaces — one table
/// row's cells.
pub open spec fn cells_text(c: Seq<Vec<Word>>, lo: int, hi: int) -> Seq<char>
    decreases hi - lo,
{
    if lo < 0 || lo >= hi || hi > c.len() {
        Seq::empty()
    } else if lo + 1 == hi {
        crate::wrap::words_text(line_view(c[lo]@))
    } else {
        crate::wrap::words_text(line_view(c[lo]@)) + seq![' '] + cells_text(c, lo + 1, hi)
    }
}

impl TextComponent {
    /// The rendered text, line by line.  A table yields one string per
    /// row, its cells joined with spaces; a table without width tags
    /// yields nothing.
    pub fn content_as_lines(&self) -> (r: Vec<String>)
        ensures
            ({
                match self.kind {
                    TextNode::Table(w, _) => {
                        let cc = w@.len();
                        if cc == 0 {
                            r@.len() == 0
                        } else {
                            &&& r@.len() == (self.content@.len() + cc - 1) / (cc as int)
                            &&& forall|t: int|
                                0 <= t < r@.len() ==> (#[trigger] r@[t])@ == cells_text(
                                    self.content@,
                                    t * (cc as int),
                                    if (t + 1) * (cc as int) <= self.content@.len() {
                                        (t + 1) * (cc as int)
                                    } else {
                                        self.content@.len() as int
                                    },
                                )
                        }
                    },
                    _ => {
                        &&& r@.len() == self.content@.len()
                        &&& forall|t: int|
                            0 <= t < r@.len() ==> (#[trigger] r@[t])@ == crate::wrap::words_text(
                                line_view(self.content@[t]@),
                            )
                    },
                }
            }),
    {
        let n = self.content.len();
        let mut out: Vec<String> = Vec::new();
        if let TextNode::Table(w, _) = &self.kind {
            let cc = w.len();
            if cc == 0 {
                return out;
            }
            let ghost cci = cc as int;
            let mut l: usize = 0;
            let mut t: usize = 0;
            while l < n
                invariant
                    cc >= 1,
                    cci == cc,
                    n == self.content@.len(),
                    0 <= l <= n,
                    l as int == t * cci || (l == n && n <= t * cci),
                    t as int * cci < n as int + cci,
                    t <= n,
                    out@.len() == t,
                    forall|q: int|
                        0 <= q < t ==> (#[trigger] out@[q])@ == cells_text(
                            self.content@,
                            q * cci,
                            if (q + 1) * cci <= n {
                                (q + 1) * cci
                            } else {
                                n as int
                            },
                        ),
                decreases n - l,
            {
                proof {
                    assert(l as int == t * cci);
                    assert((t as int + 1) * cci == t as int * cci + cci) by (nonlinear_arith);
                }
                let stop = if n - l < cc {
                    n
                } else {
                    l + cc
                };
                let mut rowtext = join_line(&self.content[l]);
                let mut u: usize = l + 1;
                while u < stop
                    invariant
                        l < u <= stop,
                        stop <= n,
                        n == self.content@.len(),
                        rowtext@ == cells_text(self.content@, l as int, u as int),
                    decreases stop - u,
                {
                    let ghost rt0 = rowtext@;
                    rowtext.append(" ");
                    let celltext = join_line(&self.content[u]);
                    rowtext.append(celltext.as_str());
                    proof {
                        reveal_strlit(" ");
                        assert(" "@ =~= seq![' ']);
                        lemma_cells_text_snoc(self.content@, l as int, u as int);
                        assert(rowtext@ =~= (rt0 + seq![' ']) + celltext@);
                        assert((rt0 + seq![' ']) + celltext@ =~= rt0 + seq![' '] + celltext@);
                    }
                    u = u + 1;
                }
                out.push(rowtext);
                proof {
                    assert(t as int * cci <= l as int + cci) by (nonlinear_arith)
                        requires
                            t as int * cci == l as int,
                            cci >= 1,
                    ;
                    assert(stop as int == if (t as int + 1) * cci <= n {
                        (t as int + 1) * cci
                    } else {
                        n as int
                    });
                }
                proof {
                    assert((t as int + 1) <= (t as int + 1) * cci) by (nonlinear_arith)
                        requires
                            cci >= 1,
                            t >= 0,
                    ;
                    assert(t as int <= t as int * cci) by (nonlinear_arith)
                        requires
                            cci >= 1,
                            t >= 0,
                    ;
                    assert(t as int <= l as int);
                    assert(t < n);
                }
                t = t + 1;
                l = stop;
            }
            proof {
                assert(out@.len() == (n as int + cci - 1) / cci) by (nonlinear_arith)
                    requires
                        cci >= 1,
                        out@.len() == t as int,
                        n as int <= t as int * cci,
                        t as int * cci < n as int + cci,
                ;
            }
            out
        } else {
            let mut l: usize = 0;
            while l < n
                invariant
                    n == self.content@.len(),
                    0 <= l <= n,
                    out@.len() == l,
                    !(self.kind is Table),
                    forall|q: int|
                        0 <= q < l ==> (#[trigger] out@[q])@ == crate::wrap::words_text(
                            line_view(self.content@[q]@),
                        ),
                decreases n - l,
            {
                let t = join_line(&self.content[l]);
                out.push(t);
                l = l + 1;
            }
            out
        }
    }
}

proof fn lemma_cells_text_snoc(c: Seq<Vec<Word>>, lo: int, u: int)
    requires
        0 <= lo <= u,
        u + 1 <= c.len(),
        lo < u + 1,
    ensures
        cells_text(c, lo, u + 1) == if lo == u {
            crate::wrap::words_text(line_view(c[u]@))
        } else {
            cells_text(c, lo, u) + seq![' '] + crate::wrap::words_text(line_view(c[u]@))
        },
    decreases u - lo,
{
    reveal_with_fuel(cells_text, 3);
    if lo < u {
        lemma_cells_text_snoc(c, lo + 1, u);
        if lo + 1 == u {
            assert(cells_text(c, lo, u + 1) == crate::wrap::words_text(line_view(c[lo]@))
                + seq![' '] + cells_text(c, lo + 1, u + 1));
        } else {
            assert((crate::wrap::words_text(line_view(c[lo]@)) + seq![' '] + (cells_text(
                c,
                lo + 1,
                u,
            ) + seq![' '] + crate::wrap::words_text(line_view(c[u]@)))) =~= ((crate::wrap::words_text(
                line_view(c[lo]@),
            ) + seq![' '] + cells_text(c, lo + 1, u)) + seq![' '] + crate::wrap::words_text(
                line_view(c[u]@),
            )));
        }
    }
}


/// Texts joined with a separator between neighbours.
pub open spec fn join_texts(ts: Seq<Seq<char>>, sep: Seq<char>) -> Seq<char>
    decreases ts.len(),
{
    if ts.len() == 0 {
        Seq::empty()
    } else if ts.len() == 1 {
        ts[0]
    } else {
        join_texts(ts.drop_last(), sep) + sep + ts.last()
    }
}

/// The per-line texts of a block, as `content_as_lines` yields them.
pub open spec fn spec_content_lines(kind: TextNode, c: Seq<Vec<Word>>) -> Seq<Seq<char>> {
    match kind {
        TextNode::Table(w, _) => {
            let cc = w@.len() as int;
            if cc == 0 {
                Seq::empty()
            } else {
                Seq::new(
                    ((c.len() + cc - 1) / cc) as nat,
                    |t: int|
                        cells_text(
                            c,
                            t * cc,
                            if (t + 1) * cc <= c.len() {
                                (t + 1) * cc
                            } else {
                                c.len() as int
                            },
                        ),
                )
            }
        },
        _ => Seq::new(c.len(), |t: int| crate::wrap::words_text(line_view(c[t]@))),
    }
}

impl TextComponent {
    /// The rendered text as bytes: lines joined directly for a code
    /// block (whose lines keep their newlines), otherwise joined with
    /// newlines.
    pub fn content_as_bytes(&self) -> (r: Vec<u8>)
        ensures
            r@ == vstd::utf8::encode_utf8(
                join_texts(
                    spec_content_lines(self.kind, self.content@),
                    if self.kind is CodeBlock {
                        Seq::empty()
                    } else {
                        seq!['\n']
                    },
                ),
            ),
    {
        let lines = self.content_as_lines();
        let ghost ts = spec_content_lines(self.kind, self.content@);
        proof {
            assert(ts.len() == lines@.len());
            assert(forall|q: int| 0 <= q < ts.len() ==> ts[q] == (#[trigger] lines@[q])@);
        }
        let newline_sep = !(matches!(self.kind, TextNode::CodeBlock));
        let ghost sep: Seq<char> = if self.kind is CodeBlock {
            Seq::empty()
        } else {
            seq!['\n']
        };
        let mut out = String::new();
        let mut i: usize = 0;
        proof {
            reveal_strlit("\n");
        }
        while i < lines.len()
            invariant
                0 <= i <= lines@.len(),
                ts.len() == lines@.len(),
                forall|q: int| 0 <= q < ts.len() ==> ts[q] == (#[trigger] lines@[q])@,
                sep == if self.kind is CodeBlock {
                    Seq::<char>::empty()
                } else {
                    seq!['\n']
                },
                newline_sep == !(self.kind is CodeBlock),
                "\n"@ == seq!['\n'],
                out@ == join_texts(ts.take(i as int), sep),
            decreases lines@.len() - i,
        {
            let ghost o0 = out@;
            if i > 0 && newline_sep {
                out.append("\n");
            }
            out.append(lines[i].as_str());
            proof {
                assert(ts.take(i + 1).drop_last() =~= ts.take(i as int));
                assert(ts.take(i + 1).last() == ts[i as int]);
                if i == 0 {
                    assert(join_texts(ts.take(1), sep) == ts[0]);
                    assert(out@ =~= ts[0]);
                } else {
                    assert(join_texts(ts.take(i + 1), sep) == join_texts(ts.take(i as int), sep)
                        + sep + ts[i as int]);
                    assert(out@ =~= (o0 + sep) + ts[i as int]);
                    assert((o0 + sep) + ts[i as int] =~= o0 + sep + ts[i as int]);
                }
            }
            i = i + 1;
        }
        proof {
            assert(ts.take(ts.len() as int) =~= ts);
        }
        out.as_str().as_bytes_vec()
    }
}

} // verus!
