//! The document aggregate: the ordered blocks of one open file, with
//! scrolling offsets, link selection, search marking and structural
//! lookups over them.
use vstd::prelude::*;
use vstd::string::StrSliceExecFns;
use vstd::string::StringExecFns;

use crate::component::TextComponent;
use crate::component::TextNode;
use crate::component::flat_words;
use crate::component::flat_view;
use crate::component::is_link_meta;
use crate::component::select_err_msg;
use crate::component::select_err_string;
use crate::component::spec_is_indented_list;
use crate::word::Word;
use crate::word::WordM;
use crate::word::WordType;
use crate::wrap::line_view;

verus! {

/// A media block: opaque to the layout, it only reports a height and
/// takes offsets.  The picture itself stays with the rendering
/// backend.
#[derive(Debug, Clone)]
pub struct ImageComponent {
    pub height: u16,
    pub offset: u16,
    pub scroll_offset: u16,
}

impl ImageComponent {
    pub fn new(height: u16) -> (r: Self)
        ensures
            r.height == height,
            r.offset == 0,
            r.scroll_offset == 0,
    {
        ImageComponent { height, offset: 0, scroll_offset: 0 }
    }

    pub fn height(&self) -> (r: u16)
        ensures
            r == self.height,
    {
        self.height
    }

    pub fn set_y_offset(&mut self, y_offset: u16)
        ensures
            *final(self) == (ImageComponent { offset: y_offset, ..*old(self) }),
    {
        self.offset = y_offset;
    }

    pub fn set_scroll_offset(&mut self, scroll: u16)
        ensures
            *final(self) == (ImageComponent { scroll_offset: scroll, ..*old(self) }),
    {
        self.scroll_offset = scroll;
    }

    pub fn kind(&self) -> (r: TextNode)
        ensures
            r is Image,
    {
        TextNode::Image
    }
}

/// One block of a document: a text block, or an opaque media block.
pub enum Component {
    TextComponent(TextComponent),
    Image(ImageComponent),
}

impl From<TextComponent> for Component {
    fn from(comp: TextComponent) -> (r: Self) {
        Component::TextComponent(comp)
    }
}

impl vstd::std_specs::convert::FromSpecImpl<TextComponent> for Component {
    open spec fn obeys_from_spec() -> bool {
        true
    }

    open spec fn from_spec(t: TextComponent) -> Component {
        Component::TextComponent(t)
    }
}

/// The three operations every block answers, text or media.
pub trait ComponentProps {
    fn height(&self) -> u16;

    fn set_y_offset(&mut self, y_offset: u16);

    fn set_scroll_offset(&mut self, scroll: u16);

    fn kind(&self) -> TextNode;
}

/// A block's height as the layout sees it.
pub open spec fn comp_height(c: Component) -> nat {
    match c {
        Component::TextComponent(tc) => tc.height as nat,
        Component::Image(ic) => ic.height as nat,
    }
}

/// A block's kind.
pub open spec fn comp_is_linebreak(c: Component) -> bool {
    match c {
        Component::TextComponent(tc) => tc.kind is LineBreak,
        Component::Image(ic) => false,
    }
}

pub open spec fn comp_is_task(c: Component) -> bool {
    match c {
        Component::TextComponent(tc) => tc.kind is Task,
        Component::Image(ic) => false,
    }
}

pub open spec fn comp_is_indented_list(c: Component) -> bool {
    match c {
        Component::TextComponent(tc) => spec_is_indented_list(tc.kind, tc.meta_info@),
        Component::Image(ic) => false,
    }
}

impl ComponentProps for Component {
    fn height(&self) -> (r: u16)
        ensures
            r as nat == comp_height(*self),
    {
        match self {
            Component::TextComponent(comp) => comp.height(),
            Component::Image(comp) => comp.height(),
        }
    }

    fn set_y_offset(&mut self, y_offset: u16)
        ensures
            match (*old(self), *final(self)) {
                (Component::TextComponent(tc0), Component::TextComponent(tc)) => tc
                    == (TextComponent { offset: y_offset, ..tc0 }),
                (Component::Image(ic0), Component::Image(ic)) => ic == (ImageComponent {
                    offset: y_offset,
                    ..ic0
                }),
                _ => false,
            },
    {
        match self {
            Component::TextComponent(comp) => comp.set_y_offset(y_offset),
            Component::Image(comp) => comp.set_y_offset(y_offset),
        }
    }

    fn set_scroll_offset(&mut self, scroll: u16)
        ensures
            match (*old(self), *final(self)) {
                (Component::TextComponent(tc0), Component::TextComponent(tc)) => tc
                    == (TextComponent { scroll_offset: scroll, ..tc0 }),
                (Component::Image(ic0), Component::Image(ic)) => ic == (ImageComponent {
                    scroll_offset: scroll,
                    ..ic0
                }),
                _ => false,
            },
    {
        match self {
            Component::TextComponent(comp) => comp.set_scroll_offset(scroll),
            Component::Image(comp) => comp.set_scroll_offset(scroll),
        }
    }

    fn kind(&self) -> (r: TextNode)
        ensures
            match *self {
                Component::TextComponent(tc) => crate::component::spec_textnode_eq(r, tc.kind),
                Component::Image(ic) => r is Image,
            },
    {
        match self {
            Component::TextComponent(comp) => comp.kind(),
            Component::Image(comp) => comp.kind(),
        }
    }
}

/// Total link count of the blocks before index `upto`.
pub open spec fn links_before(comps: Seq<Component>, upto: int) -> nat
    decreases upto,
{
    if upto <= 0 {
        0
    } else if upto > comps.len() {
        links_before(comps, comps.len() as int)
    } else {
        links_before(comps, upto - 1) + match comps[upto - 1] {
            Component::TextComponent(tc) => tc.meta_info@.filter(|w: Word| is_link_meta(w)).len(),
            Component::Image(ic) => 0,
        }
    }
}

/// Total height of the blocks before index `upto`.
pub open spec fn height_before(comps: Seq<Component>, upto: int) -> nat
    decreases upto,
{
    if upto <= 0 {
        0
    } else if upto > comps.len() {
        height_before(comps, comps.len() as int)
    } else {
        height_before(comps, upto - 1) + comp_height(comps[upto - 1])
    }
}

/// The document aggregate.
pub struct ComponentRoot {
    pub file_name: Option<String>,
    pub components: Vec<Component>,
    pub is_focused: bool,
}

impl ComponentRoot {
    pub fn new(file_name: Option<String>, components: Vec<Component>) -> (r: Self)
        ensures
            r.file_name == file_name,
            r.components == components,
            !r.is_focused,
    {
        Self { file_name, components, is_focused: false }
    }

    pub fn file_name(&self) -> (r: Option<&str>)
        ensures
            match (self.file_name, r) {
                (Some(f), Some(s)) => s@ == f@,
                (None, None) => true,
                _ => false,
            },
    {
        match &self.file_name {
            Some(f) => Some(f.as_str()),
            None => None,
        }
    }

    pub fn clear(&mut self)
        ensures
            final(self).file_name is None,
            final(self).components@.len() == 0,
            final(self).is_focused == old(self).is_focused,
    {
        self.file_name = None;
        self.components.clear();
    }

    /// The document's height: the sum of its blocks' heights.
    pub fn height(&self) -> (r: u16)
        requires
            height_before(self.components@, self.components@.len() as int) <= 0xFFFF,
        ensures
            r as nat == height_before(self.components@, self.components@.len() as int),
    {
        let mut sum: u16 = 0;
        let mut i: usize = 0;
        let n = self.components.len();
        while i < n
            invariant
                0 <= i <= n,
                n == self.components@.len(),
                height_before(self.components@, n as int) <= 0xFFFF,
                sum as nat == height_before(self.components@, i as int),
            decreases n - i,
        {
            proof {
                lemma_height_before_mono(self.components@, i + 1, n as int);
            }
            sum = sum + self.components[i].height();
            i = i + 1;
        }
        sum
    }

    /// The document's total link count.
    pub fn num_links(&self) -> (r: usize)
        requires
            links_before(self.components@, self.components@.len() as int) <= usize::MAX,
        ensures
            r as nat == links_before(self.components@, self.components@.len() as int),
    {
        let mut sum: usize = 0;
        let mut i: usize = 0;
        let n = self.components.len();
        while i < n
            invariant
                0 <= i <= n,
                n == self.components@.len(),
                sum as nat == links_before(self.components@, i as int),
                links_before(self.components@, n as int) <= usize::MAX,
            decreases n - i,
        {
            match &self.components[i] {
                Component::TextComponent(tc) => {
                    let k = tc.num_links();
                    proof {
                        lemma_links_mono(self.components@, i + 1, n as int);
                    }
                    sum = sum + k;
                },
                Component::Image(ic) => {
                },
            }
            i = i + 1;
        }
        sum
    }

    /// Assign every block its vertical position (the running sum of
    /// prior heights) and the given scroll offset.
    pub fn set_scroll(&mut self, scroll: u16)
        requires
            height_before(old(self).components@, old(self).components@.len() as int) <= 0xFFFF,
        ensures
            final(self).file_name == old(self).file_name,
            final(self).is_focused == old(self).is_focused,
            final(self).components@.len() == old(self).components@.len(),
            forall|i: int|
                0 <= i < old(self).components@.len() ==> match (
                    #[trigger] final(self).components@[i],
                    old(self).components@[i],
                ) {
                    (Component::TextComponent(tc), Component::TextComponent(tc0)) => tc
                        == (TextComponent {
                        offset: height_before(old(self).components@, i) as u16,
                        scroll_offset: scroll,
                        ..tc0
                    }),
                    (Component::Image(ic), Component::Image(ic0)) => ic == (ImageComponent {
                        offset: height_before(old(self).components@, i) as u16,
                        scroll_offset: scroll,
                        ..ic0
                    }),
                    _ => false,
                },
    {
        let ghost c0 = self.components@;
        let mut y_offset: u16 = 0;
        let mut i: usize = 0;
        let n = self.components.len();
        while i < n
            invariant
                0 <= i <= n,
                n == c0.len(),
                c0 == old(self).components@,
                self.file_name == old(self).file_name,
                self.is_focused == old(self).is_focused,
                self.components@.len() == n,
                y_offset as nat == height_before(c0, i as int),
                height_before(c0, n as int) <= 0xFFFF,
                forall|u: int| i <= u < n ==> #[trigger] self.components@[u] == c0[u],
                forall|u: int|
                    0 <= u < i ==> match (#[trigger] self.components@[u], c0[u]) {
                        (Component::TextComponent(tc), Component::TextComponent(tc0)) => tc
                            == (TextComponent {
                            offset: height_before(c0, u) as u16,
                            scroll_offset: scroll,
                            ..tc0
                        }),
                        (Component::Image(ic), Component::Image(ic0)) => ic == (ImageComponent {
                            offset: height_before(c0, u) as u16,
                            scroll_offset: scroll,
                            ..ic0
                        }),
                        _ => false,
                    },
            decreases n - i,
    {
            let mut comp: Component = Component::Image(ImageComponent::new(0));
            self.components.set_and_swap(i, &mut comp);
            comp.set_y_offset(y_offset);
            comp.set_scroll_offset(scroll);
            let h = comp.height();
            self.components.set_and_swap(i, &mut comp);
            proof {
                lemma_height_before_mono(c0, i + 1, n as int);
                assert(comp_height(c0[i as int]) == h);
            }
            y_offset = y_offset + h;
            i = i + 1;
        }
    }
}

pub proof fn lemma_height_before_mono(comps: Seq<Component>, a: int, b: int)
    requires
        a <= b,
    ensures
        height_before(comps, a) <= height_before(comps, b),
    decreases b - a,
{
    if a < b {
        lemma_height_before_mono(comps, a, b - 1);
        if b > comps.len() {
            if a <= comps.len() {
                lemma_height_before_mono(comps, a, comps.len() as int);
            }
        }
    }
}

pub proof fn lemma_links_mono(comps: Seq<Component>, a: int, b: int)
    requires
        a <= b,
    ensures
        links_before(comps, a) <= links_before(comps, b),
    decreases b - a,
{
    if a < b {
        lemma_links_mono(comps, a, b - 1);
        if b > comps.len() {
            if a <= comps.len() {
                lemma_links_mono(comps, a, comps.len() as int);
            }
        }
    }
}


/// Every text block small enough to scan.
pub open spec fn root_wf(comps: Seq<Component>) -> bool {
    forall|b: int|
        0 <= b < comps.len() ==> match #[trigger] comps[b] {
            Component::TextComponent(tc) => flat_words(tc.content@).len() < usize::MAX,
            Component::Image(ic) => true,
        }
}

/// The deselected image of one block.
pub open spec fn comp_deselected(c0: Component, c: Component) -> bool {
    match (c0, c) {
        (Component::TextComponent(tc0), Component::TextComponent(tc)) => {
            &&& !tc.focused
            &&& tc.focused_index == 0
            &&& tc.kind == tc0.kind
            &&& tc.meta_info == tc0.meta_info
            &&& tc.height == tc0.height
            &&& tc.offset == tc0.offset
            &&& tc.scroll_offset == tc0.scroll_offset
            &&& tc.content@.len() == tc0.content@.len()
            &&& (forall|l: int|
                0 <= l < tc0.content@.len() ==> (#[trigger] tc.content@[l])@.len()
                    == tc0.content@[l]@.len())
            &&& (forall|l: int, j: int|
                0 <= l < tc0.content@.len() && 0 <= j < tc0.content@[l]@.len()
                    ==> (#[trigger] tc.content@[l]@[j])@ == crate::component::deselected_word(
                    tc0.content@[l]@[j]@,
                ))
        },
        (Component::Image(ic0), Component::Image(ic)) => ic == ic0,
        _ => false,
    }
}

/// Pointwise deselection of every word gives the pointwise-deselected
/// flat image.
proof fn lemma_deselect_flat_view(a: Seq<Vec<Word>>, b: Seq<Vec<Word>>)
    requires
        b.len() == a.len(),
        forall|l: int| 0 <= l < a.len() ==> (#[trigger] b[l])@.len() == a[l]@.len(),
        forall|l: int, j: int|
            0 <= l < a.len() && 0 <= j < a[l]@.len() ==> (#[trigger] b[l]@[j])@
                == crate::component::deselected_word(a[l]@[j]@),
    ensures
        flat_view(b) == crate::component::spec_deselect_flat(flat_view(a)),
{
    let g = crate::component::spec_deselect_flat(flat_view(a));
    assert(g.len() == flat_words(a).len());
    assert forall|l: int, j: int|
        0 <= l < a.len() && 0 <= j < a[l]@.len() implies (#[trigger] b[l]@[j])@ == g[
    crate::component::flat_base(a, l) + j] by {
        crate::component::lemma_flat_line(a, l);
        assert(flat_view(a)[crate::component::flat_base(a, l) + j] == a[l]@[j]@);
    }
    crate::component::lemma_flat_pointwise(a, b, g);
}

/// The text of the footnote blocks whose key is `search`: the
/// footnote-body words of every matching block, concatenated.
pub open spec fn footnote_text(comps: Seq<Component>, search: Seq<char>) -> Seq<char>
    decreases comps.len(),
{
    if comps.len() == 0 {
        Seq::empty()
    } else {
        let head = match comps[0] {
            Component::TextComponent(tc) => {
                if tc.kind is Footnote && tc.meta_info@.len() > 0 && tc.meta_info@[0]@.content
                    == search {
                    footnote_words_text(flat_view(tc.content@), 0)
                } else {
                    Seq::empty()
                }
            },
            Component::Image(ic) => Seq::empty(),
        };
        head + footnote_text(comps.skip(1), search)
    }
}

/// The concatenated text of the footnote-body words of `f`.
pub open spec fn footnote_words_text(f: Seq<WordM>, i: int) -> Seq<char>
    decreases f.len() - i,
{
    if i < 0 || i >= f.len() {
        Seq::empty()
    } else if f[i].kind is Footnote {
        f[i].content + footnote_words_text(f, i + 1)
    } else {
        footnote_words_text(f, i + 1)
    }
}

/// Whether a break must stand between two adjacent blocks: both are
/// real content (no line break on either side), and the pair is not a
/// task followed by its indented sub-list.
#[verifier::opaque]
pub open spec fn needs_break(a: Component, b: Component) -> bool {
    &&& !comp_is_linebreak(a)
    &&& !comp_is_linebreak(b)
    &&& !(comp_is_task(a) && comp_is_indented_list(b))
}

/// How many breaks are owed among the first `upto` adjacent pairs.
#[verifier::opaque]
pub open spec fn breaks_before(comps: Seq<Component>, upto: int) -> nat
    decreases upto,
{
    if upto <= 0 || comps.len() == 0 {
        0
    } else if upto > comps.len() - 1 {
        breaks_before(comps, comps.len() - 1)
    } else {
        breaks_before(comps, upto - 1) + if needs_break(comps[upto - 1], comps[upto]) {
            1nat
        } else {
            0nat
        }
    }
}

/// Where original block `i` lands once the owed breaks are inserted.
pub open spec fn out_pos(comps: Seq<Component>, i: int) -> int {
    i + breaks_before(comps, i)
}

/// A freshly made synthetic line-break block.
#[verifier::opaque]
pub open spec fn is_new_linebreak(c: Component) -> bool {
    match c {
        Component::TextComponent(tc) => {
            &&& tc.kind is LineBreak
            &&& tc.content@.len() == 1
            &&& tc.content@[0]@.len() == 0
            &&& tc.meta_info@.len() == 0
            &&& tc.height == 0
            &&& tc.offset == 0
            &&& tc.scroll_offset == 0
            &&& !tc.focused
            &&& tc.focused_index == 0
        },
        Component::Image(ic) => false,
    }
}

pub proof fn lemma_breaks_mono(comps: Seq<Component>, a: int, b: int)
    requires
        a <= b,
    ensures
        breaks_before(comps, a) <= breaks_before(comps, b),
    decreases b - a,
{
    reveal(breaks_before);
    if a < b {
        lemma_breaks_mono(comps, a, b - 1);
        if comps.len() > 0 && b > comps.len() - 1 {
            if a <= comps.len() - 1 {
                lemma_breaks_mono(comps, a, comps.len() - 1);
            }
        }
    }
}

/// One pair's contribution to the owed breaks.
pub proof fn lemma_breaks_step(comps: Seq<Component>, i: int)
    requires
        0 <= i,
    ensures
        i < comps.len() - 1 ==> breaks_before(comps, i + 1) == breaks_before(comps, i) + (
        if needs_break(comps[i], comps[i + 1]) {
            1nat
        } else {
            0nat
        }),
        i >= comps.len() - 1 ==> breaks_before(comps, i + 1) == breaks_before(comps, i),
{
    reveal(breaks_before);
    if i >= comps.len() - 1 {
        if comps.len() > 0 {
            lemma_breaks_clamp(comps, i);
        }
    }
}

proof fn lemma_breaks_clamp(comps: Seq<Component>, i: int)
    requires
        comps.len() >= 1,
        i >= comps.len() - 1,
    ensures
        breaks_before(comps, i + 1) == breaks_before(comps, comps.len() - 1),
        breaks_before(comps, i) == breaks_before(comps, comps.len() - 1),
    decreases i,
{
    reveal(breaks_before);
    if i > comps.len() - 1 {
        lemma_breaks_clamp(comps, i - 1);
    }
}

impl ComponentRoot {
    /// Drop focus everywhere and restore every selected word.
    pub fn deselect(&mut self)
        ensures
            !final(self).is_focused,
            final(self).file_name == old(self).file_name,
            final(self).components@.len() == old(self).components@.len(),
            forall|b: int|
                0 <= b < old(self).components@.len() ==> comp_deselected(
                    old(self).components@[b],
                    #[trigger] final(self).components@[b],
                ),
    {
        self.is_focused = false;
        let ghost c0 = self.components@;
        let mut i: usize = 0;
        let n = self.components.len();
        while i < n
            invariant
                0 <= i <= n,
                n == c0.len(),
                c0 == old(self).components@,
                !self.is_focused,
                self.file_name == old(self).file_name,
                self.components@.len() == n,
                forall|u: int| i <= u < n ==> #[trigger] self.components@[u] == c0[u],
                forall|u: int|
                    0 <= u < i ==> comp_deselected(c0[u], #[trigger] self.components@[u]),
            decreases n - i,
        {
            let mut comp: Component = Component::Image(ImageComponent::new(0));
            self.components.set_and_swap(i, &mut comp);
            match &mut comp {
                Component::TextComponent(tc) => {
                    tc.deselect();
                },
                Component::Image(ic) => {
                },
            }
            self.components.set_and_swap(i, &mut comp);
            i = i + 1;
        }
    }

    /// Select the document's `index`-th link: deselect everything,
    /// find the block whose link range holds the index, select the
    /// matching link run there, and yield that block's vertical
    /// offset.  An index at or past the total link count fails with a
    /// bounds message naming both; an index whose block has no such
    /// run in its rendered content fails with the inner bounds
    /// message, leaving the content deselected.
    pub fn select(&mut self, index: usize) -> (r: Result<u16, String>)
        requires
            root_wf(old(self).components@),
            links_before(old(self).components@, old(self).components@.len() as int) <= usize::MAX,
        ensures
            final(self).is_focused,
            final(self).file_name == old(self).file_name,
            final(self).components@.len() == old(self).components@.len(),
            index >= links_before(old(self).components@, old(self).components@.len() as int) ==> (
            r matches Err(m) && m@ == select_err_msg(
                index as nat,
                links_before(old(self).components@, old(self).components@.len() as int),
            )),
            index >= links_before(old(self).components@, old(self).components@.len() as int)
                ==> forall|u: int|
                0 <= u < old(self).components@.len() ==> comp_deselected(
                    old(self).components@[u],
                    #[trigger] final(self).components@[u],
                ),
            index < links_before(old(self).components@, old(self).components@.len() as int)
                ==> exists|b: int|
                #![trigger links_before(old(self).components@, b)]
                {
                    let c = old(self).components@;
                    let local = index - links_before(c, b);
                    &&& 0 <= b < c.len()
                    &&& links_before(c, b) <= index < links_before(c, b + 1)
                    &&& (forall|u: int|
                        0 <= u < c.len() && u != b ==> comp_deselected(
                            c[u],
                            #[trigger] final(self).components@[u],
                        ))
                    &&& match (c[b], final(self).components@[b]) {
                        (Component::TextComponent(tc0), Component::TextComponent(tc)) => {
                            let mid = crate::component::spec_deselect_flat(
                                flat_view(tc0.content@),
                            );
                            let runs = crate::component::run_count(mid, mid.len() as int);
                            &&& tc.focused
                            &&& tc.focused_index == local
                            &&& tc.kind == tc0.kind
                            &&& tc.meta_info == tc0.meta_info
                            &&& tc.height == tc0.height
                            &&& tc.offset == tc0.offset
                            &&& tc.scroll_offset == tc0.scroll_offset
                            &&& tc.content@.len() == tc0.content@.len()
                            &&& (forall|l: int|
                                0 <= l < tc0.content@.len()
                                    ==> (#[trigger] tc.content@[l])@.len()
                                    == tc0.content@[l]@.len())
                            &&& if local < runs {
                                (r matches Ok(y) && y == tc0.offset) && flat_view(tc.content@)
                                    == crate::component::spec_select_at(mid, local as nat)
                            } else {
                                (r matches Err(m) && m@ == "index out of bounds"@) && flat_view(
                                    tc.content@,
                                ) == mid
                            }
                        },
                        _ => false,
                    }
                },
    {
        self.deselect();
        self.is_focused = true;
        let ghost c0 = self.components@;
        let ghost corig = old(self).components@;
        proof {
            lemma_links_deselect(corig, c0, c0.len() as int);
        }
        let mut count: usize = 0;
        let mut i: usize = 0;
        let n = self.components.len();
        while i < n
            invariant
                0 <= i <= n,
                n == self.components@.len(),
                n == corig.len(),
                n == c0.len(),
                self.is_focused,
                self.file_name == old(self).file_name,
                self.components@ == c0,
                count as nat == links_before(c0, i as int),
                index >= count,
            decreases n - i,
        {
            let islinks: usize;
            match &self.components[i] {
                Component::TextComponent(tc) => {
                    islinks = tc.num_links();
                },
                Component::Image(ic) => {
                    islinks = 0;
                },
            }
            proof {
                lemma_links_mono(c0, i + 1, n as int);
            }
            if index - count < islinks {
                let local = index - count;
                let mut comp: Component = Component::Image(ImageComponent::new(0));
                self.components.set_and_swap(i, &mut comp);
                proof {
                    assert(comp == c0[i as int]);
                    assert(comp_deselected(corig[i as int], c0[i as int]));
                }
                let res: Result<(), String>;
                let offset: u16;
                match &mut comp {
                    Component::TextComponent(tc) => {
                        res = tc.visually_select(local);
                        offset = tc.y_offset();
                    },
                    Component::Image(ic) => {
                        res = Err(String::from_str("index out of bounds"));
                        offset = 0;
                    },
                }
                self.components.set_and_swap(i, &mut comp);
                proof {
                    lemma_links_mono(c0, i as int, n as int);
                    lemma_links_deselect(corig, c0, i as int);
                    lemma_links_deselect(corig, c0, i + 1);
                    assert(index < links_before(corig, n as int));
                    assert(count as nat + islinks as nat == links_before(c0, i + 1));
                    assert(links_before(corig, i as int) <= index < links_before(corig, i + 1));
                    match (corig[i as int], c0[i as int]) {
                        (Component::TextComponent(tc0), Component::TextComponent(tcm)) => {
                            lemma_deselect_flat_view(tc0.content@, tcm.content@);
                        },
                        _ => {
                            assert(false);
                        },
                    }
                    assert(forall|u: int|
                        0 <= u < n && u != i ==> #[trigger] self.components@[u] == c0[u]);
                }
                match res {
                    Ok(u) => {
                        return Ok(offset);
                    },
                    Err(e) => {
                        return Err(e);
                    },
                }
            }
            count = count + islinks;
            i = i + 1;
        }
        Err(select_err_string(index, count))
    }

    /// The footnote text reachable under the key `search`, or the
    /// fixed placeholder when no footnote matches.
    pub fn find_footnote(&self, search: &str) -> (r: String)
        ensures
            ({
                let t = footnote_text(self.components@, search@);
                r@ == if t.len() == 0 {
                    "Footnote not found"@
                } else {
                    t
                }
            }),
    {
        let ghost c0 = self.components@;
        let mut out = String::new();
        let mut i: usize = 0;
        let n = self.components.len();
        proof {
            lemma_footnote_take_zero(c0, search@);
            assert(c0.skip(0) =~= c0);
        }
        while i < n
            invariant
                0 <= i <= n,
                n == c0.len(),
                c0 == self.components@,
                out@ + footnote_text(c0.skip(i as int), search@) == footnote_text(c0, search@),
            decreases n - i,
        {
            proof {
                assert(c0.skip(i as int)[0] == c0[i as int]);
                assert(c0.skip(i as int).skip(1) =~= c0.skip(i + 1));
            }
            match &self.components[i] {
                Component::TextComponent(tc) => {
                    let is_match = matches!(tc.kind, TextNode::Footnote) && tc.meta_info.len() > 0
                        && crate::width::str_eq(tc.meta_info[0].content(), search);
                    if is_match {
                        let flat = crate::component::flatten_content(&tc.content);
                        let ghost f = flat_view(tc.content@);
                        proof {
                            assert(f.len() == flat@.len());
                            assert(forall|q: int| 0 <= q < flat@.len() ==> f[q] == (
                            #[trigger] flat@[q])@);
                        }
                        let mut j: usize = 0;
                        let m = flat.len();
                        while j < m
                            invariant
                                0 <= j <= m,
                                m == f.len(),
                                f == flat_view(tc.content@),
                                forall|q: int| 0 <= q < flat@.len() ==> f[q] == (
                                #[trigger] flat@[q])@,
                                out@ + footnote_words_text(f, j as int) + footnote_text(
                                    c0.skip(i + 1),
                                    search@,
                                ) == footnote_text(c0, search@),
                            decreases m - j,
                        {
                            let ghost o0 = out@;
                            if matches!(flat[j].kind(), WordType::Footnote) {
                                out.append(flat[j].content());
                                proof {
                                    assert(o0 + (f[j as int].content + footnote_words_text(
                                        f,
                                        j + 1,
                                    )) =~= (o0 + f[j as int].content) + footnote_words_text(
                                        f,
                                        j + 1,
                                    ));
                                    assert((o0 + (f[j as int].content + footnote_words_text(
                                        f,
                                        j + 1,
                                    ))) + footnote_text(c0.skip(i + 1), search@) =~= ((o0 + f[
                                    j as int].content) + footnote_words_text(f, j + 1))
                                        + footnote_text(c0.skip(i + 1), search@));
                                    assert((o0 + footnote_words_text(f, j as int))
                                        + footnote_text(c0.skip(i + 1), search@) =~= (o0 + (f[
                                    j as int].content + footnote_words_text(f, j + 1)))
                                        + footnote_text(c0.skip(i + 1), search@));
                                }
                            }
                            j = j + 1;
                        }
                    }
                },
                Component::Image(ic) => {
                },
            }
            i = i + 1;
        }
        proof {
            assert(c0.skip(n as int) =~= Seq::<Component>::empty());
            assert(out@ + Seq::<char>::empty() =~= out@);
        }
        if out.as_str().is_empty() {
            proof {
                assert(footnote_text(c0, search@).len() == 0);
            }
            String::from_str("Footnote not found")
        } else {
            out
        }
    }
}

proof fn lemma_footnote_take_zero(comps: Seq<Component>, search: Seq<char>)
    ensures
        Seq::<char>::empty() + footnote_text(comps, search) == footnote_text(comps, search),
{
    assert(Seq::<char>::empty() + footnote_text(comps, search) =~= footnote_text(comps, search));
}

/// Deselecting keeps every block's link count.
proof fn lemma_links_deselect(corig: Seq<Component>, c: Seq<Component>, upto: int)
    requires
        c.len() == corig.len(),
        forall|b: int| 0 <= b < corig.len() ==> comp_deselected(corig[b], #[trigger] c[b]),
    ensures
        links_before(c, upto) == links_before(corig, upto),
        root_wf(corig) ==> root_wf(c),
    decreases
            if upto > c.len() {
                c.len() as int + 1
            } else {
                upto
            },
{
    if upto > c.len() {
        lemma_links_deselect(corig, c, c.len() as int);
    } else if upto > 0 {
        lemma_links_deselect(corig, c, upto - 1);
        assert(comp_deselected(corig[upto - 1], c[upto - 1]));
    }
    assert forall|b: int| root_wf(corig) && 0 <= b < c.len() implies match #[trigger] c[b] {
        Component::TextComponent(tc) => flat_words(tc.content@).len() < usize::MAX,
        Component::Image(ic) => true,
    } by {
        if 0 <= b < c.len() && root_wf(corig) {
            assert(comp_deselected(corig[b], c[b]));
            match (corig[b], c[b]) {
                (Component::TextComponent(tc0), Component::TextComponent(tc)) => {
                    lemma_flat_len_from_lines(tc0.content@, tc.content@);
                },
                _ => {},
            }
        }
    }
}

/// Equal line lengths give equal flat lengths.
proof fn lemma_flat_len_from_lines(a: Seq<Vec<Word>>, b: Seq<Vec<Word>>)
    requires
        b.len() == a.len(),
        forall|l: int| 0 <= l < a.len() ==> (#[trigger] b[l])@.len() == a[l]@.len(),
    ensures
        flat_words(b).len() == flat_words(a).len(),
    decreases a.len(),
{
    if a.len() > 0 {
        assert(forall|l: int| 0 <= l < a.drop_last().len() ==> #[trigger] a.drop_last()[l]
            == a[l]);
        assert(forall|l: int| 0 <= l < b.drop_last().len() ==> #[trigger] b.drop_last()[l]
            == b[l]);
        lemma_flat_len_from_lines(a.drop_last(), b.drop_last());
        assert(a.last() == a[a.len() - 1]);
        assert(b.last() == b[b.len() - 1]);
    }
}

/// Link counts over a shared prefix agree.
proof fn lemma_links_upto_same(a: Seq<Component>, b: Seq<Component>, i: int)
    requires
        a.len() == b.len(),
        0 <= i <= a.len(),
        forall|u: int| 0 <= u < i ==> #[trigger] a[u] == b[u],
    ensures
        links_before(a, i) == links_before(b, i),
    decreases i,
{
    if i > 0 {
        lemma_links_upto_same(a, b, i - 1);
    }
}


/// A heading character as it appears in a link slug: ASCII letters
/// lowered, spaces turned into hyphens, everything else kept.
pub open spec fn slug_char(c: char) -> char {
    if c == ' ' {
        '-'
    } else if c == 'A' {
        'a'
    } else if c == 'B' {
        'b'
    } else if c == 'C' {
        'c'
    } else if c == 'D' {
        'd'
    } else if c == 'E' {
        'e'
    } else if c == 'F' {
        'f'
    } else if c == 'G' {
        'g'
    } else if c == 'H' {
        'h'
    } else if c == 'I' {
        'i'
    } else if c == 'J' {
        'j'
    } else if c == 'K' {
        'k'
    } else if c == 'L' {
        'l'
    } else if c == 'M' {
        'm'
    } else if c == 'N' {
        'n'
    } else if c == 'O' {
        'o'
    } else if c == 'P' {
        'p'
    } else if c == 'Q' {
        'q'
    } else if c == 'R' {
        'r'
    } else if c == 'S' {
        's'
    } else if c == 'T' {
        't'
    } else if c == 'U' {
        'u'
    } else if c == 'V' {
        'v'
    } else if c == 'W' {
        'w'
    } else if c == 'X' {
        'x'
    } else if c == 'Y' {
        'y'
    } else if c == 'Z' {
        'z'
    } else {
        c
    }
}

fn slug_char_exec(c: char) -> (r: char)
    ensures
        r == slug_char(c),
{
    match c {
        ' ' => '-',
        'A' => 'a',
        'B' => 'b',
        'C' => 'c',
        'D' => 'd',
        'E' => 'e',
        'F' => 'f',
        'G' => 'g',
        'H' => 'h',
        'I' => 'i',
        'J' => 'j',
        'K' => 'k',
        'L' => 'l',
        'M' => 'm',
        'N' => 'n',
        'O' => 'o',
        'P' => 'p',
        'Q' => 'q',
        'R' => 'r',
        'S' => 's',
        'T' => 't',
        'U' => 'u',
        'V' => 'v',
        'W' => 'w',
        'X' => 'x',
        'Y' => 'y',
        'Z' => 'z',
        _ => c,
    }
}

/// The slug of a heading's text.
pub open spec fn slug_of(s: Seq<char>) -> Seq<char> {
    s.map_values(|c: char| slug_char(c))
}

/// Whether a heading block's text matches the needle once slugified.
pub open spec fn heading_matches(tc: TextComponent, needle: Seq<char>) -> bool {
    slug_of(crate::wrap::words_text(flat_view(tc.content@))) == needle
}

/// Whether the needle (with its `#` already stripped) names the
/// heading block's text: the heading's characters, ASCII-lowered and
/// with spaces as hyphens, must equal it exactly.
pub fn compare_heading(needle: &str, content: &Vec<Vec<Word>>) -> (r: bool)
    ensures
        r == (slug_of(crate::wrap::words_text(flat_view(content@))) == needle@),
{
    let flat = crate::component::flatten_content(content);
    let ghost f = flat_view(content@);
    let mut text = String::new();
    let mut i: usize = 0;
    proof {
        assert(f.take(0) =~= Seq::<WordM>::empty());
        assert(crate::wrap::words_text(f.take(0)) =~= Seq::<char>::empty());
    }
    while i < flat.len()
        invariant
            0 <= i <= flat@.len(),
            f == flat_view(content@),
            f.len() == flat@.len(),
            forall|q: int| 0 <= q < flat@.len() ==> f[q] == (#[trigger] flat@[q])@,
            text@ == crate::wrap::words_text(f.take(i as int)),
        decreases flat@.len() - i,
    {
        let ghost t0 = text@;
        text.append(flat[i].content());
        proof {
            assert(f.take(i + 1) =~= f.take(i as int).push(f[i as int]));
            crate::component::lemma_words_text_snoc_pub(f.take(i as int), f[i as int]);
        }
        i = i + 1;
    }
    proof {
        assert(f.take(f.len() as int) =~= f);
    }
    // slugify and compare
    let nt = text.as_str().unicode_len();
    let nn = needle.unicode_len();
    if nt != nn {
        proof {
            assert(slug_of(text@).len() == text@.len());
        }
        return false;
    }
    let mut j: usize = 0;
    while j < nt
        invariant
            0 <= j <= nt,
            nt == text@.len(),
            nn == needle@.len(),
            nt == nn,
            forall|q: int| 0 <= q < j ==> slug_char(text@[q]) == needle@[q],
        decreases nt - j,
    {
        if slug_char_exec(text.as_str().get_char(j)) != needle.get_char(j) {
            proof {
                assert(slug_of(text@)[j as int] == slug_char(text@[j as int]));
            }
            return false;
        }
        j = j + 1;
    }
    proof {
        assert(slug_of(text@) =~= needle@);
    }
    true
}

/// The first heading block matching the needle, if any.
pub open spec fn first_heading(comps: Seq<Component>, needle: Seq<char>, i: int) -> Option<int>
    decreases comps.len() - i,
{
    if i < 0 || i >= comps.len() {
        None
    } else {
        match comps[i] {
            Component::TextComponent(tc) => {
                if tc.kind is Heading && heading_matches(tc, needle) {
                    Some(i)
                } else {
                    first_heading(comps, needle, i + 1)
                }
            },
            Component::Image(ic) => first_heading(comps, needle, i + 1),
        }
    }
}

impl ComponentRoot {
    /// The vertical offset of the first heading that the needle (a
    /// `#`-prefixed slug) names, or an error quoting the needle.
    pub fn heading_offset(&self, heading: &str) -> (r: Result<u16, String>)
        requires
            heading@.len() >= 1,
            height_before(self.components@, self.components@.len() as int) <= 0xFFFF,
        ensures
            ({
                let needle = heading@.skip(1);
                match first_heading(self.components@, needle, 0) {
                    Some(b) => (r matches Ok(y) && y as nat == height_before(
                        self.components@,
                        b,
                    )),
                    None => (r matches Err(m) && m@ == "Heading not found: "@ + heading@),
                }
            }),
    {
        let n0 = heading.unicode_len();
        let needle_s = heading.substring_char(1, n0).to_owned();
        let ghost needle = heading@.skip(1);
        let ghost c0 = self.components@;
        let mut y_offset: u16 = 0;
        let mut i: usize = 0;
        let n = self.components.len();
        while i < n
            invariant
                0 <= i <= n,
                n == c0.len(),
                c0 == self.components@,
                needle == heading@.skip(1),
                needle_s@ == needle,
                y_offset as nat == height_before(c0, i as int),
                height_before(c0, n as int) <= 0xFFFF,
                first_heading(c0, needle, 0) == first_heading(c0, needle, i as int),
            decreases n - i,
        {
            match &self.components[i] {
                Component::TextComponent(comp) => {
                    let is_heading = matches!(comp.kind, TextNode::Heading);
                    if is_heading && compare_heading(needle_s.as_str(), &comp.content) {
                        proof {
                            assert(first_heading(c0, needle, i as int) == Some(i as int));
                        }
                        return Ok(y_offset);
                    }
                },
                Component::Image(ic) => {
                },
            }
            proof {
                lemma_height_before_mono(c0, i + 1, n as int);
            }
            let h = self.components[i].height();
            y_offset = y_offset + h;
            i = i + 1;
        }
        let mut msg = String::from_str("Heading not found: ");
        msg.append(heading);
        proof {
            assert(msg@ =~= "Heading not found: "@ + heading@);
        }
        Err(msg)
    }

    /// Lay every text block out at the given width; media blocks stay.
    pub fn transform(&mut self, width: u16)
        requires
            forall|b: int|
                0 <= b < old(self).components@.len() ==> match #[trigger] old(self).components@[b] {
                    Component::TextComponent(tc) => crate::transform::spec_transformable(
                        tc,
                        width,
                    ),
                    Component::Image(ic) => true,
                },
        ensures
            final(self).file_name == old(self).file_name,
            final(self).is_focused == old(self).is_focused,
            final(self).components@.len() == old(self).components@.len(),
            forall|b: int|
                0 <= b < old(self).components@.len() ==> match (
                    old(self).components@[b],
                    #[trigger] final(self).components@[b],
                ) {
                    (Component::TextComponent(tc0), Component::TextComponent(tc)) => crate::transform::spec_transformed(
                        tc0,
                        tc,
                        width,
                    ),
                    (Component::Image(ic0), Component::Image(ic)) => ic == ic0,
                    _ => false,
                },
    {
        let ghost c0 = self.components@;
        let mut i: usize = 0;
        let n = self.components.len();
        while i < n
            invariant
                0 <= i <= n,
                n == c0.len(),
                c0 == old(self).components@,
                self.file_name == old(self).file_name,
                self.is_focused == old(self).is_focused,
                self.components@.len() == n,
                forall|u: int| i <= u < n ==> #[trigger] self.components@[u] == c0[u],
                forall|u: int|
                    0 <= u < i ==> match (c0[u], #[trigger] self.components@[u]) {
                        (Component::TextComponent(tc0), Component::TextComponent(tc)) => crate::transform::spec_transformed(
                            tc0,
                            tc,
                            width,
                        ),
                        (Component::Image(ic0), Component::Image(ic)) => ic == ic0,
                        _ => false,
                    },
            decreases n - i,
        {
            let mut comp: Component = Component::Image(ImageComponent::new(0));
            self.components.set_and_swap(i, &mut comp);
            proof {
                assert(comp == c0[i as int]);
            }
            match &mut comp {
                Component::TextComponent(tc) => {
                    tc.transform(width);
                },
                Component::Image(ic) => {
                },
            }
            self.components.set_and_swap(i, &mut comp);
            i = i + 1;
        }
    }

    /// Insert a synthetic line break between adjacent non-break blocks,
    /// except between a task and its indented sub-list.
    pub fn add_missing_components(self) -> (r: Self)
        ensures
            r.file_name == self.file_name,
            r.is_focused == self.is_focused,
            r.components@.len() == self.components@.len() + breaks_before(
                self.components@,
                self.components@.len() - 1,
            ),
            forall|i: int|
                0 <= i < self.components@.len() ==> r.components@[out_pos(self.components@, i)]
                    == #[trigger] self.components@[i],
            forall|i: int|
                0 <= i < self.components@.len() - 1 && needs_break(
                    #[trigger] self.components@[i],
                    self.components@[i + 1],
                ) ==> is_new_linebreak(r.components@[out_pos(self.components@, i) + 1]),
    {
        let ComponentRoot { file_name, components, is_focused } = self;
        let out = insert_breaks(components);
        ComponentRoot { file_name, components: out, is_focused }
    }

    /// Clones of all rendered words of the document, in reading order.
    pub fn words(&self) -> (r: Vec<Word>)
        ensures
            ({
                let all = all_words(self.components@, 0);
                r@.len() == all.len() && forall|q: int| 0 <= q < all.len() ==> (
                #[trigger] r@[q])@ == all[q]
            }),
    {
        let mut r: Vec<Word> = Vec::new();
        let mut i: usize = 0;
        let n = self.components.len();
        let ghost c0 = self.components@;
        proof {
            assert(all_words(c0, n as int) =~= Seq::<WordM>::empty());
        }
        while i < n
            invariant
                0 <= i <= n,
                n == c0.len(),
                c0 == self.components@,
                crate::wrap::view_words(r@) + all_words(c0, i as int) == all_words(c0, 0),
            decreases n - i,
        {
            let ghost r0 = crate::wrap::view_words(r@);
            match &self.components[i] {
                Component::TextComponent(tc) => {
                    let mut flat = crate::component::flatten_content(&tc.content);
                    let ghost fv = flat_view(tc.content@);
                    proof {
                        assert(crate::wrap::view_words(flat@) == fv);
                    }
                    r.append(&mut flat);
                    proof {
                        assert(crate::wrap::view_words(r@) =~= r0 + fv);
                        assert((r0 + fv) + all_words(c0, i + 1) =~= r0 + (fv + all_words(
                            c0,
                            i + 1,
                        )));
                    }
                },
                Component::Image(ic) => {
                },
            }
            i = i + 1;
        }
        proof {
            assert(crate::wrap::view_words(r@) + Seq::<WordM>::empty() =~= crate::wrap::view_words(
                r@,
            ));
            assert(forall|q: int| 0 <= q < r@.len() ==> (#[trigger] r@[q])@
                == crate::wrap::view_words(r@)[q]);
        }
        r
    }
}


/// Reverse a block list onto a stack.
fn reverse_components(src: Vec<Component>) -> (stack: Vec<Component>)
    ensures
        stack@.len() == src@.len(),
        forall|j: int| 0 <= j < stack@.len() ==> #[trigger] stack@[j] == src@[src@.len() - 1 - j],
{
    let ghost c0 = src@;
    let mut src = src;
    let mut stack: Vec<Component> = Vec::new();
    let n = src.len();
    while src.len() > 0
        invariant
            src@.len() + stack@.len() == n,
            n == c0.len(),
            src@ == c0.take(src@.len() as int),
            forall|j: int| 0 <= j < stack@.len() ==> #[trigger] stack@[j] == c0[n - 1 - j],
        decreases src@.len(),
    {
        let c = src.pop();
        match c {
            Some(cc) => {
                stack.push(cc);
            },
            None => {
            },
        }
        proof {
            assert(src@ =~= c0.take(src@.len() as int));
        }
    }
    stack
}

/// Walk the blocks in order and put a fresh line break behind every
/// pair that needs one.
#[verifier::rlimit(100)]
#[verifier::spinoff_prover]
fn insert_breaks(components: Vec<Component>) -> (out: Vec<Component>)
    ensures
        out@.len() == components@.len() + breaks_before(components@, components@.len() - 1),
        forall|i: int|
            0 <= i < components@.len() ==> out@[out_pos(components@, i)]
                == #[trigger] components@[i],
        forall|i: int|
            0 <= i < components@.len() - 1 && needs_break(
                #[trigger] components@[i],
                components@[i + 1],
            ) ==> is_new_linebreak(out@[out_pos(components@, i) + 1]),
{
    let ghost c0 = components@;
    let n = components.len();
    let mut stack = reverse_components(components);
    let mut out: Vec<Component> = Vec::new();
    let mut i: usize = 0;
    proof {
        assert(out_pos(c0, 0) == 0) by {
            reveal(breaks_before);
        }
    }
    while stack.len() > 0
        invariant
            i + stack@.len() == n,
            n == c0.len(),
            0 <= i <= n,
            forall|j: int| 0 <= j < stack@.len() ==> #[trigger] stack@[j] == c0[n - 1 - j],
            out@.len() == out_pos(c0, i as int),
            forall|u: int| 0 <= u < i ==> out@[out_pos(c0, u)] == #[trigger] c0[u],
            forall|u: int|
                0 <= u < i && u < c0.len() - 1 && needs_break(#[trigger] c0[u], c0[u + 1])
                    ==> is_new_linebreak(out@[out_pos(c0, u) + 1]),
        decreases stack@.len(),
    {
        let c = stack.pop();
        proof {
            lemma_breaks_mono(c0, 0, i as int);
        }
        let ghost out_pre = out@;
        match c {
            Some(cc) => {
                proof {
                    assert(cc == c0[i as int]);
                }
                let cur_break: bool = match &cc {
                    Component::TextComponent(tc) => matches!(tc.kind, TextNode::LineBreak),
                    Component::Image(ic) => false,
                };
                let cur_task: bool = match &cc {
                    Component::TextComponent(tc) => matches!(tc.kind, TextNode::Task),
                    Component::Image(ic) => false,
                };
                proof {
                    assert(cur_break == comp_is_linebreak(c0[i as int]));
                    assert(cur_task == comp_is_task(c0[i as int]));
                }
                out.push(cc);
                if stack.len() > 0 {
                    proof {
                        assert(stack@[stack@.len() - 1] == c0[i + 1]);
                    }
                    let nxt = &stack[stack.len() - 1];
                    let nxt_break: bool = match nxt {
                        Component::TextComponent(tc) => matches!(tc.kind, TextNode::LineBreak),
                        Component::Image(ic) => false,
                    };
                    let nxt_indented: bool = match nxt {
                        Component::TextComponent(tc) => tc.is_indented_list(),
                        Component::Image(ic) => false,
                    };
                    proof {
                        reveal(needs_break);
                        assert(nxt_break == comp_is_linebreak(c0[i + 1]));
                        assert(nxt_indented == comp_is_indented_list(c0[i + 1]));
                    }
                    if !cur_break && !nxt_break && !(cur_task && nxt_indented) {
                        let br = TextComponent::new(TextNode::LineBreak, Vec::new());
                        out.push(Component::TextComponent(br));
                        proof {
                            reveal(needs_break);
                            reveal(is_new_linebreak);
                            assert(needs_break(c0[i as int], c0[i + 1]));
                            assert(is_new_linebreak(out@[out@.len() - 1]));
                            lemma_breaks_step(c0, i as int);
                            assert(out_pos(c0, i + 1) == out_pos(c0, i as int) + 2);
                        }
                    } else {
                        proof {
                            reveal(needs_break);
                            assert(!needs_break(c0[i as int], c0[i + 1]));
                            lemma_breaks_step(c0, i as int);
                            assert(out_pos(c0, i + 1) == out_pos(c0, i as int) + 1);
                        }
                    }
                } else {
                    proof {
                        assert(i + 1 == n);
                        lemma_breaks_step(c0, i as int);
                        assert(breaks_before(c0, i + 1) == breaks_before(c0, i as int));
                    }
                }
            },
            None => {
            },
        }
        proof {
            assert forall|u: int| 0 <= u < i + 1 implies out@[out_pos(c0, u)] == #[trigger] c0[
            u] by {
                if u < i {
                    lemma_breaks_mono(c0, u, i as int);
                    assert(out_pos(c0, u) < out_pre.len());
                    assert(out@[out_pos(c0, u)] == out_pre[out_pos(c0, u)]);
                } else {
                    assert(out@[out_pre.len() as int] == c0[i as int]);
                }
            }
            assert forall|u: int|
                0 <= u < i + 1 && u < c0.len() - 1 && needs_break(
                    #[trigger] c0[u],
                    c0[u + 1],
                ) implies is_new_linebreak(out@[out_pos(c0, u) + 1]) by {
                if u < i {
                    lemma_breaks_step(c0, u);
                    lemma_breaks_mono(c0, u + 1, i as int);
                    assert(out_pos(c0, u) + 1 < out_pre.len());
                    assert(out@[out_pos(c0, u) + 1] == out_pre[out_pos(c0, u) + 1]);
                }
            }
        }
        i = i + 1;
    }
    proof {
        if n > 0 {
            lemma_breaks_clamp(c0, n - 1);
            assert(breaks_before(c0, n as int) == breaks_before(c0, n - 1));
        } else {
            reveal(breaks_before);
        }
        assert(out_pos(c0, 0) == 0) by {
            reveal(breaks_before);
        }
    }
    out
}

/// The images of all rendered words from block `i` on.
pub open spec fn all_words(comps: Seq<Component>, i: int) -> Seq<WordM>
    decreases comps.len() - i,
{
    if i < 0 || i >= comps.len() {
        Seq::empty()
    } else {
        (match comps[i] {
            Component::TextComponent(tc) => flat_view(tc.content@),
            Component::Image(ic) => Seq::empty(),
        }) + all_words(comps, i + 1)
    }
}


/// The rendered line texts of all text blocks from block `i` on.
pub open spec fn all_content_lines(comps: Seq<Component>, i: int) -> Seq<Seq<char>>
    decreases comps.len() - i,
{
    if i < 0 || i >= comps.len() {
        Seq::empty()
    } else {
        (match comps[i] {
            Component::TextComponent(tc) => crate::component::spec_content_lines(
                tc.kind,
                tc.content@,
            ),
            Component::Image(ic) => Seq::empty(),
        }) + all_content_lines(comps, i + 1)
    }
}

impl ComponentRoot {
    /// Every rendered line of the document, one string per line.
    pub fn content(&self) -> (r: Vec<String>)
        ensures
            ({
                let all = all_content_lines(self.components@, 0);
                r@.len() == all.len() && forall|q: int| 0 <= q < all.len() ==> (
                #[trigger] r@[q])@ == all[q]
            }),
    {
        let ghost c0 = self.components@;
        let mut r: Vec<String> = Vec::new();
        let mut i: usize = 0;
        let n = self.components.len();
        proof {
            assert(all_content_lines(c0, n as int) =~= Seq::<Seq<char>>::empty());
        }
        while i < n
            invariant
                0 <= i <= n,
                n == c0.len(),
                c0 == self.components@,
                r@.map_values(|t: String| t@) + all_content_lines(c0, i as int)
                    == all_content_lines(c0, 0),
            decreases n - i,
        {
            let ghost r0 = r@.map_values(|t: String| t@);
            match &self.components[i] {
                Component::TextComponent(tc) => {
                    let mut lines = tc.content_as_lines();
                    let ghost lv = crate::component::spec_content_lines(tc.kind, tc.content@);
                    proof {
                        assert(lines@.map_values(|t: String| t@) =~= lv);
                    }
                    r.append(&mut lines);
                    proof {
                        assert(r@.map_values(|t: String| t@) =~= r0 + lv);
                        assert((r0 + lv) + all_content_lines(c0, i + 1) =~= r0 + (lv
                            + all_content_lines(c0, i + 1)));
                    }
                },
                Component::Image(ic) => {
                },
            }
            i = i + 1;
        }
        proof {
            assert(r@.map_values(|t: String| t@) + Seq::<Seq<char>>::empty() =~= r@.map_values(
                |t: String| t@,
            ));
            assert(forall|q: int| 0 <= q < r@.len() ==> (#[trigger] r@[q])@ == r@.map_values(
                |t: String| t@,
            )[q]);
        }
        r
    }
}


/// The text blocks of a block list, in order.
pub open spec fn text_comps(comps: Seq<Component>, i: int) -> Seq<TextComponent>
    decreases comps.len() - i,
{
    if i < 0 || i >= comps.len() {
        Seq::empty()
    } else {
        (match comps[i] {
            Component::TextComponent(tc) => seq![tc],
            Component::Image(ic) => Seq::empty(),
        }) + text_comps(comps, i + 1)
    }
}

impl ComponentRoot {
    /// Borrows of the document's text blocks, in order.
    pub fn components(&self) -> (r: Vec<&TextComponent>)
        ensures
            r@.len() == text_comps(self.components@, 0).len(),
            forall|q: int| 0 <= q < r@.len() ==> *(#[trigger] r@[q]) == text_comps(
                self.components@,
                0,
            )[q],
    {
        let ghost c0 = self.components@;
        let mut r: Vec<&TextComponent> = Vec::new();
        let mut i: usize = 0;
        let n = self.components.len();
        proof {
            assert(text_comps(c0, n as int) =~= Seq::<TextComponent>::empty());
        }
        while i < n
            invariant
                0 <= i <= n,
                n == c0.len(),
                c0 == self.components@,
                r@.map_values(|t: &TextComponent| *t) + text_comps(c0, i as int) == text_comps(
                    c0,
                    0,
                ),
            decreases n - i,
        {
            let ghost r0 = r@.map_values(|t: &TextComponent| *t);
            match &self.components[i] {
                Component::TextComponent(tc) => {
                    r.push(tc);
                    proof {
                        assert(r@.map_values(|t: &TextComponent| *t) =~= r0.push(
                            c0[i as int]->TextComponent_0,
                        ));
                        assert((r0.push(c0[i as int]->TextComponent_0)) + text_comps(c0, i + 1)
                            =~= r0 + (seq![c0[i as int]->TextComponent_0] + text_comps(
                            c0,
                            i + 1,
                        )));
                    }
                },
                Component::Image(ic) => {
                },
            }
            i = i + 1;
        }
        proof {
            assert(r@.map_values(|t: &TextComponent| *t) + Seq::<TextComponent>::empty()
                =~= r@.map_values(|t: &TextComponent| *t));
            assert(forall|q: int| 0 <= q < r@.len() ==> *(#[trigger] r@[q]) == r@.map_values(
                |t: &TextComponent| *t,
            )[q]);
        }
        r
    }
}


/// A word that shows as a followable link on screen: a link, a
/// selected link, or a footnote reference.
pub open spec fn sel_linkish(t: WordType) -> bool {
    t is Link || t is Selected || t is FootnoteInline
}

/// The link entries of one line from word `j` on: each link-like word
/// yields its running index paired with the line's absolute row.
pub open spec fn lih_line(l: Seq<WordM>, row: u16, c: nat, j: int) -> Seq<(usize, u16)>
    decreases l.len() - j,
{
    if j < 0 || j >= l.len() {
        Seq::empty()
    } else if sel_linkish(l[j].kind) {
        seq![(c as usize, row)] + lih_line(l, row, (c + 1) as nat, j + 1)
    } else {
        lih_line(l, row, c, j + 1)
    }
}

/// How many link-like words the line holds from `j` on.
pub open spec fn linkish_count(l: Seq<WordM>, j: int) -> nat
    decreases l.len() - j,
{
    if j < 0 || j >= l.len() {
        0
    } else if sel_linkish(l[j].kind) {
        1 + linkish_count(l, j + 1)
    } else {
        linkish_count(l, j + 1)
    }
}

/// The link entries of a block's lines from line `l` on.
pub open spec fn lih_lines(ls: Seq<Vec<Word>>, y: u16, c: nat, l: int) -> Seq<(usize, u16)>
    decreases ls.len() - l,
{
    if l < 0 || l >= ls.len() {
        Seq::empty()
    } else {
        lih_line(line_view(ls[l]@), ((y + l) as u16), c, 0) + lih_lines(
            ls,
            y,
            c + linkish_count(line_view(ls[l]@), 0),
            l + 1,
        )
    }
}

/// The total link-like word count of a block's lines from `l` on.
pub open spec fn linkish_total(ls: Seq<Vec<Word>>, l: int) -> nat
    decreases ls.len() - l,
{
    if l < 0 || l >= ls.len() {
        0
    } else {
        linkish_count(line_view(ls[l]@), 0) + linkish_total(ls, l + 1)
    }
}

/// The link entries of the document from block `b` on, numbering from
/// `c`.
pub open spec fn lih_comps(comps: Seq<Component>, b: int, c: nat) -> Seq<(usize, u16)>
    decreases comps.len() - b,
{
    if b < 0 || b >= comps.len() {
        Seq::empty()
    } else {
        match comps[b] {
            Component::TextComponent(tc) => lih_lines(tc.content@, tc.offset, c, 0) + lih_comps(
                comps,
                b + 1,
                c + linkish_total(tc.content@, 0),
            ),
            Component::Image(ic) => lih_comps(comps, b + 1, c),
        }
    }
}

impl ComponentRoot {
    /// Every rendered link-like word, paired with its sequential link
    /// index and the absolute row it sits on.
    pub fn link_index_and_height(&self) -> (r: Vec<(usize, u16)>)
        requires
            lih_comps(self.components@, 0, 0).len() < usize::MAX,
            forall|b: int|
                0 <= b < self.components@.len() ==> match #[trigger] self.components@[b] {
                    Component::TextComponent(tc) => tc.offset + tc.content@.len() <= 0xFFFF
                        && flat_words(tc.content@).len() < usize::MAX,
                    Component::Image(ic) => true,
                },
        ensures
            r@ == lih_comps(self.components@, 0, 0),
    {
        let ghost c0 = self.components@;
        let mut out: Vec<(usize, u16)> = Vec::new();
        let mut count: usize = 0;
        let mut b: usize = 0;
        let n = self.components.len();
        while b < n
            invariant
                0 <= b <= n,
                n == c0.len(),
                c0 == self.components@,
                forall|u: int|
                    0 <= u < c0.len() ==> match #[trigger] c0[u] {
                        Component::TextComponent(tc) => tc.offset + tc.content@.len() <= 0xFFFF
                            && flat_words(tc.content@).len() < usize::MAX,
                        Component::Image(ic) => true,
                    },
                out@ + lih_comps(c0, b as int, count as nat) == lih_comps(c0, 0, 0),
                count == out@.len(),
                lih_comps(c0, 0, 0).len() < usize::MAX,
            decreases n - b,
        {
            match &self.components[b] {
                Component::TextComponent(tc) => {
                    let ghost ls = tc.content@;
                    let y = tc.y_offset();
                    let mut l: usize = 0;
                    let m = tc.content.len();
                    proof {
                        lemma_flat_le(ls, 0);
                    }
                    while l < m
                        invariant
                            0 <= l <= m,
                            m == ls.len(),
                            ls == c0[b as int]->TextComponent_0.content@,
                            0 <= b < c0.len(),
                            c0 == self.components@,
                            y == c0[b as int]->TextComponent_0.offset,
                            y + m <= 0xFFFF,
                            flat_words(ls).len() < usize::MAX,
                            count == out@.len(),
                            out@ + lih_lines(ls, y, count as nat, l as int) + lih_comps(
                                c0,
                                b + 1,
                                (count as nat + linkish_total(ls, l as int)) as nat,
                            ) == lih_comps(c0, 0, 0),
                            linkish_total(ls, l as int) <= flat_words(ls).len(),
                        decreases m - l,
                    {
                        let line = &tc.content[l];
                        let mut j: usize = 0;
                        let w = line.len();
                        proof {
                            lemma_linkish_le(line_view(line@), 0);
                            lemma_flat_le(ls, l as int);
                            assert(out@ + (lih_line(
                                line_view(line@),
                                ((y + l) as u16),
                                count as nat,
                                0,
                            ) + lih_lines(
                                ls,
                                y,
                                (count as nat + linkish_count(line_view(line@), 0)) as nat,
                                l + 1,
                            )) + lih_comps(
                                c0,
                                b + 1,
                                (count as nat + linkish_total(ls, l as int)) as nat,
                            ) =~= out@ + lih_line(line_view(line@), ((y + l) as u16), count as nat, 0)
                                + lih_lines(
                                ls,
                                y,
                                (count as nat + linkish_count(line_view(line@), 0)) as nat,
                                l + 1,
                            ) + lih_comps(
                                c0,
                                b + 1,
                                (count as nat + linkish_total(ls, l as int)) as nat,
                            ));
                        }
                        while j < w
                            invariant
                                0 <= j <= w,
                                w == line@.len(),
                                line@ == ls[l as int]@,
                                0 <= l < ls.len(),
                                y + m <= 0xFFFF,
                                m == ls.len(),
                                count == out@.len(),
                                lih_comps(c0, 0, 0).len() < usize::MAX,
                                out@ + lih_line(
                                    line_view(line@),
                                    ((y + l) as u16),
                                    count as nat,
                                    j as int,
                                ) + lih_lines(
                                    ls,
                                    y,
                                    (count as nat + linkish_count(
                                        line_view(line@),
                                        j as int,
                                    )) as nat,
                                    l + 1,
                                ) + lih_comps(
                                    c0,
                                    b + 1,
                                    (count as nat + linkish_count(line_view(line@), j as int)
                                        + linkish_total(ls, l + 1)) as nat,
                                ) == lih_comps(c0, 0, 0),
                            decreases w - j,
                        {
                            let k = line[j].kind();
                            if matches!(
                                k,
                                WordType::Link | WordType::Selected | WordType::FootnoteInline,
                            ) {
                                let ghost o0 = out@;
                                proof {
                                    assert(lih_line(
                                        line_view(line@),
                                        ((y + l) as u16),
                                        count as nat,
                                        j as int,
                                    ).len() >= 1);
                                    assert(count < lih_comps(c0, 0, 0).len());
                                }
                                out.push((count, y + (l as u16)));
                                count = count + 1;
                                proof {
                                    assert(o0.push(
                                        ((count - 1) as usize, ((y + l) as u16)),
                                    ) + lih_line(
                                        line_view(line@),
                                        ((y + l) as u16),
                                        count as nat,
                                        j + 1,
                                    ) =~= o0 + (seq![((count - 1) as usize, ((y + l) as u16))]
                                        + lih_line(
                                        line_view(line@),
                                        ((y + l) as u16),
                                        count as nat,
                                        j + 1,
                                    )));
                                }
                            }
                            j = j + 1;
                        }
                        proof {
                            assert(lih_line(
                                line_view(line@),
                                ((y + l) as u16),
                                count as nat,
                                w as int,
                            ) =~= Seq::<(usize, u16)>::empty());
                            assert(out@ + Seq::<(usize, u16)>::empty() =~= out@);
                            assert(out@ + lih_lines(
                                ls,
                                y,
                                count as nat,
                                l + 1,
                            ) + lih_comps(
                                c0,
                                b + 1,
                                (count as nat + linkish_total(ls, l + 1)) as nat,
                            ) =~= out@ + Seq::<(usize, u16)>::empty() + lih_lines(
                                ls,
                                y,
                                count as nat,
                                l + 1,
                            ) + lih_comps(
                                c0,
                                b + 1,
                                (count as nat + linkish_total(ls, l + 1)) as nat,
                            ));
                        }
                        l = l + 1;
                    }
                    proof {
                        assert(lih_lines(ls, y, count as nat, m as int) =~= Seq::<
                            (usize, u16),
                        >::empty());
                        assert(linkish_total(ls, m as int) == 0);
                        assert(out@ + Seq::<(usize, u16)>::empty() =~= out@);
                    }
                },
                Component::Image(ic) => {
                },
            }
            b = b + 1;
        }
        proof {
            assert(out@ + Seq::<(usize, u16)>::empty() =~= out@);
        }
        out
    }
}

/// Link counts never exceed the words they count.
proof fn lemma_linkish_le(l: Seq<WordM>, j: int)
    ensures
        linkish_count(l, j) <= if j < 0 || j > l.len() {
            l.len() as int
        } else {
            l.len() - j
        },
    decreases l.len() - j,
{
    if 0 <= j < l.len() {
        lemma_linkish_le(l, j + 1);
    }
}

/// The per-line link totals are bounded by the flat word count.
proof fn lemma_flat_le(ls: Seq<Vec<Word>>, l: int)
    requires
        0 <= l <= ls.len(),
    ensures
        linkish_total(ls, l) <= flat_words(ls).len(),
    decreases ls.len() - l,
{
    if l < ls.len() {
        lemma_flat_le(ls, l + 1);
        lemma_linkish_le(line_view(ls[l]@), 0);
        lemma_flat_block_le(ls, l);
    }
}

/// One line's words all sit inside the flat view.
proof fn lemma_flat_block_le(ls: Seq<Vec<Word>>, l: int)
    requires
        0 <= l < ls.len(),
    ensures
        linkish_total(ls, l) <= flat_words(ls).len() - crate::component::flat_base(ls, l),
    decreases ls.len() - l,
{
    crate::component::lemma_flat_line(ls, l);
    lemma_linkish_le(line_view(ls[l]@), 0);
    if l + 1 < ls.len() {
        lemma_flat_block_le(ls, l + 1);
        crate::component::lemma_flat_base_mono(ls, l, l + 1);
    } else {
        assert(linkish_total(ls, l + 1) == 0);
        assert(ls.take(l + 1) =~= ls);
    }
}


/// A block's chunk size for search rows: its column count for a
/// table, one otherwise.
pub open spec fn comp_cc(tc: TextComponent) -> nat {
    match tc.kind {
        TextNode::Table(w, _) => w@.len() as nat,
        _ => 1,
    }
}

/// The absolute rows of all search hits from block `b` on: each
/// block's selected chunk indices, shifted by its vertical offset.
pub open spec fn srh_comps(comps: Seq<Component>, b: int) -> Seq<usize>
    decreases comps.len() - b,
{
    if b < 0 || b >= comps.len() {
        Seq::empty()
    } else {
        (match comps[b] {
            Component::TextComponent(tc) => crate::component::sel_rows_upto(
                tc.content@,
                comp_cc(tc),
                ((tc.content@.len() + comp_cc(tc) - 1) / (comp_cc(tc) as int)) as int,
            ).map_values(|x: usize| (x + tc.offset) as usize),
            Component::Image(ic) => Seq::empty(),
        }) + srh_comps(comps, b + 1)
    }
}

impl ComponentRoot {
    /// The absolute rows holding a search hit, block by block.
    pub fn search_results_heights(&self) -> (r: Vec<usize>)
        requires
            forall|b: int|
                0 <= b < self.components@.len() ==> match #[trigger] self.components@[b] {
                    Component::TextComponent(tc) => (tc.kind matches TextNode::Table(w, h)
                        ==> w@.len() > 0) && tc.content@.len() + 0x10000 < usize::MAX,
                    Component::Image(ic) => true,
                },
        ensures
            r@ == srh_comps(self.components@, 0),
    {
        let ghost c0 = self.components@;
        let mut out: Vec<usize> = Vec::new();
        let mut b: usize = 0;
        let n = self.components.len();
        proof {
            assert(srh_comps(c0, n as int) =~= Seq::<usize>::empty());
        }
        while b < n
            invariant
                0 <= b <= n,
                n == c0.len(),
                c0 == self.components@,
                forall|u: int|
                    0 <= u < c0.len() ==> match #[trigger] c0[u] {
                        Component::TextComponent(tc) => (tc.kind matches TextNode::Table(w, h)
                            ==> w@.len() > 0) && tc.content@.len() + 0x10000 < usize::MAX,
                        Component::Image(ic) => true,
                    },
                out@ + srh_comps(c0, b as int) == srh_comps(c0, 0),
            decreases n - b,
        {
            let ghost o0 = out@;
            match &self.components[b] {
                Component::TextComponent(tc) => {
                    let rows = tc.selected_heights();
                    let y = tc.y_offset() as usize;
                    let ghost rowsv = rows@;
                    let mut q: usize = 0;
                    let m = rows.len();
                    proof {
                        let cc2 = comp_cc(*tc);
                        let n2 = tc.content@.len() as int;
                        let target = ((n2 + cc2 - 1) / (cc2 as int)) as int;
                        assert(cc2 >= 1);
                        lemma_sel_rows_bound(tc.content@, cc2, target);
                        assert(n2 + cc2 - 1 <= n2 * cc2 + cc2 - 1) by (nonlinear_arith)
                            requires
                                cc2 >= 1,
                                n2 >= 0,
                        ;
                        vstd::arithmetic::div_mod::lemma_div_is_ordered(
                            n2 + cc2 - 1,
                            n2 * (cc2 as int) + cc2 - 1,
                            cc2 as int,
                        );
                        vstd::arithmetic::div_mod::lemma_div_multiples_vanish_fancy(
                            n2,
                            cc2 as int - 1,
                            cc2 as int,
                        );
                        assert((cc2 as int) * n2 == n2 * (cc2 as int)) by (nonlinear_arith);
                        assert(target <= n2);
                    }
                    while q < m
                        invariant
                            0 <= q <= m,
                            m == rows@.len(),
                            rowsv == rows@,
                            y == c0[b as int]->TextComponent_0.offset,
                            0 <= b < c0.len(),
                            c0 == self.components@,
                            forall|i: int| 0 <= i < rowsv.len() ==> (#[trigger] rowsv[i]) + 0x10000
                                < usize::MAX,
                            out@ == o0 + rowsv.take(q as int).map_values(
                                |x: usize| (x + y) as usize,
                            ),
                        decreases m - q,
                    {
                        out.push(rows[q] + y);
                        proof {
                            assert(rowsv.take(q + 1) =~= rowsv.take(q as int).push(
                                rowsv[q as int],
                            ));
                            assert(rowsv.take(q + 1).map_values(|x: usize| (x + y) as usize)
                                =~= rowsv.take(q as int).map_values(
                                |x: usize| (x + y) as usize,
                            ).push((rowsv[q as int] + y) as usize));
                            assert(out@ =~= o0 + rowsv.take(q + 1).map_values(
                                |x: usize| (x + y) as usize,
                            ));
                        }
                        q = q + 1;
                    }
                    proof {
                        assert(rowsv.take(m as int) =~= rowsv);
                        assert(srh_comps(c0, b as int) == rowsv.map_values(
                            |x: usize| (x + y) as usize,
                        ) + srh_comps(c0, b + 1));
                        assert((o0 + rowsv.map_values(|x: usize| (x + y) as usize)) + srh_comps(
                            c0,
                            b + 1,
                        ) =~= o0 + (rowsv.map_values(|x: usize| (x + y) as usize) + srh_comps(
                            c0,
                            b + 1,
                        )));
                    }
                },
                Component::Image(ic) => {
                },
            }
            b = b + 1;
        }
        proof {
            assert(out@ + Seq::<usize>::empty() =~= out@);
        }
        out
    }
}

/// Every listed chunk index stays below the chunk count.
proof fn lemma_sel_rows_bound(c: Seq<Vec<Word>>, cc: nat, row: int)
    ensures
        forall|i: int|
            0 <= i < crate::component::sel_rows_upto(c, cc, row).len()
                ==> (#[trigger] crate::component::sel_rows_upto(c, cc, row)[i]) < row,
    decreases row,
{
    if row > 0 {
        lemma_sel_rows_bound(c, cc, row - 1);
        assert(forall|i: int|
            0 <= i < crate::component::sel_rows_upto(c, cc, row - 1).len()
                ==> #[trigger] crate::component::sel_rows_upto(c, cc, row)[i]
                == crate::component::sel_rows_upto(c, cc, row - 1)[i]);
    }
}


impl ComponentRoot {
    /// Re-tag one rendered word as a search hit: the word at flat
    /// position `idx` of block `block`.  The search collaborator
    /// decides which words match; this applies its marks.
    pub fn mark_word(&mut self, block: usize, idx: usize)
        requires
            block < old(self).components@.len(),
            (old(self).components@[block as int] matches Component::TextComponent(tc) && idx
                < flat_words(tc.content@).len()),
        ensures
            final(self).file_name == old(self).file_name,
            final(self).is_focused == old(self).is_focused,
            final(self).components@.len() == old(self).components@.len(),
            forall|u: int|
                0 <= u < old(self).components@.len() && u != block
                    ==> #[trigger] final(self).components@[u] == old(self).components@[u],
            match (old(self).components@[block as int], final(self).components@[block as int]) {
                (Component::TextComponent(tc0), Component::TextComponent(tc)) => {
                    &&& tc.kind == tc0.kind
                    &&& tc.meta_info == tc0.meta_info
                    &&& tc.height == tc0.height
                    &&& tc.offset == tc0.offset
                    &&& tc.scroll_offset == tc0.scroll_offset
                    &&& tc.focused == tc0.focused
                    &&& tc.focused_index == tc0.focused_index
                    &&& tc.content@.len() == tc0.content@.len()
                    &&& (forall|l: int|
                        0 <= l < tc0.content@.len() ==> (#[trigger] tc.content@[l])@.len()
                            == tc0.content@[l]@.len())
                    &&& flat_view(tc.content@) == flat_view(tc0.content@).update(
                        idx as int,
                        crate::component::selected_word(flat_view(tc0.content@)[idx as int]),
                    )
                },
                _ => false,
            },
    {
        let ghost c0 = self.components@;
        let mut comp: Component = Component::Image(ImageComponent::new(0));
        self.components.set_and_swap(block, &mut comp);
        proof {
            assert(comp == c0[block as int]);
        }
        match &mut comp {
            Component::TextComponent(tc) => {
                tc.mark_word(idx);
            },
            Component::Image(ic) => {
                proof {
                    assert(false);
                }
            },
        }
        self.components.set_and_swap(block, &mut comp);
        proof {
            assert(forall|u: int|
                0 <= u < c0.len() && u != block ==> #[trigger] self.components@[u] == c0[u]);
        }
    }
}


impl ComponentRoot {
    /// Measure first, then lay the whole document out: every text
    /// block is checked at run time for what the layout pass asks of
    /// it, and the pass runs only when all of them are admissible.
    /// Reports whether it ran; on refusal nothing changes.
    pub fn try_transform(&mut self, width: u16) -> (ok: bool)
        ensures
            final(self).file_name == old(self).file_name,
            final(self).is_focused == old(self).is_focused,
            !ok ==> *final(self) == *old(self),
            ok ==> final(self).components@.len() == old(self).components@.len(),
            ok ==> forall|b: int|
                0 <= b < old(self).components@.len() ==> match (
                    old(self).components@[b],
                    #[trigger] final(self).components@[b],
                ) {
                    (Component::TextComponent(tc0), Component::TextComponent(tc)) => crate::transform::spec_transformed(
                        tc0,
                        tc,
                        width,
                    ),
                    (Component::Image(ic0), Component::Image(ic)) => ic == ic0,
                    _ => false,
                },
    {
        let ghost c0 = self.components@;
        let mut b: usize = 0;
        let n = self.components.len();
        while b < n
            invariant
                0 <= b <= n,
                n == c0.len(),
                c0 == self.components@,
                forall|u: int|
                    0 <= u < b ==> match #[trigger] c0[u] {
                        Component::TextComponent(tc) => crate::transform::spec_transformable(
                            tc,
                            width,
                        ),
                        Component::Image(ic) => true,
                    },
            decreases n - b,
        {
            match &self.components[b] {
                Component::TextComponent(tc) => {
                    if !tc.transform_check(width) {
                        return false;
                    }
                },
                Component::Image(ic) => {
                },
            }
            b = b + 1;
        }
        self.transform(width);
        true
    }
}


impl ComponentRoot {
    /// Sum the block heights first, then assign offsets: when the
    /// total overruns the offset range the document is left untouched
    /// and the call reports failure.
    pub fn try_set_scroll(&mut self, scroll: u16) -> (ok: bool)
        ensures
            ok == (height_before(old(self).components@, old(self).components@.len() as int)
                <= 0xFFFF),
            !ok ==> *final(self) == *old(self),
            ok ==> {
                &&& final(self).file_name == old(self).file_name
                &&& final(self).is_focused == old(self).is_focused
                &&& final(self).components@.len() == old(self).components@.len()
                &&& forall|i: int|
                    0 <= i < old(self).components@.len() ==> match (
                        #[trigger] final(self).components@[i],
                        old(self).components@[i],
                    ) {
                        (Component::TextComponent(tc), Component::TextComponent(tc0)) => tc
                            == (TextComponent {
                            offset: height_before(old(self).components@, i) as u16,
                            scroll_offset: scroll,
                            ..tc0
                        }),
                        (Component::Image(ic), Component::Image(ic0)) => ic == (ImageComponent {
                            offset: height_before(old(self).components@, i) as u16,
                            scroll_offset: scroll,
                            ..ic0
                        }),
                        _ => false,
                    }
            },
    {
        let ghost c0 = self.components@;
        let mut total: usize = 0;
        let mut i: usize = 0;
        let n = self.components.len();
        while i < n
            invariant
                0 <= i <= n,
                n == c0.len(),
                c0 == self.components@,
                total as nat == height_before(c0, i as int),
                total <= 0xFFFF,
            decreases n - i,
        {
            let h = self.components[i].height();
            total = total + h as usize;
            if total > 0xFFFF {
                proof {
                    lemma_height_before_mono(c0, i + 1, n as int);
                }
                return false;
            }
            i = i + 1;
        }
        self.set_scroll(scroll);
        true
    }
}

} // verus!
