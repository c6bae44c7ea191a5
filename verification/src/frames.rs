//! Frame inference: where text is allowed to go.
//!
//! A page says where every glyph is; it never says where the producer would have
//! put the next one. A column box, a margin, a text frame: none of it is in the
//! file, so it is reconstructed from where content landed.
//!
//! Frames belong to a document, not to a page. A single page gives one sample of
//! where a column's text happened to fall; twenty pages of the same column give
//! twenty, and their union converges on the frame the producer used. So this
//! works on an occupancy histogram accumulated across pages.

use vstd::prelude::*;

use crate::geometry::Rect;
use crate::model;
use crate::model::{Block, BlockView, DocumentModel, DocumentView, ModelPage, PageModel};
use crate::partition;
use crate::scalar;
use crate::scalar::Scalar;
use crate::text;

verus! {

/// How the frames of a page group were arrived at.
#[derive(Debug, Clone, Copy, PartialEq, Eq, Structural)]
pub enum Evidence {
    /// Accumulated over several pages: the union across pages converges on the
    /// measure.
    Pages(usize),
    /// One page of evidence. The frame is where the text on that page happened
    /// to fall, which may be narrower than the measure the producer used.
    SinglePage,
    /// No text to measure, so the page box stands in. Always true and never
    /// tight.
    PageBox,
    /// Not inferred at all: the caller said where the text goes.
    Designed,
}

impl Evidence {
    /// The evidence in words.
    pub open spec fn words(self) -> Seq<char> {
        match self {
            Evidence::Pages(_) => "repeated across pages"@,
            Evidence::SinglePage => "one page only"@,
            Evidence::PageBox => "the page box, for want of any text"@,
            Evidence::Designed => "specified by the caller"@,
        }
    }

    /// The evidence in words.
    pub fn as_str(self) -> (r: &'static str)
        ensures
            r@ == self.words(),
    {
        match self {
            Evidence::Pages(_) => "repeated across pages",
            Evidence::SinglePage => "one page only",
            Evidence::PageBox => "the page box, for want of any text",
            Evidence::Designed => "specified by the caller",
        }
    }
}

/// A region text is allowed to occupy.
#[derive(Debug, Clone, Copy, PartialEq)]
pub struct Frame<S> {
    pub rect: Rect<S>,
    /// Position left to right within the page group, from zero.
    pub column: usize,
    /// How many blocks fell inside it, across every page of the group.
    pub blocks: usize,
    pub evidence: Evidence,
}

/// Pages that share a size, and the frames inferred for them.
///
/// Grouped by size because a document whose pages differ has different frames on
/// them, and averaging the two produces a frame that fits neither.
#[derive(Debug)]
pub struct PageGroup<S> {
    pub pages: Vec<usize>,
    /// The group's page size in points, rounded to the nearest point.
    pub size: (S, S),
    /// Left to right.
    pub frames: Vec<Frame<S>>,
}

/// What a page group says.
#[verifier::ext_equal]
pub struct GroupModel<S> {
    pub pages: Seq<usize>,
    pub size: (S, S),
    pub frames: Seq<Frame<S>>,
}

impl<S> View for PageGroup<S> {
    type V = GroupModel<S>;

    open spec fn view(&self) -> GroupModel<S> {
        GroupModel { pages: self.pages@, size: self.size, frames: self.frames@ }
    }
}

/// Every frame in a document.
#[derive(Debug)]
pub struct FrameSet<S> {
    pub groups: Vec<PageGroup<S>>,
}

impl<S> View for FrameSet<S> {
    type V = Seq<GroupModel<S>>;

    open spec fn view(&self) -> Seq<GroupModel<S>> {
        Seq::new(self.groups@.len(), |i: int| self.groups@[i]@)
    }
}

impl<S> Default for FrameSet<S> {
    fn default() -> (r: Self)
        ensures
            r@ == Seq::<GroupModel<S>>::empty(),
    {
        let r = FrameSet { groups: Vec::new() };
        assert(r@ =~= Seq::empty());
        r
    }
}

/// A page to be composed, rather than one to be measured.
///
/// Points throughout: 72 to the inch.
#[derive(Debug, PartialEq)]
pub struct PageGeometry<S> {
    /// Width and height of the page box.
    pub size: (S, S),
    /// Top, right, bottom, left: clockwise from the top.
    pub margins: (S, S, S, S),
    /// One or more, left to right.
    pub columns: usize,
    /// The space between columns. Ignored for a single column.
    pub gutter: S,
}

/// A page of a width and a height with an inch of margin and one column.
pub open spec fn plain_page<S: Scalar>(width: int, height: int) -> PageGeometry<S> {
    let inch = S::spec_ratio(72, 1);
    PageGeometry {
        size: (scalar::count::<S>(width), scalar::count::<S>(height)),
        margins: (inch, inch, inch, inch),
        columns: 1,
        gutter: S::spec_ratio(18, 1),
    }
}

impl<S: Scalar> Default for PageGeometry<S> {
    fn default() -> (r: Self)
        ensures
            r == plain_page::<S>(612, 792),
    {
        PageGeometry::us_letter()
    }
}

/// A count of at least one.
pub open spec fn at_least_one(n: usize) -> usize {
    if n == 0 {
        1
    } else {
        n
    }
}

impl<S: Scalar> PageGeometry<S> {
    /// How many columns the text is set in.
    pub open spec fn column_count(self) -> usize {
        at_least_one(self.columns)
    }

    /// The space between columns, none for one column.
    pub open spec fn spacing(self) -> S {
        if self.column_count() > 1 {
            self.gutter
        } else {
            scalar::zero::<S>()
        }
    }

    /// How wide a column is. A page whose margins exceed it has none.
    pub open spec fn column_width(self) -> S {
        let zero = scalar::zero::<S>();
        let n = self.column_count() as int;
        let measure = self.size.0.spec_minus(self.margins.3).spec_minus(
            self.margins.1,
        ).spec_greatest(zero);
        measure.spec_minus(
            self.spacing().spec_times(scalar::count::<S>(scalar::held(n - 1))),
        ).spec_over(scalar::count::<S>(scalar::held(n))).spec_greatest(zero)
    }

    /// The frame of a column, counted from the left.
    pub open spec fn frame_at(self, i: int) -> Frame<S> {
        let top = self.margins.0;
        let depth = self.size.1.spec_minus(top).spec_minus(self.margins.2).spec_greatest(
            scalar::zero::<S>(),
        );
        let width = self.column_width();
        let x0 = self.margins.3.spec_plus(
            scalar::count::<S>(scalar::held(i)).spec_times(width.spec_plus(self.spacing())),
        );
        Frame {
            rect: Rect::between(x0, top, x0.spec_plus(width), top.spec_plus(depth)),
            column: i as usize,
            blocks: 0,
            evidence: Evidence::Designed,
        }
    }

    /// The frames of the columns, left to right.
    pub open spec fn spec_frames(self) -> Seq<Frame<S>> {
        Seq::new(self.column_count() as nat, |i: int| self.frame_at(i))
    }

    /// 612 by 792 points, one inch of margin, one column.
    pub fn us_letter() -> (r: PageGeometry<S>)
        ensures
            r == plain_page::<S>(612, 792),
    {
        let inch = S::ratio(72, 1);
        PageGeometry {
            size: (S::ratio(612, 1), S::ratio(792, 1)),
            margins: (inch, inch, inch, inch),
            columns: 1,
            gutter: S::ratio(18, 1),
        }
    }

    /// 595 by 842 points, with the same inch of margin.
    pub fn a4() -> (r: PageGeometry<S>)
        ensures
            r == plain_page::<S>(595, 842),
    {
        let mut r = PageGeometry::us_letter();
        r.size = (S::ratio(595, 1), S::ratio(842, 1));
        r
    }

    /// The same page in `columns` columns.
    pub fn with_columns(self, columns: usize) -> (r: PageGeometry<S>)
        ensures
            r == (PageGeometry { columns: at_least_one(columns), ..self }),
    {
        let mut r = self;
        r.columns = if columns == 0 {
            1
        } else {
            columns
        };
        r
    }

    /// The same page with every margin set to `points`.
    pub fn with_margin(self, points: S) -> (r: PageGeometry<S>)
        ensures
            r == (PageGeometry { margins: (points, points, points, points), ..self }),
    {
        let mut r = self;
        r.margins = (points, points, points, points);
        r
    }

    /// The text frames this geometry describes, left to right.
    ///
    /// In a space whose y grows downward: `y0` is the top of the frame and `y1`
    /// the bottom. A geometry whose margins exceed the page has an empty frame.
    pub fn frames(&self) -> (r: Vec<Frame<S>>)
        ensures
            r@ == self.spec_frames(),
    {
        let zero = scalar::zero_of::<S>();
        let (top, right, bottom, left) = self.margins;
        let columns: usize = if self.columns == 0 {
            1
        } else {
            self.columns
        };
        let measure = self.size.0.minus(left).minus(right).greatest(zero);
        let depth = self.size.1.minus(top).minus(bottom).greatest(zero);
        let gutter = if columns > 1 {
            self.gutter
        } else {
            zero
        };
        let gaps = scalar::from_count::<S>(columns - 1);
        let width = measure.minus(gutter.times(gaps)).over(
            scalar::from_count::<S>(columns),
        ).greatest(zero);
        let mut out: Vec<Frame<S>> = Vec::new();
        let mut i: usize = 0;
        while i < columns
            invariant
                i <= columns,
                columns == self.column_count(),
                top == self.margins.0,
                left == self.margins.3,
                gutter == self.spacing(),
                width == self.column_width(),
                depth == self.size.1.spec_minus(top).spec_minus(self.margins.2).spec_greatest(
                    scalar::zero::<S>(),
                ),
                out@.len() == i,
                forall|k: int| 0 <= k < i ==> #[trigger] out@[k] == self.frame_at(k),
            decreases columns - i,
        {
            let x0 = left.plus(scalar::from_count::<S>(i).times(width.plus(gutter)));
            out.push(
                Frame {
                    rect: Rect::new(x0, top, x0.plus(width), top.plus(depth)),
                    column: i,
                    blocks: 0,
                    evidence: Evidence::Designed,
                },
            );
            i += 1;
        }
        assert(out@ =~= self.spec_frames());
        out
    }
}

/// How far two intervals overlap.
pub open spec fn overlap_of<S: Scalar>(a0: S, a1: S, b0: S, b1: S) -> S {
    a1.spec_least(b1).spec_minus(a0.spec_greatest(b0)).spec_greatest(scalar::zero::<S>())
}

fn overlap<S: Scalar>(a0: S, a1: S, b0: S, b1: S) -> (r: S)
    ensures
        r == overlap_of(a0, a1, b0, b1),
{
    a1.least(b1).minus(a0.greatest(b0)).greatest(scalar::zero_of::<S>())
}

/// The first group, from `from` on, that applies to a page: one that lists it,
/// or that lists none.
pub open spec fn group_for<S>(groups: Seq<GroupModel<S>>, page: usize, from: int) -> int
    decreases groups.len() - from,
{
    if from < 0 || from >= groups.len() {
        groups.len() as int
    } else if groups[from].pages.contains(page) || groups[from].pages.len() == 0 {
        from
    } else {
        group_for(groups, page, from + 1)
    }
}

/// The frames that apply to a page.
pub open spec fn page_frames<S>(groups: Seq<GroupModel<S>>, page: usize) -> Seq<Frame<S>> {
    let k = group_for(groups, page, 0);
    if 0 <= k < groups.len() {
        groups[k].frames
    } else {
        Seq::empty()
    }
}

/// The first of the first `n` frames that a rectangle overlaps most, and how
/// far.
pub open spec fn best_frame<S: Scalar>(frames: Seq<Frame<S>>, rect: Rect<S>, n: int) -> Option<
    (int, S),
>
    decreases n,
{
    if n <= 0 {
        None
    } else {
        let f = frames[n - 1].rect;
        let o = overlap_of(f.x0, f.x1, rect.x0, rect.x1);
        let best = best_frame(frames, rect, n - 1);
        if !scalar::zero::<S>().spec_lt(o) {
            best
        } else {
            match best {
                Some(b) => if b.1.spec_lt(o) {
                    Some((n - 1, o))
                } else {
                    best
                },
                None => Some((n - 1, o)),
            }
        }
    }
}

/// How many frames the first `n` groups have.
pub open spec fn frames_in<S>(groups: Seq<GroupModel<S>>, n: int) -> nat
    decreases n,
{
    if n <= 0 {
        0
    } else {
        frames_in(groups, n - 1) + groups[n - 1].frames.len()
    }
}

/// The last of the first `n` groups that none outnumbers in pages.
pub open spec fn largest_group<S>(groups: Seq<GroupModel<S>>, n: int) -> int
    decreases n,
{
    if n <= 1 {
        0
    } else {
        let best = largest_group(groups, n - 1);
        if groups[n - 1].pages.len() < groups[best].pages.len() {
            best
        } else {
            n - 1
        }
    }
}

fn has_page(pages: &Vec<usize>, page: usize) -> (r: bool)
    ensures
        r == pages@.contains(page),
{
    let mut i: usize = 0;
    while i < pages.len()
        invariant
            i <= pages@.len(),
            forall|k: int| 0 <= k < i ==> #[trigger] pages@[k] != page,
        decreases pages@.len() - i,
    {
        if pages[i] == page {
            assert(pages@[i as int] == page);
            return true;
        }
        i += 1;
    }
    false
}

impl<S: Scalar> FrameSet<S> {
    /// A frame set for pages that do not exist yet.
    ///
    /// One group, applying to every page: a composed document's page count is
    /// whatever the text turns out to need.
    pub fn designed(geometry: &PageGeometry<S>) -> (r: FrameSet<S>)
        ensures
            r@ == seq![
                GroupModel {
                    pages: Seq::empty(),
                    size: geometry.size,
                    frames: geometry.spec_frames(),
                },
            ],
    {
        let mut groups: Vec<PageGroup<S>> = Vec::new();
        let group = PageGroup {
            pages: Vec::new(),
            size: geometry.size,
            frames: geometry.frames(),
        };
        groups.push(group);
        let r = FrameSet { groups };
        assert(r@[0].pages =~= Seq::empty());
        assert(r@ =~= seq![
            GroupModel {
                pages: Seq::empty(),
                size: geometry.size,
                frames: geometry.spec_frames(),
            },
        ]);
        r
    }

    /// The frames that apply to a page.
    ///
    /// A group with no pages listed applies to every page.
    pub fn frames_for(&self, page: usize) -> (r: &[Frame<S>])
        ensures
            r@ == page_frames(self@, page),
    {
        let mut i: usize = 0;
        while i < self.groups.len()
            invariant
                i <= self.groups@.len(),
                group_for(self@, page, 0) == group_for(self@, page, i as int),
            decreases self.groups@.len() - i,
        {
            let g = &self.groups[i];
            assert(self@[i as int] == g@);
            if has_page(&g.pages, page) || g.pages.len() == 0 {
                return g.frames.as_slice();
            }
            i += 1;
        }
        let r: &[Frame<S>] = &[];
        assert(r@ =~= Seq::empty());
        r
    }

    /// The frame a rectangle belongs to, by largest horizontal overlap; of
    /// several, the one it starts in.
    ///
    /// Horizontal rather than by area: a full-width heading overlaps every
    /// column and belongs to the one it starts in, and a block that happens to
    /// be tall should not out-vote one that is in the right place.
    pub fn frame_for(&self, page: usize, rect: Rect<S>) -> (r: Option<&Frame<S>>)
        ensures
            ({
                let frames = page_frames(self@, page);
                match r {
                    Some(f) => best_frame(frames, rect, frames.len() as int) matches Some(b)
                        && 0 <= b.0 < frames.len() && frames[b.0] == *f,
                    None => best_frame(frames, rect, frames.len() as int) is None,
                }
            }),
    {
        let frames = self.frames_for(page);
        let mut best: Option<(usize, S)> = None;
        let mut i: usize = 0;
        while i < frames.len()
            invariant
                i <= frames@.len(),
                match best {
                    Some(b) => best_frame(frames@, rect, i as int) == Some((b.0 as int, b.1))
                        && b.0 < i,
                    None => best_frame(frames@, rect, i as int) is None,
                },
            decreases frames@.len() - i,
        {
            let f = &frames[i].rect;
            let o = overlap(f.x0, f.x1, rect.x0, rect.x1);
            if scalar::zero_of::<S>().lt(o) {
                let better = match best {
                    Some(b) => b.1.lt(o),
                    None => true,
                };
                if better {
                    best = Some((i, o));
                }
            }
            i += 1;
        }
        match best {
            Some(b) => Some(&frames[b.0]),
            None => None,
        }
    }

    /// How many frames there are.
    pub fn total_frames(&self) -> (r: usize)
        requires
            frames_in(self@, self@.len() as int) <= usize::MAX,
        ensures
            r == frames_in(self@, self@.len() as int),
    {
        let mut total: usize = 0;
        let mut i: usize = 0;
        while i < self.groups.len()
            invariant
                i <= self.groups@.len(),
                frames_in(self@, self@.len() as int) <= usize::MAX,
                total == frames_in(self@, i as int),
            decreases self.groups@.len() - i,
        {
            assert(self@[i as int] == self.groups@[i as int]@);
            proof {
                lemma_frames_rise(self@, i + 1, self@.len() as int);
            }
            total = total + self.groups[i].frames.len();
            i += 1;
        }
        total
    }

    /// The page group to lay new pages out into: the one with the most pages. A
    /// cover or a landscape plate is not what a page of the document looks like.
    pub fn template(&self) -> (r: Option<&PageGroup<S>>)
        ensures
            (r is Some) == (self@.len() > 0),
            r matches Some(g) ==> g@ == self@[largest_group(self@, self@.len() as int)],
    {
        if self.groups.len() == 0 {
            return None;
        }
        let mut best: usize = 0;
        let mut i: usize = 1;
        while i < self.groups.len()
            invariant
                1 <= i <= self.groups@.len(),
                best < i,
                best == largest_group(self@, i as int),
            decreases self.groups@.len() - i,
        {
            assert(self@[i as int] == self.groups@[i as int]@);
            assert(self@[best as int] == self.groups@[best as int]@);
            if !(self.groups[i].pages.len() < self.groups[best].pages.len()) {
                best = i;
            }
            i += 1;
        }
        Some(&self.groups[best])
    }
}

proof fn lemma_frames_rise<S>(groups: Seq<GroupModel<S>>, a: int, b: int)
    requires
        a <= b,
    ensures
        frames_in(groups, a) <= frames_in(groups, b),
    decreases b,
{
    if a < b && b > 0 {
        lemma_frames_rise(groups, a, b - 1);
    }
}

/// A designed frame set applies its frames to every page.
pub proof fn law_a_design_applies_to_every_page<S: Scalar>(
    geometry: PageGeometry<S>,
    page: usize,
)
    ensures
        page_frames(
            seq![
                GroupModel {
                    pages: Seq::empty(),
                    size: geometry.size,
                    frames: geometry.spec_frames(),
                },
            ],
            page,
        ) == geometry.spec_frames(),
{
}

/// How the inference should behave.
#[derive(Debug, Clone, Copy, PartialEq)]
pub struct Options<S> {
    /// A gap narrower than this is paragraph spacing, not a gutter, in points.
    pub min_gutter: S,
    /// A column narrower than this is noise: a page number, a marginal rule, a
    /// stray glyph.
    pub min_column_width: S,
    /// A bin must be occupied on this fraction of the group's pages to count as
    /// inside a frame. Zero would let one full-width heading merge the columns
    /// of the whole document.
    pub occupancy_fraction: S,
    /// Include tables when measuring. On: a table is text in a frame.
    pub include_tables: bool,
}

/// The usual options.
pub open spec fn usual_options<S: Scalar>() -> Options<S> {
    Options {
        min_gutter: S::spec_ratio(6, 1),
        min_column_width: S::spec_ratio(24, 1),
        occupancy_fraction: S::spec_ratio(1, 4),
        include_tables: true,
    }
}

impl<S: Scalar> Default for Options<S> {
    fn default() -> (r: Self)
        ensures
            r == usual_options::<S>(),
    {
        Options {
            min_gutter: S::ratio(6, 1),
            min_column_width: S::ratio(24, 1),
            occupancy_fraction: S::ratio(1, 4),
            include_tables: true,
        }
    }
}

/// Whether a block is text that lives in a frame.
///
/// Running headers and footers are furniture painted outside the text frame. A
/// figure may sit outside the measure. Opaque content is still text on the page.
pub open spec fn framed<S>(b: BlockView<S>, include_tables: bool) -> bool {
    match b {
        BlockView::Paragraph(_) => true,
        BlockView::Table(_) => include_tables,
        BlockView::Unknown(_) => true,
        BlockView::Running(_) => false,
        BlockView::Image(_) => false,
        BlockView::Vector(_) => false,
    }
}

/// The boxes of those of the first `n` blocks that live in frames.
pub open spec fn framed_boxes<S>(b: Seq<BlockView<S>>, include_tables: bool, n: int) -> Seq<Rect<S>>
    decreases n,
{
    if n <= 0 {
        Seq::empty()
    } else if framed(b[n - 1], include_tables) {
        framed_boxes(b, include_tables, n - 1).push(b[n - 1].spec_bbox())
    } else {
        framed_boxes(b, include_tables, n - 1)
    }
}

/// The boxes of the blocks that live in frames, page by page.
pub open spec fn boxes_of<S>(pages: Seq<ModelPage<S>>, include_tables: bool) -> Seq<Seq<Rect<S>>> {
    Seq::new(
        pages.len(),
        |i: int|
            framed_boxes(
                pages[i].flow.blocks,
                include_tables,
                pages[i].flow.blocks.len() as int,
            ),
    )
}

/// The page's own bounds: the crop box where it has one, the media box
/// otherwise. The crop box is what a viewer displays.
pub open spec fn bounds_of<S: Scalar>(media_box: Rect<S>, crop_box: Rect<S>) -> Rect<S> {
    let zero = scalar::zero::<S>();
    if zero.spec_lt(crop_box.spec_width().spec_magnitude()) && zero.spec_lt(
        crop_box.spec_height().spec_magnitude(),
    ) {
        crop_box
    } else {
        media_box
    }
}

/// The size of a page, rounded to the point.
pub open spec fn size_of<S: Scalar>(page: ModelPage<S>) -> (S, S) {
    let b = bounds_of(page.media_box, page.crop_box);
    (
        b.spec_width().spec_magnitude().spec_nearest(),
        b.spec_height().spec_magnitude().spec_nearest(),
    )
}

/// Whether two sizes are the same.
pub open spec fn same_size<S: Scalar>(a: (S, S), b: (S, S)) -> bool {
    a.0.spec_same(b.0) && a.1.spec_same(b.1)
}

/// Pages that share a size.
#[verifier::ext_equal]
pub struct SizeModel<S> {
    pub size: (S, S),
    pub pages: Seq<usize>,
}

/// The first group of a size, from `from` on.
pub open spec fn sized_at<S: Scalar>(groups: Seq<SizeModel<S>>, size: (S, S), from: int) -> int
    decreases groups.len() - from,
{
    if from < 0 || from >= groups.len() || same_size(groups[from].size, size) {
        from
    } else {
        sized_at(groups, size, from + 1)
    }
}

/// The first `n` pages by size, in page order.
pub open spec fn sizes_of<S: Scalar>(pages: Seq<ModelPage<S>>, n: int) -> Seq<SizeModel<S>>
    decreases n,
{
    if n <= 0 {
        Seq::empty()
    } else {
        let groups = sizes_of(pages, n - 1);
        let size = size_of(pages[n - 1]);
        let k = sized_at(groups, size, 0);
        let page = (n - 1) as usize;
        if 0 <= k < groups.len() {
            groups.update(
                k,
                SizeModel { size: groups[k].size, pages: groups[k].pages.push(page) },
            )
        } else {
            groups.push(SizeModel { size, pages: seq![page] })
        }
    }
}

/// The boxes on the first `n` of some pages.
pub open spec fn boxes_on<S>(boxes: Seq<Seq<Rect<S>>>, pages: Seq<usize>, n: int) -> Seq<Rect<S>>
    decreases n,
{
    if n <= 0 {
        Seq::empty()
    } else {
        boxes_on(boxes, pages, n - 1) + boxes[pages[n - 1] as int]
    }
}

/// A rectangle and the first `n` of some boxes.
pub open spec fn spanned<S: Scalar>(start: Rect<S>, boxes: Seq<Rect<S>>, n: int) -> Rect<S>
    decreases n,
{
    if n <= 0 {
        start
    } else {
        spanned(start, boxes, n - 1).spec_union(boxes[n - 1])
    }
}

/// Whether a box lies partly or wholly outside a page.
pub open spec fn outside<S: Scalar>(b: Rect<S>, page: Rect<S>) -> bool {
    b.x0.spec_lt(page.x0) || page.x1.spec_lt(b.x1) || b.y0.spec_lt(page.y0) || page.y1.spec_lt(
        b.y1,
    )
}

/// How many of the first `n` boxes lie partly or wholly outside a page.
pub open spec fn outside_count<S: Scalar>(boxes: Seq<Rect<S>>, page: Rect<S>, n: int) -> nat
    decreases n,
{
    if n <= 0 {
        0
    } else if outside(boxes[n - 1], page) {
        outside_count(boxes, page, n - 1) + 1
    } else {
        outside_count(boxes, page, n - 1)
    }
}

/// The bins of a point each, from `origin` on, that a box touches: the first,
/// and one past the last.
pub open spec fn bins_of<S: Scalar>(b: Rect<S>, origin: S, bins: int) -> (int, int) {
    let zero = scalar::zero::<S>();
    let from = scalar::count_from(
        b.x0.spec_minus(origin).spec_greatest(zero).spec_floor().spec_whole() as int,
    );
    let to = scalar::count_from(
        b.x1.spec_minus(origin).spec_greatest(zero).spec_ceiling().spec_whole() as int,
    );
    (
        if from < bins {
            from
        } else {
            bins
        },
        if to < bins {
            to
        } else {
            bins
        },
    )
}

/// Whether one of the first `n` boxes touches a bin.
pub open spec fn touched<S: Scalar>(
    boxes: Seq<Rect<S>>,
    origin: S,
    bins: int,
    bin: int,
    n: int,
) -> bool
    decreases n,
{
    if n <= 0 {
        false
    } else {
        touched(boxes, origin, bins, bin, n - 1) || bins_of(boxes[n - 1], origin, bins).0 <= bin
            < bins_of(boxes[n - 1], origin, bins).1
    }
}

/// On how many of the first `n` pages a bin is touched. A page with forty
/// paragraphs in one column does not outvote nineteen pages with four.
pub open spec fn occupancy_of<S: Scalar>(
    boxes: Seq<Seq<Rect<S>>>,
    pages: Seq<usize>,
    origin: S,
    bins: int,
    bin: int,
    n: int,
) -> nat
    decreases n,
{
    if n <= 0 {
        0
    } else {
        let own = boxes[pages[n - 1] as int];
        occupancy_of(boxes, pages, origin, bins, bin, n - 1) + if touched(
            own,
            origin,
            bins,
            bin,
            own.len() as int,
        ) {
            1nat
        } else {
            0nat
        }
    }
}

/// How many of the first `n` pages have anything to measure.
pub open spec fn measured<S>(boxes: Seq<Seq<Rect<S>>>, pages: Seq<usize>, n: int) -> nat
    decreases n,
{
    if n <= 0 {
        0
    } else {
        measured(boxes, pages, n - 1) + if boxes[pages[n - 1] as int].len() > 0 {
            1nat
        } else {
            0nat
        }
    }
}

/// How far the runs of occupied bins have come: those ended, and where the
/// current one began.
#[verifier::ext_equal]
pub struct Occupied {
    pub done: Seq<(usize, usize)>,
    pub start: Option<usize>,
}

/// The runs of bins among the first `n` that are occupied often enough.
pub open spec fn occupied(o: Seq<usize>, threshold: usize, n: int) -> Occupied
    decreases n,
{
    if n <= 0 {
        Occupied { done: Seq::empty(), start: None }
    } else {
        let r = occupied(o, threshold, n - 1);
        let at = (n - 1) as usize;
        if o[n - 1] >= threshold {
            match r.start {
                Some(_) => r,
                None => Occupied { done: r.done, start: Some(at) },
            }
        } else {
            match r.start {
                Some(start) => Occupied { done: r.done.push((start, at)), start: None },
                None => r,
            }
        }
    }
}

/// The runs of occupied bins.
pub open spec fn runs_of(o: Seq<usize>, threshold: usize) -> Seq<(usize, usize)> {
    let r = occupied(o, threshold, o.len() as int);
    match r.start {
        Some(start) => r.done.push((start, o.len() as usize)),
        None => r.done,
    }
}

/// The distance from one run to the next; none where they touch.
pub open spec fn gap_between(a: (usize, usize), b: (usize, usize)) -> int {
    if b.0 > a.1 {
        b.0 - a.1
    } else {
        0
    }
}

/// The first `n` runs, merged across gaps narrower than a gutter. Such a gap is
/// the space between paragraphs that do not reach the same width.
pub open spec fn merged(runs: Seq<(usize, usize)>, gutter: usize, n: int) -> Seq<(usize, usize)>
    decreases n,
{
    if n <= 0 {
        Seq::empty()
    } else {
        let before = merged(runs, gutter, n - 1);
        let run = runs[n - 1];
        if before.len() > 0 && gap_between(before.last(), run) < gutter {
            before.update(before.len() - 1, (before.last().0, run.1))
        } else {
            before.push(run)
        }
    }
}

/// Whether a run is narrower than a column.
pub open spec fn narrow(run: (usize, usize), width: usize) -> bool {
    run.1 < run.0 || run.1 - run.0 < width
}

/// The first run, from `from` on, that is narrower than a column.
pub open spec fn narrow_from(runs: Seq<(usize, usize)>, width: usize, from: int) -> int
    decreases runs.len() - from,
{
    if from < 0 || from >= runs.len() || narrow(runs[from], width) {
        from
    } else {
        narrow_from(runs, width, from + 1)
    }
}

/// Runs with one folded into whichever neighbour is closer, the left one where
/// neither is.
pub open spec fn folded_at(runs: Seq<(usize, usize)>, i: int) -> Seq<(usize, usize)> {
    if i > 0 && (i + 1 >= runs.len() || gap_between(runs[i - 1], runs[i]) <= gap_between(
        runs[i],
        runs[i + 1],
    )) {
        runs.update(i - 1, (runs[i - 1].0, runs[i].1)).remove(i)
    } else {
        runs.update(i + 1, (runs[i].0, runs[i + 1].1)).remove(i)
    }
}

/// Runs with those narrower than a column folded into their neighbours. A
/// narrow run is a fragment of something painted there, and only one with no
/// neighbour stands alone.
pub open spec fn folded(runs: Seq<(usize, usize)>, width: usize) -> Seq<(usize, usize)>
    decreases runs.len(),
{
    let i = narrow_from(runs, width, 0);
    if runs.len() < 2 || i < 0 || i >= runs.len() {
        runs
    } else {
        folded(folded_at(runs, i), width)
    }
}

/// The columns of bins that are occupied often enough.
pub open spec fn columns_of<S: Scalar>(o: Seq<usize>, threshold: usize, opts: Options<S>) -> Seq<
    (usize, usize),
> {
    let runs = runs_of(o, threshold);
    let gutter = scalar::count_from(opts.min_gutter.spec_nearest().spec_whole() as int) as usize;
    let width = scalar::count_from(opts.min_column_width.spec_nearest().spec_whole() as int) as usize;
    folded(merged(runs, gutter, runs.len() as int), width)
}

/// The left edge of a run of bins.
pub open spec fn edge_at<S: Scalar>(origin: S, bin: usize) -> S {
    origin.spec_plus(scalar::count::<S>(scalar::held(bin as int)))
}

/// How far a box overlaps a run of bins.
pub open spec fn run_overlap<S: Scalar>(run: (usize, usize), origin: S, b: Rect<S>) -> S {
    overlap_of(edge_at(origin, run.0), edge_at(origin, run.1), b.x0, b.x1)
}

/// The last of the first `n` runs that a box overlaps most, and how far.
pub open spec fn best_run<S: Scalar>(
    runs: Seq<(usize, usize)>,
    origin: S,
    b: Rect<S>,
    n: int,
) -> Option<(int, S)>
    decreases n,
{
    if n <= 0 {
        None
    } else {
        let o = run_overlap(runs[n - 1], origin, b);
        let best = best_run(runs, origin, b, n - 1);
        if !scalar::zero::<S>().spec_lt(o) {
            best
        } else {
            match best {
                Some(x) => if o.spec_lt(x.1) {
                    best
                } else {
                    Some((n - 1, o))
                },
                None => Some((n - 1, o)),
            }
        }
    }
}

/// Whether a box belongs to a column.
pub open spec fn belongs<S: Scalar>(
    runs: Seq<(usize, usize)>,
    origin: S,
    b: Rect<S>,
    column: int,
) -> bool {
    &&& !run_overlap(runs[column], origin, b).spec_le(scalar::zero::<S>())
    &&& best_run(runs, origin, b, runs.len() as int) matches Some(x) && x.0 == column
}

/// The vertical extent of a column, and how many boxes it has.
pub struct Extent<S> {
    pub top: S,
    pub bottom: S,
    pub count: nat,
}

/// The extent of a column over the first `n` boxes.
pub open spec fn extent_of<S: Scalar>(
    runs: Seq<(usize, usize)>,
    origin: S,
    boxes: Seq<Rect<S>>,
    column: int,
    n: int,
) -> Extent<S>
    decreases n,
{
    if n <= 0 {
        Extent { top: S::spec_highest(), bottom: S::spec_lowest(), count: 0 }
    } else {
        let before = extent_of(runs, origin, boxes, column, n - 1);
        let b = boxes[n - 1];
        if belongs(runs, origin, b, column) {
            Extent {
                top: before.top.spec_least(b.y0),
                bottom: before.bottom.spec_greatest(b.y1),
                count: before.count + 1,
            }
        } else {
            before
        }
    }
}

/// The frames of the first `n` columns that have boxes.
pub open spec fn column_frames<S: Scalar>(
    runs: Seq<(usize, usize)>,
    origin: S,
    boxes: Seq<Rect<S>>,
    evidence: Evidence,
    n: int,
) -> Seq<Frame<S>>
    decreases n,
{
    if n <= 0 {
        Seq::empty()
    } else {
        let before = column_frames(runs, origin, boxes, evidence, n - 1);
        let run = runs[n - 1];
        let e = extent_of(runs, origin, boxes, n - 1, boxes.len() as int);
        if e.count == 0 || !e.top.spec_finite() || !e.bottom.spec_finite() {
            before
        } else {
            before.push(
                Frame {
                    rect: Rect::between(
                        edge_at(origin, run.0),
                        e.top,
                        edge_at(origin, run.1),
                        e.bottom,
                    ),
                    column: (n - 1) as usize,
                    blocks: e.count as usize,
                    evidence,
                },
            )
        }
    }
}

/// The frame of a page that has no text to measure.
pub open spec fn whole_page<S>(page: Rect<S>) -> Frame<S> {
    Frame { rect: page, column: 0, blocks: 0, evidence: Evidence::PageBox }
}

/// What measuring a page group needs.
pub struct Measuring<S> {
    /// The page.
    pub page: Rect<S>,
    /// Every box on the pages of the group.
    pub boxes: Seq<Rect<S>>,
    /// Where the bins start.
    pub origin: S,
    /// How many bins there are.
    pub bins: int,
    /// How many pages have anything to measure.
    pub pages: nat,
}

/// The measuring of a page group. The bins span the page and whatever content
/// falls outside it.
pub open spec fn measuring_of<S: Scalar>(
    boxes: Seq<Seq<Rect<S>>>,
    group: SizeModel<S>,
) -> Measuring<S> {
    let zero = scalar::zero::<S>();
    let page = Rect::between(zero, zero, group.size.0, group.size.1);
    let all = boxes_on(boxes, group.pages, group.pages.len() as int);
    let domain = spanned(page, all, all.len() as int);
    let bins = scalar::count_from(domain.spec_width().spec_ceiling().spec_whole() as int);
    Measuring {
        page,
        boxes: all,
        origin: domain.x0,
        bins: if bins < 1 {
            1
        } else {
            bins
        },
        pages: measured(boxes, group.pages, group.pages.len() as int),
    }
}

/// On how many pages of a group each bin is touched.
pub open spec fn histogram<S: Scalar>(
    boxes: Seq<Seq<Rect<S>>>,
    group: SizeModel<S>,
) -> Seq<usize> {
    let m = measuring_of(boxes, group);
    Seq::new(
        m.bins as nat,
        |bin: int|
            occupancy_of(
                boxes,
                group.pages,
                m.origin,
                m.bins,
                bin,
                group.pages.len() as int,
            ) as usize,
    )
}

/// On how many pages a bin has to be touched.
pub open spec fn threshold_of<S: Scalar>(pages: int, fraction: S) -> usize {
    scalar::count_from(
        scalar::count::<S>(scalar::held(pages)).spec_times(
            fraction,
        ).spec_ceiling().spec_greatest(scalar::one::<S>()).spec_whole() as int,
    ) as usize
}

/// The frames measured for a page group, if there is anything to measure.
pub open spec fn measured_frames<S: Scalar>(
    boxes: Seq<Seq<Rect<S>>>,
    group: SizeModel<S>,
    opts: Options<S>,
) -> Seq<Frame<S>> {
    let m = measuring_of(boxes, group);
    let runs = columns_of(
        histogram(boxes, group),
        threshold_of(m.pages as int, opts.occupancy_fraction),
        opts,
    );
    let evidence = if m.pages > 1 {
        Evidence::Pages(m.pages as usize)
    } else {
        Evidence::SinglePage
    };
    if m.pages == 0 {
        Seq::empty()
    } else {
        column_frames(runs, m.origin, m.boxes, evidence, runs.len() as int)
    }
}

/// Whether a page group falls back to the page box.
pub open spec fn falls_back<S: Scalar>(
    boxes: Seq<Seq<Rect<S>>>,
    group: SizeModel<S>,
    opts: Options<S>,
) -> bool {
    measured_frames(boxes, group, opts).len() == 0
}

/// The frames of a page group.
pub open spec fn group_of<S: Scalar>(
    boxes: Seq<Seq<Rect<S>>>,
    group: SizeModel<S>,
    opts: Options<S>,
) -> GroupModel<S> {
    GroupModel {
        pages: group.pages,
        size: group.size,
        frames: if falls_back(boxes, group, opts) {
            seq![whole_page(measuring_of(boxes, group).page)]
        } else {
            measured_frames(boxes, group, opts)
        },
    }
}

/// The frames of the first `n` page groups.
pub open spec fn groups_of<S: Scalar>(
    boxes: Seq<Seq<Rect<S>>>,
    groups: Seq<SizeModel<S>>,
    opts: Options<S>,
    n: int,
) -> Seq<GroupModel<S>> {
    Seq::new(n as nat, |i: int| group_of(boxes, groups[i], opts))
}

/// How many of the first `n` page groups fall back to the page box.
pub open spec fn fallbacks_of<S: Scalar>(
    boxes: Seq<Seq<Rect<S>>>,
    groups: Seq<SizeModel<S>>,
    opts: Options<S>,
    n: int,
) -> nat
    decreases n,
{
    if n <= 0 {
        0
    } else if falls_back(boxes, groups[n - 1], opts) {
        fallbacks_of(boxes, groups, opts, n - 1) + 1
    } else {
        fallbacks_of(boxes, groups, opts, n - 1)
    }
}

/// How many boxes of the first `n` page groups lie partly or wholly outside
/// their pages.
pub open spec fn strays_of<S: Scalar>(
    boxes: Seq<Seq<Rect<S>>>,
    groups: Seq<SizeModel<S>>,
    n: int,
) -> nat
    decreases n,
{
    if n <= 0 {
        0
    } else {
        let m = measuring_of(boxes, groups[n - 1]);
        strays_of(boxes, groups, n - 1) + outside_count(m.boxes, m.page, m.boxes.len() as int)
    }
}

/// How blocks fit their frames.
pub struct Tally<S> {
    pub considered: nat,
    pub contained: nat,
    pub spanning: nat,
    pub loose: nat,
    pub area: S,
}

/// How many of the first `n` frames a box overlaps by more than a point.
pub open spec fn covers<S: Scalar>(frames: Seq<Frame<S>>, b: Rect<S>, n: int) -> nat
    decreases n,
{
    if n <= 0 {
        0
    } else {
        let f = frames[n - 1].rect;
        if scalar::one::<S>().spec_lt(overlap_of(f.x0, f.x1, b.x0, b.x1)) {
            covers(frames, b, n - 1) + 1
        } else {
            covers(frames, b, n - 1)
        }
    }
}

/// Whether a box lies in a frame, give or take a point.
pub open spec fn fits<S: Scalar>(b: Rect<S>, r: Rect<S>) -> bool {
    let one = scalar::one::<S>();
    r.x0.spec_minus(one).spec_le(b.x0) && b.x1.spec_le(r.x1.spec_plus(one)) && r.y0.spec_minus(
        one,
    ).spec_le(b.y0) && b.y1.spec_le(r.y1.spec_plus(one))
}

/// A tally with one box more. Spanning comes before containment: a block
/// covering two frames is not loose, it is wide.
pub open spec fn tallied<S: Scalar>(t: Tally<S>, frames: Seq<Frame<S>>, b: Rect<S>) -> Tally<S> {
    let n = frames.len() as int;
    let area = t.area.spec_plus(b.spec_width().spec_times(b.spec_height()).spec_magnitude());
    let considered = t.considered + 1;
    if covers(frames, b, n) > 1 {
        Tally { considered, spanning: t.spanning + 1, area, ..t }
    } else if best_frame(frames, b, n) matches Some(x) && fits(b, frames[x.0].rect) {
        Tally { considered, contained: t.contained + 1, area, ..t }
    } else {
        Tally { considered, loose: t.loose + 1, area, ..t }
    }
}

/// A tally with the first `n` boxes of a page more.
pub open spec fn page_tally<S: Scalar>(
    t: Tally<S>,
    frames: Seq<Frame<S>>,
    boxes: Seq<Rect<S>>,
    n: int,
) -> Tally<S>
    decreases n,
{
    if n <= 0 {
        t
    } else {
        tallied(page_tally(t, frames, boxes, n - 1), frames, boxes[n - 1])
    }
}

/// The tally of the first `n` pages.
pub open spec fn tally_of<S: Scalar>(
    groups: Seq<GroupModel<S>>,
    boxes: Seq<Seq<Rect<S>>>,
    n: int,
) -> Tally<S>
    decreases n,
{
    if n <= 0 {
        Tally {
            considered: 0,
            contained: 0,
            spanning: 0,
            loose: 0,
            area: scalar::zero::<S>(),
        }
    } else {
        page_tally(
            tally_of(groups, boxes, n - 1),
            page_frames(groups, (n - 1) as usize),
            boxes[n - 1],
            boxes[n - 1].len() as int,
        )
    }
}

/// An area and that of the first `n` frames, each counted once for each page.
pub open spec fn with_areas<S: Scalar>(area: S, frames: Seq<Frame<S>>, pages: int, n: int) -> S
    decreases n,
{
    if n <= 0 {
        area
    } else {
        let r = frames[n - 1].rect;
        with_areas(area, frames, pages, n - 1).spec_plus(
            r.spec_width().spec_times(r.spec_height()).spec_magnitude().spec_times(
                scalar::count::<S>(scalar::held(pages)),
            ),
        )
    }
}

/// The area of the frames of the first `n` groups.
pub open spec fn area_of<S: Scalar>(groups: Seq<GroupModel<S>>, n: int) -> S
    decreases n,
{
    if n <= 0 {
        scalar::zero::<S>()
    } else {
        let g = groups[n - 1];
        with_areas(
            area_of(groups, n - 1),
            g.frames,
            g.pages.len() as int,
            g.frames.len() as int,
        )
    }
}

/// Frame area over content area; zero for no content.
pub open spec fn tightness_of<S: Scalar>(groups: Seq<GroupModel<S>>, area: S) -> S {
    if scalar::zero::<S>().spec_lt(area) {
        area_of(groups, groups.len() as int).spec_over(area)
    } else {
        scalar::zero::<S>()
    }
}

/// What the inference managed, and what it did not.
///
/// Containment is what fraction of the text landed inside a frame; a frame set
/// that misses a fifth of the document is wrong however plausible its columns
/// look. Tightness is frame area over content area; a single frame the size of
/// the page contains everything and says nothing.
#[derive(Debug, Clone, Copy, PartialEq)]
pub struct Report<S> {
    pub blocks_considered: usize,
    /// Blocks whose rectangle lies inside some frame.
    pub blocks_contained: usize,
    /// Blocks that cover more than one frame: a full-width heading over a
    /// two-column body is meant to span.
    pub blocks_spanning: usize,
    /// Blocks that overlap one frame without fitting inside it, or no frame at
    /// all. The genuine misses.
    pub blocks_loose: usize,
    /// Frame area divided by the area of the blocks.
    pub tightness: S,
    pub groups: usize,
    pub frames: usize,
    /// Page groups that fell back to the page box.
    pub fallbacks: usize,
    /// Blocks lying partly or wholly outside the page box.
    pub blocks_outside_page_box: usize,
}

impl<S: Scalar> Default for Report<S> {
    fn default() -> (r: Self)
        ensures
            r == (Report {
                blocks_considered: 0,
                blocks_contained: 0,
                blocks_spanning: 0,
                blocks_loose: 0,
                tightness: scalar::zero::<S>(),
                groups: 0,
                frames: 0,
                fallbacks: 0,
                blocks_outside_page_box: 0,
            }),
    {
        Report {
            blocks_considered: 0,
            blocks_contained: 0,
            blocks_spanning: 0,
            blocks_loose: 0,
            tightness: scalar::zero_of::<S>(),
            groups: 0,
            frames: 0,
            fallbacks: 0,
            blocks_outside_page_box: 0,
        }
    }
}

/// A part of a whole as a number; all of nothing.
pub open spec fn share_of<S: Scalar>(part: int, whole: int) -> S {
    if whole == 0 {
        scalar::one::<S>()
    } else {
        scalar::count::<S>(scalar::held(part)).spec_over(
            scalar::count::<S>(scalar::held(whole)),
        )
    }
}

impl<S: Scalar> Report<S> {
    /// The fraction of blocks that are placed. Spanning blocks count: they are
    /// where the producer put them, across frames correctly separated.
    pub fn containment(&self) -> (r: S)
        requires
            self.blocks_contained + self.blocks_spanning <= usize::MAX,
        ensures
            r == share_of::<S>(
                self.blocks_contained + self.blocks_spanning,
                self.blocks_considered as int,
            ),
    {
        if self.blocks_considered == 0 {
            return scalar::one_of::<S>();
        }
        scalar::from_count::<S>(self.blocks_contained + self.blocks_spanning).over(
            scalar::from_count::<S>(self.blocks_considered),
        )
    }

    /// Blocks inside exactly one frame, ignoring the ones that span.
    pub fn strict_containment(&self) -> (r: S)
        ensures
            r == share_of::<S>(self.blocks_contained as int, self.blocks_considered as int),
    {
        if self.blocks_considered == 0 {
            return scalar::one_of::<S>();
        }
        scalar::from_count::<S>(self.blocks_contained).over(
            scalar::from_count::<S>(self.blocks_considered),
        )
    }

    /// The report in words, as far as there is anything to say.
    pub open spec fn told(self, percent: Seq<char>, tightness: Seq<char>) -> Seq<Seq<char>> {
        let first = text::decimal_of(self.frames as nat) + " frame(s) in "@ + text::decimal_of(
            self.groups as nat,
        ) + " page group(s); "@ + percent + "% of blocks contained, tightness "@ + tightness;
        let spanning = if self.blocks_spanning > 0 {
            seq![
                text::decimal_of(self.blocks_spanning as nat)
                    + " block(s) span more than one frame"@,
            ]
        } else {
            Seq::empty()
        };
        let loose = if self.blocks_loose > 0 {
            seq![text::decimal_of(self.blocks_loose as nat) + " block(s) fit no frame"@]
        } else {
            Seq::empty()
        };
        let fallbacks = if self.fallbacks > 0 {
            seq![
                text::decimal_of(self.fallbacks as nat)
                    + " page group(s) had no text and fell back to the page box"@,
            ]
        } else {
            Seq::empty()
        };
        seq![first] + spanning + loose + fallbacks
    }

    /// The report in words. The containment in percent and the tightness come
    /// as the caller writes numbers.
    pub fn lines(&self, percent: &str, tightness: &str) -> (r: Vec<String>)
        ensures
            crate::running::text_models(r@) == self.told(percent@, tightness@),
    {
        let mut out: Vec<String> = Vec::new();
        let mut first = text::decimal(self.frames);
        text::append(&mut first, " frame(s) in ");
        text::append(&mut first, &text::decimal(self.groups));
        text::append(&mut first, " page group(s); ");
        text::append(&mut first, percent);
        text::append(&mut first, "% of blocks contained, tightness ");
        text::append(&mut first, tightness);
        out.push(first);
        if self.blocks_spanning > 0 {
            let mut line = text::decimal(self.blocks_spanning);
            text::append(&mut line, " block(s) span more than one frame");
            out.push(line);
        }
        if self.blocks_loose > 0 {
            let mut line = text::decimal(self.blocks_loose);
            text::append(&mut line, " block(s) fit no frame");
            out.push(line);
        }
        if self.fallbacks > 0 {
            let mut line = text::decimal(self.fallbacks);
            text::append(&mut line, " page group(s) had no text and fell back to the page box");
            out.push(line);
        }
        assert(crate::running::text_models(out@) =~= self.told(percent@, tightness@));
        out
    }
}

/// Lists of rectangles, as said.
pub open spec fn rect_lists<S>(v: Seq<Vec<Rect<S>>>) -> Seq<Seq<Rect<S>>> {
    Seq::new(v.len(), |i: int| v[i]@)
}

fn is_body<S: Scalar>(block: &Block<S>, opts: &Options<S>) -> (r: bool)
    ensures
        r == framed(block@, opts.include_tables),
{
    match block {
        Block::Paragraph(_) | Block::Unknown(_) => true,
        Block::Table(_) => opts.include_tables,
        Block::Running(_) | Block::Image(_) | Block::Vector(_) => false,
    }
}

/// The boxes of the blocks that live in frames, page by page.
fn body_boxes<S: Scalar>(pages: &Vec<PageModel<S>>, opts: &Options<S>) -> (r: Vec<Vec<Rect<S>>>)
    ensures
        rect_lists(r@) == boxes_of(model::model_pages(pages@), opts.include_tables),
{
    let ghost models = model::model_pages(pages@);
    let mut out: Vec<Vec<Rect<S>>> = Vec::new();
    let mut p: usize = 0;
    while p < pages.len()
        invariant
            p <= pages@.len(),
            models == model::model_pages(pages@),
            out@.len() == p,
            forall|k: int|
                0 <= k < p ==> (#[trigger] out@[k])@ == boxes_of(models, opts.include_tables)[k],
        decreases pages@.len() - p,
    {
        let page = &pages[p];
        let ghost blocks = models[p as int].flow.blocks;
        assert(blocks == model::block_views(page.blocks@));
        let mut own: Vec<Rect<S>> = Vec::new();
        let mut i: usize = 0;
        while i < page.blocks.len()
            invariant
                i <= page.blocks@.len(),
                blocks == model::block_views(page.blocks@),
                own@ == framed_boxes(blocks, opts.include_tables, i as int),
            decreases page.blocks@.len() - i,
        {
            assert(blocks[i as int] == page.blocks@[i as int]@);
            if is_body(&page.blocks[i], opts) {
                own.push(page.blocks[i].bbox());
            }
            i += 1;
        }
        out.push(own);
        p += 1;
    }
    assert(rect_lists(out@) =~= boxes_of(models, opts.include_tables));
    out
}

/// The page's own bounds: the crop box where it has one, the media box
/// otherwise.
fn page_box<S: Scalar>(page: &PageModel<S>) -> (r: Rect<S>)
    ensures
        r == bounds_of(page.media_box, page.crop_box),
{
    let zero = scalar::zero_of::<S>();
    if zero.lt(page.crop_box.width().magnitude()) && zero.lt(page.crop_box.height().magnitude()) {
        page.crop_box
    } else {
        page.media_box
    }
}

spec fn size_model<S>(g: ((S, S), Vec<usize>)) -> SizeModel<S> {
    SizeModel { size: g.0, pages: g.1@ }
}

spec fn size_models<S>(v: Seq<((S, S), Vec<usize>)>) -> Seq<SizeModel<S>> {
    Seq::new(v.len(), |i: int| size_model(v[i]))
}

/// Pages that share a size, in page order. Rounded to the point: a producer that
/// writes 611.976 on one page and 612 on another means the same size.
fn group_by_size<S: Scalar>(pages: &Vec<PageModel<S>>) -> (r: Vec<((S, S), Vec<usize>)>)
    ensures
        size_models(r@) == sizes_of(model::model_pages(pages@), pages@.len() as int),
{
    let ghost models = model::model_pages(pages@);
    let mut groups: Vec<((S, S), Vec<usize>)> = Vec::new();
    let mut p: usize = 0;
    assert(size_models(groups@) =~= sizes_of(models, 0));
    while p < pages.len()
        invariant
            p <= pages@.len(),
            models == model::model_pages(pages@),
            size_models(groups@) == sizes_of(models, p as int),
        decreases pages@.len() - p,
    {
        assert(models[p as int] == pages@[p as int]@);
        let b = page_box(&pages[p]);
        let size = (b.width().magnitude().nearest(), b.height().magnitude().nearest());
        let ghost before = groups@;
        let ghost list = size_models(groups@);
        let mut k: usize = 0;
        while k < groups.len() && !(groups[k].0.0.same(size.0) && groups[k].0.1.same(size.1))
            invariant
                k <= groups@.len(),
                groups@ == before,
                list == size_models(groups@),
                sized_at(list, size, 0) == sized_at(list, size, k as int),
            ensures
                k <= groups@.len(),
                groups@ == before,
                sized_at(list, size, 0) == sized_at(list, size, k as int),
                k < groups@.len() ==> same_size(list[k as int].size, size),
            decreases groups@.len() - k,
        {
            assert(list[k as int].size == groups@[k as int].0);
            k += 1;
        }
        if k < groups.len() {
            groups[k].1.push(p);
            assert(size_models(groups@) =~= sizes_of(models, p + 1));
        } else {
            let mut one: Vec<usize> = Vec::new();
            one.push(p);
            assert(one@ =~= seq![p]);
            groups.push((size, one));
            assert(size_models(groups@) =~= sizes_of(models, p + 1));
        }
        p += 1;
    }
    groups
}

fn bin_range<S: Scalar>(rect: &Rect<S>, origin: S, bins: usize) -> (r: (usize, usize))
    ensures
        (r.0 as int, r.1 as int) == bins_of(*rect, origin, bins as int),
        r.0 <= bins,
        r.1 <= bins,
{
    let zero = scalar::zero_of::<S>();
    let from: usize = scalar::to_count(rect.x0.minus(origin).greatest(zero).floor());
    let to: usize = scalar::to_count(rect.x1.minus(origin).greatest(zero).ceiling());
    (
        if from < bins {
            from
        } else {
            bins
        },
        if to < bins {
            to
        } else {
            bins
        },
    )
}

/// Which bins the boxes of a page touch.
fn touch<S: Scalar>(boxes: &Vec<Rect<S>>, origin: S, bins: usize) -> (r: Vec<bool>)
    ensures
        r@.len() == bins,
        forall|bin: int|
            0 <= bin < bins ==> #[trigger] r@[bin] == touched(
                boxes@,
                origin,
                bins as int,
                bin,
                boxes@.len() as int,
            ),
{
    let mut seen: Vec<bool> = Vec::new();
    let mut i: usize = 0;
    while i < bins
        invariant
            i <= bins,
            seen@.len() == i,
            forall|bin: int| 0 <= bin < i ==> !#[trigger] seen@[bin],
        decreases bins - i,
    {
        seen.push(false);
        i += 1;
    }
    let mut k: usize = 0;
    while k < boxes.len()
        invariant
            k <= boxes@.len(),
            seen@.len() == bins,
            forall|bin: int|
                0 <= bin < bins ==> #[trigger] seen@[bin] == touched(
                    boxes@,
                    origin,
                    bins as int,
                    bin,
                    k as int,
                ),
        decreases boxes@.len() - k,
    {
        let (from, to): (usize, usize) = bin_range(&boxes[k], origin, bins);
        let ghost before = seen@;
        let mut b: usize = from;
        while b < to
            invariant
                b <= to || b == from,
                from <= b,
                to <= bins,
                seen@.len() == bins,
                before.len() == bins,
                forall|bin: int|
                    0 <= bin < bins ==> #[trigger] seen@[bin] == (before[bin] || from <= bin < b),
            decreases to - b,
        {
            seen.set(b, true);
            b += 1;
        }
        assert forall|bin: int| 0 <= bin < bins implies #[trigger] seen@[bin] == touched(
            boxes@,
            origin,
            bins as int,
            bin,
            k + 1,
        ) by {
            assert(before[bin] == touched(boxes@, origin, bins as int, bin, k as int));
        }
        k += 1;
    }
    seen
}

/// On how many pages each bin is touched.
fn count_bins<S: Scalar>(
    boxes: &Vec<Vec<Rect<S>>>,
    pages: &Vec<usize>,
    origin: S,
    bins: usize,
) -> (r: Vec<usize>)
    requires
        forall|k: int| 0 <= k < pages@.len() ==> (#[trigger] pages@[k]) < boxes@.len(),
    ensures
        r@ == Seq::new(
            bins as nat,
            |bin: int|
                occupancy_of(
                    rect_lists(boxes@),
                    pages@,
                    origin,
                    bins as int,
                    bin,
                    pages@.len() as int,
                ) as usize,
        ),
{
    let ghost lists = rect_lists(boxes@);
    let mut out: Vec<usize> = Vec::new();
    let mut i: usize = 0;
    while i < bins
        invariant
            i <= bins,
            out@.len() == i,
            forall|bin: int| 0 <= bin < i ==> #[trigger] out@[bin] == 0,
        decreases bins - i,
    {
        out.push(0);
        i += 1;
    }
    let total: usize = pages.len();
    let mut p: usize = 0;
    while p < total
        invariant
            p <= total,
            total == pages@.len(),
            lists == rect_lists(boxes@),
            forall|k: int| 0 <= k < pages@.len() ==> (#[trigger] pages@[k]) < boxes@.len(),
            out@.len() == bins,
            forall|bin: int|
                0 <= bin < bins ==> #[trigger] out@[bin] == occupancy_of(
                    lists,
                    pages@,
                    origin,
                    bins as int,
                    bin,
                    p as int,
                ) && out@[bin] <= p,
        decreases pages@.len() - p,
    {
        let page: usize = pages[p];
        assert(lists[page as int] == boxes@[page as int]@);
        let seen = touch(&boxes[page], origin, bins);
        let ghost before = out@;
        let mut b: usize = 0;
        while b < bins
            invariant
                b <= bins,
                p < total,
                before.len() == bins,
                out@.len() == bins,
                seen@.len() == bins,
                forall|bin: int| 0 <= bin < bins ==> (#[trigger] before[bin]) <= p,
                forall|bin: int|
                    0 <= bin < bins ==> #[trigger] out@[bin] == before[bin] + if bin < b
                        && seen@[bin] {
                        1int
                    } else {
                        0int
                    },
            decreases bins - b,
        {
            if seen[b] {
                assert(before[b as int] <= p);
                out.set(b, out[b] + 1);
            }
            b += 1;
        }
        assert forall|bin: int| 0 <= bin < bins implies #[trigger] out@[bin] == occupancy_of(
            lists,
            pages@,
            origin,
            bins as int,
            bin,
            p + 1,
        ) && out@[bin] <= p + 1 by {
            assert(before[bin] == occupancy_of(
                lists,
                pages@,
                origin,
                bins as int,
                bin,
                p as int,
            ));
            assert(seen@[bin] == touched(
                boxes@[page as int]@,
                origin,
                bins as int,
                bin,
                boxes@[page as int]@.len() as int,
            ));
        }
        p += 1;
    }
    assert(out@ =~= Seq::new(
        bins as nat,
        |bin: int|
            occupancy_of(lists, pages@, origin, bins as int, bin, pages@.len() as int) as usize,
    ));
    out
}

fn distance(a: (usize, usize), b: (usize, usize)) -> (r: usize)
    ensures
        r == gap_between(a, b),
{
    if b.0 > a.1 {
        b.0 - a.1
    } else {
        0
    }
}

fn fold_at(runs: &mut Vec<(usize, usize)>, i: usize)
    requires
        i < old(runs)@.len(),
        2 <= old(runs)@.len(),
    ensures
        final(runs)@ == folded_at(old(runs)@, i as int),
        final(runs)@.len() == old(runs)@.len() - 1,
{
    let ghost before = runs@;
    let n: usize = runs.len();
    let here = runs[i];
    let left = if i > 0 {
        if i + 1 >= n {
            true
        } else {
            distance(runs[i - 1], here) <= distance(here, runs[i + 1])
        }
    } else {
        false
    };
    if left {
        let kept: usize = runs[i - 1].0;
        runs.set(i - 1, (kept, here.1));
    } else {
        let kept: usize = runs[i + 1].1;
        runs.set(i + 1, (here.0, kept));
    }
    runs.remove(i);
    assert(runs@ =~= folded_at(before, i as int));
}

/// Runs of occupied bins, merged across narrow gaps, fragments folded into their
/// neighbours.
fn columns<S: Scalar>(occupancy: &Vec<usize>, threshold: usize, opts: &Options<S>) -> (r: Vec<
    (usize, usize),
>)
    ensures
        r@ == columns_of(occupancy@, threshold, *opts),
{
    let n: usize = occupancy.len();
    let mut runs: Vec<(usize, usize)> = Vec::new();
    let mut start: Option<usize> = None;
    let mut i: usize = 0;
    while i < n
        invariant
            i <= n,
            n == occupancy@.len(),
            runs@ == occupied(occupancy@, threshold, i as int).done,
            start == occupied(occupancy@, threshold, i as int).start,
        decreases n - i,
    {
        if occupancy[i] >= threshold {
            if start.is_none() {
                start = Some(i);
            }
        } else {
            if let Some(from) = start {
                runs.push((from, i));
                start = None;
            }
        }
        i += 1;
    }
    if let Some(from) = start {
        runs.push((from, n));
    }
    assert(runs@ == runs_of(occupancy@, threshold));

    let gutter: usize = scalar::to_count(opts.min_gutter.nearest());
    let mut out: Vec<(usize, usize)> = Vec::new();
    let mut i: usize = 0;
    while i < runs.len()
        invariant
            i <= runs@.len(),
            out@ == merged(runs@, gutter, i as int),
        decreases runs@.len() - i,
    {
        let run = runs[i];
        let m: usize = out.len();
        if m > 0 && distance(out[m - 1], run) < gutter {
            let from: usize = out[m - 1].0;
            out.set(m - 1, (from, run.1));
        } else {
            out.push(run);
        }
        i += 1;
    }

    let width: usize = scalar::to_count(opts.min_column_width.nearest());
    let ghost all = out@;
    let mut done = false;
    while !done
        invariant
            folded(all, width) == folded(out@, width),
            done ==> folded(out@, width) == out@,
        decreases out@.len() + if done { 0nat } else { 1nat },
    {
        let mut k: usize = 0;
        while k < out.len() && !(out[k].1 < out[k].0 || out[k].1 - out[k].0 < width)
            invariant
                k <= out@.len(),
                narrow_from(out@, width, 0) == narrow_from(out@, width, k as int),
            decreases out@.len() - k,
        {
            k += 1;
        }
        if out.len() < 2 || k >= out.len() {
            done = true;
        } else {
            fold_at(&mut out, k);
        }
    }
    out
}

/// The column that a box belongs to, by largest overlap.
fn best_column<S: Scalar>(runs: &Vec<(usize, usize)>, origin: S, rect: &Rect<S>) -> (r: Option<
    usize,
>)
    ensures
        match r {
            Some(i) => best_run(runs@, origin, *rect, runs@.len() as int) matches Some(x) && x.0
                == i,
            None => best_run(runs@, origin, *rect, runs@.len() as int) is None,
        },
{
    let mut best: Option<(usize, S)> = None;
    let mut i: usize = 0;
    while i < runs.len()
        invariant
            i <= runs@.len(),
            match best {
                Some(b) => best_run(runs@, origin, *rect, i as int) == Some((b.0 as int, b.1)),
                None => best_run(runs@, origin, *rect, i as int) is None,
            },
        decreases runs@.len() - i,
    {
        let o = measure_overlap(runs[i], origin, rect);
        if scalar::zero_of::<S>().lt(o) {
            let keep = match best {
                Some(b) => o.lt(b.1),
                None => false,
            };
            if !keep {
                best = Some((i, o));
            }
        }
        i += 1;
    }
    match best {
        Some(b) => Some(b.0),
        None => None,
    }
}

fn edge<S: Scalar>(origin: S, bin: usize) -> (r: S)
    ensures
        r == edge_at(origin, bin),
{
    origin.plus(scalar::from_count::<S>(bin))
}

fn measure_overlap<S: Scalar>(run: (usize, usize), origin: S, rect: &Rect<S>) -> (r: S)
    ensures
        r == run_overlap(run, origin, *rect),
{
    overlap(edge(origin, run.0), edge(origin, run.1), rect.x0, rect.x1)
}

/// The frames of the columns that have boxes.
fn frame_columns<S: Scalar>(
    runs: &Vec<(usize, usize)>,
    origin: S,
    boxes: &Vec<Rect<S>>,
    evidence: Evidence,
) -> (r: Vec<Frame<S>>)
    ensures
        r@ == column_frames(runs@, origin, boxes@, evidence, runs@.len() as int),
{
    let mut out: Vec<Frame<S>> = Vec::new();
    let mut c: usize = 0;
    while c < runs.len()
        invariant
            c <= runs@.len(),
            out@ == column_frames(runs@, origin, boxes@, evidence, c as int),
        decreases runs@.len() - c,
    {
        let run = runs[c];
        let mut top: S = S::highest();
        let mut bottom: S = S::lowest();
        let mut count: usize = 0;
        let mut i: usize = 0;
        while i < boxes.len()
            invariant
                i <= boxes@.len(),
                c < runs@.len(),
                run == runs@[c as int],
                count <= i,
                ({
                    let e = extent_of(runs@, origin, boxes@, c as int, i as int);
                    top == e.top && bottom == e.bottom && count == e.count
                }),
            decreases boxes@.len() - i,
        {
            let b = &boxes[i];
            if !measure_overlap(run, origin, b).le(scalar::zero_of::<S>()) {
                let mine = match best_column(runs, origin, b) {
                    Some(k) => k == c,
                    None => false,
                };
                if mine {
                    top = top.least(b.y0);
                    bottom = bottom.greatest(b.y1);
                    count += 1;
                }
            }
            i += 1;
        }
        if count > 0 && top.finite() && bottom.finite() {
            out.push(
                Frame {
                    rect: Rect::new(edge(origin, run.0), top, edge(origin, run.1), bottom),
                    column: c,
                    blocks: count,
                    evidence,
                },
            );
        }
        c += 1;
    }
    out
}

/// How many boxes the first `n` pages have.
pub open spec fn box_total<S>(boxes: Seq<Seq<Rect<S>>>, n: int) -> nat
    decreases n,
{
    if n <= 0 {
        0
    } else {
        box_total(boxes, n - 1) + boxes[n - 1].len()
    }
}

fn infer_group<S: Scalar>(
    boxes: &Vec<Vec<Rect<S>>>,
    size: (S, S),
    pages: Vec<usize>,
    opts: &Options<S>,
) -> (r: (PageGroup<S>, usize, bool))
    requires
        forall|k: int| 0 <= k < pages@.len() ==> (#[trigger] pages@[k]) < boxes@.len(),
    ensures
        ({
            let lists = rect_lists(boxes@);
            let group = SizeModel { size, pages: pages@ };
            let m = measuring_of(lists, group);
            &&& r.0@ == group_of(lists, group, *opts)
            &&& r.1 == outside_count(m.boxes, m.page, m.boxes.len() as int)
            &&& r.2 == falls_back(lists, group, *opts)
        }),
{
    let ghost lists = rect_lists(boxes@);
    let ghost group = SizeModel { size, pages: pages@ };
    let ghost m = measuring_of(lists, group);
    let zero = scalar::zero_of::<S>();
    let page = Rect::new(zero, zero, size.0, size.1);

    // Content outside the page box is content a reader cannot see, and a model
    // that omits it is still wrong about what is there.
    let mut all: Vec<Rect<S>> = Vec::new();
    let mut measured_pages: usize = 0;
    let mut p: usize = 0;
    while p < pages.len()
        invariant
            p <= pages@.len(),
            lists == rect_lists(boxes@),
            forall|k: int| 0 <= k < pages@.len() ==> (#[trigger] pages@[k]) < boxes@.len(),
            all@ == boxes_on(lists, pages@, p as int),
            measured_pages == measured(lists, pages@, p as int),
            measured_pages <= p,
        decreases pages@.len() - p,
    {
        let own = &boxes[pages[p]];
        assert(lists[pages@[p as int] as int] == own@);
        if own.len() > 0 {
            measured_pages += 1;
        }
        let ghost before = all@;
        let mut i: usize = 0;
        assert(all@ =~= before + own@.take(0));
        while i < own.len()
            invariant
                i <= own@.len(),
                all@ == before + own@.take(i as int),
            decreases own@.len() - i,
        {
            all.push(own[i]);
            i += 1;
            assert(all@ =~= before + own@.take(i as int));
        }
        assert(own@.take(i as int) =~= own@);
        p += 1;
    }
    let mut domain = page;
    let mut strays: usize = 0;
    let mut i: usize = 0;
    while i < all.len()
        invariant
            i <= all@.len(),
            strays <= i,
            strays == outside_count(all@, page, i as int),
            domain == spanned(page, all@, i as int),
        decreases all@.len() - i,
    {
        let b = &all[i];
        if b.x0.lt(page.x0) || page.x1.lt(b.x1) || b.y0.lt(page.y0) || page.y1.lt(b.y1) {
            strays += 1;
        }
        domain = domain.union(b);
        i += 1;
    }
    assert(all@ == m.boxes);
    assert(page == m.page);

    let mut frames: Vec<Frame<S>> = Vec::new();
    if measured_pages > 0 {
        let wide: usize = scalar::to_count(domain.width().ceiling());
        let bins: usize = if wide < 1 {
            1
        } else {
            wide
        };
        assert(bins == m.bins);
        let occupancy = count_bins(boxes, &pages, domain.x0, bins);
        assert(occupancy@ =~= histogram(lists, group));
        let threshold: usize = scalar::to_count(
            scalar::from_count::<S>(measured_pages).times(
                opts.occupancy_fraction,
            ).ceiling().greatest(scalar::one_of::<S>()),
        );
        let runs = columns(&occupancy, threshold, opts);
        let evidence = if measured_pages > 1 {
            Evidence::Pages(measured_pages)
        } else {
            Evidence::SinglePage
        };
        frames = frame_columns(&runs, domain.x0, &all, evidence);
    }
    assert(frames@ =~= measured_frames(lists, group, *opts));
    let fell_back = frames.len() == 0;
    if fell_back {
        frames.push(Frame { rect: page, column: 0, blocks: 0, evidence: Evidence::PageBox });
        assert(frames@ =~= seq![whole_page(page)]);
    }
    let r = PageGroup { pages, size, frames };
    assert(r@ =~= group_of(lists, group, *opts));
    (r, strays, fell_back)
}

/// How the blocks of a document fit its frames.
struct Score<S> {
    considered: usize,
    contained: usize,
    spanning: usize,
    loose: usize,
    area: S,
}

spec fn score_right<S>(s: Score<S>, t: Tally<S>) -> bool {
    &&& s.considered == t.considered
    &&& s.contained == t.contained
    &&& s.spanning == t.spanning
    &&& s.loose == t.loose
    &&& s.area == t.area
}

fn score_box<S: Scalar>(s: &mut Score<S>, set: &FrameSet<S>, page: usize, b: &Rect<S>, Ghost(
    t,
): Ghost<Tally<S>>)
    requires
        score_right(*old(s), t),
        old(s).considered < usize::MAX,
        old(s).contained < usize::MAX,
        old(s).spanning < usize::MAX,
        old(s).loose < usize::MAX,
    ensures
        score_right(*final(s), tallied(t, page_frames(set@, page), *b)),
{
    s.considered = s.considered + 1;
    s.area = s.area.plus(b.width().times(b.height()).magnitude());
    let frames = set.frames_for(page);
    let mut covered: usize = 0;
    let mut i: usize = 0;
    while i < frames.len()
        invariant
            i <= frames@.len(),
            covered <= i,
            covered == covers(frames@, *b, i as int),
        decreases frames@.len() - i,
    {
        let f = &frames[i].rect;
        if scalar::one_of::<S>().lt(overlap(f.x0, f.x1, b.x0, b.x1)) {
            covered += 1;
        }
        i += 1;
    }
    if covered > 1 {
        s.spanning = s.spanning + 1;
    } else {
        // A small tolerance: a frame's edge comes from a bin boundary and a
        // block's from a glyph's advance.
        let inside = match set.frame_for(page, *b) {
            Some(frame) => {
                let r = &frame.rect;
                let one = scalar::one_of::<S>();
                r.x0.minus(one).le(b.x0) && b.x1.le(r.x1.plus(one)) && r.y0.minus(one).le(b.y0)
                    && b.y1.le(r.y1.plus(one))
            },
            None => false,
        };
        if inside {
            s.contained = s.contained + 1;
        } else {
            s.loose = s.loose + 1;
        }
    }
}

proof fn lemma_tally_counts<S: Scalar>(
    groups: Seq<GroupModel<S>>,
    boxes: Seq<Seq<Rect<S>>>,
    n: int,
)
    requires
        0 <= n <= boxes.len(),
    ensures
        tally_of(groups, boxes, n).considered == box_total(boxes, n),
        tally_of(groups, boxes, n).considered == tally_of(groups, boxes, n).contained + tally_of(
            groups,
            boxes,
            n,
        ).spanning + tally_of(groups, boxes, n).loose,
    decreases n,
{
    if n > 0 {
        lemma_tally_counts(groups, boxes, n - 1);
        lemma_page_tally(
            tally_of(groups, boxes, n - 1),
            page_frames(groups, (n - 1) as usize),
            boxes[n - 1],
            boxes[n - 1].len() as int,
        );
    }
}

proof fn lemma_page_tally<S: Scalar>(
    t: Tally<S>,
    frames: Seq<Frame<S>>,
    boxes: Seq<Rect<S>>,
    n: int,
)
    requires
        0 <= n <= boxes.len(),
        t.considered == t.contained + t.spanning + t.loose,
    ensures
        ({
            let after = page_tally(t, frames, boxes, n);
            &&& after.considered == t.considered + n
            &&& after.considered == after.contained + after.spanning + after.loose
        }),
    decreases n,
{
    if n > 0 {
        lemma_page_tally(t, frames, boxes, n - 1);
    }
}

proof fn lemma_box_total_rises<S>(boxes: Seq<Seq<Rect<S>>>, a: int, b: int)
    requires
        a <= b,
    ensures
        box_total(boxes, a) <= box_total(boxes, b),
    decreases b,
{
    if a < b && b > 0 {
        lemma_box_total_rises(boxes, a, b - 1);
    }
}

/// Containment and tightness, over every body block in the document.
fn score<S: Scalar>(boxes: &Vec<Vec<Rect<S>>>, set: &FrameSet<S>) -> (r: (Score<S>, S))
    requires
        box_total(rect_lists(boxes@), boxes@.len() as int) <= usize::MAX,
    ensures
        ({
            let t = tally_of(set@, rect_lists(boxes@), boxes@.len() as int);
            score_right(r.0, t) && r.1 == tightness_of(set@, t.area)
        }),
{
    let ghost lists = rect_lists(boxes@);
    let mut s = Score {
        considered: 0,
        contained: 0,
        spanning: 0,
        loose: 0,
        area: scalar::zero_of::<S>(),
    };
    let mut p: usize = 0;
    while p < boxes.len()
        invariant
            p <= boxes@.len(),
            lists == rect_lists(boxes@),
            box_total(lists, boxes@.len() as int) <= usize::MAX,
            score_right(s, tally_of(set@, lists, p as int)),
        decreases boxes@.len() - p,
    {
        let own = &boxes[p];
        assert(lists[p as int] == own@);
        let ghost before = tally_of(set@, lists, p as int);
        let ghost frames = page_frames(set@, p);
        proof {
            lemma_tally_counts(set@, lists, p as int);
            lemma_box_total_rises(lists, p + 1, lists.len() as int);
        }
        let mut i: usize = 0;
        while i < own.len()
            invariant
                i <= own@.len(),
                frames == page_frames(set@, p),
                before.considered == before.contained + before.spanning + before.loose,
                before.considered + own@.len() <= usize::MAX,
                score_right(s, page_tally(before, frames, own@, i as int)),
            decreases own@.len() - i,
        {
            proof {
                lemma_page_tally(before, frames, own@, i as int);
            }
            score_box(
                &mut s,
                set,
                p,
                &own[i],
                Ghost(page_tally(before, frames, own@, i as int)),
            );
            i += 1;
        }
        p += 1;
    }
    let zero = scalar::zero_of::<S>();
    let mut area: S = zero;
    let mut k: usize = 0;
    while k < set.groups.len()
        invariant
            k <= set.groups@.len(),
            area == area_of(set@, k as int),
        decreases set.groups@.len() - k,
    {
        let g = &set.groups[k];
        assert(set@[k as int] == g@);
        let ghost before = area;
        let pages = scalar::from_count::<S>(g.pages.len());
        let mut i: usize = 0;
        while i < g.frames.len()
            invariant
                i <= g.frames@.len(),
                pages == scalar::count::<S>(scalar::held(g.pages@.len() as int)),
                area == with_areas(before, g.frames@, g.pages@.len() as int, i as int),
            decreases g.frames@.len() - i,
        {
            let r = &g.frames[i].rect;
            area = area.plus(r.width().times(r.height()).magnitude().times(pages));
            i += 1;
        }
        k += 1;
    }
    let tightness = if zero.lt(s.area) {
        area.over(s.area)
    } else {
        zero
    };
    (s, tightness)
}

spec fn pages_within<S>(groups: Seq<SizeModel<S>>, n: int) -> bool {
    forall|g: int, k: int|
        #![trigger groups[g].pages[k]]
        0 <= g < groups.len() && 0 <= k < groups[g].pages.len() ==> groups[g].pages[k] < n
}

spec fn grouped_total<S>(boxes: Seq<Seq<Rect<S>>>, groups: Seq<SizeModel<S>>, n: int) -> nat
    decreases n,
{
    if n <= 0 {
        0
    } else {
        grouped_total(boxes, groups, n - 1) + boxes_on(
            boxes,
            groups[n - 1].pages,
            groups[n - 1].pages.len() as int,
        ).len()
    }
}

proof fn lemma_sized_at<S: Scalar>(groups: Seq<SizeModel<S>>, size: (S, S), from: int)
    requires
        0 <= from <= groups.len(),
    ensures
        from <= sized_at(groups, size, from) <= groups.len(),
    decreases groups.len() - from,
{
    if from < groups.len() && !same_size(groups[from].size, size) {
        lemma_sized_at(groups, size, from + 1);
    }
}

proof fn lemma_boxes_prefix<S>(
    boxes: Seq<Seq<Rect<S>>>,
    pages: Seq<usize>,
    page: usize,
    n: int,
)
    requires
        0 <= n <= pages.len(),
    ensures
        boxes_on(boxes, pages.push(page), n) == boxes_on(boxes, pages, n),
    decreases n,
{
    if n > 0 {
        lemma_boxes_prefix(boxes, pages, page, n - 1);
        assert(pages.push(page)[n - 1] == pages[n - 1]);
    }
}

proof fn lemma_grouped_update<S>(
    boxes: Seq<Seq<Rect<S>>>,
    groups: Seq<SizeModel<S>>,
    k: int,
    x: SizeModel<S>,
    n: int,
)
    requires
        0 <= k < groups.len(),
        0 <= n <= groups.len(),
    ensures
        grouped_total(boxes, groups.update(k, x), n) + (if k < n {
            boxes_on(boxes, groups[k].pages, groups[k].pages.len() as int).len()
        } else {
            0
        }) == grouped_total(boxes, groups, n) + (if k < n {
            boxes_on(boxes, x.pages, x.pages.len() as int).len()
        } else {
            0
        }),
    decreases n,
{
    if n > 0 {
        lemma_grouped_update(boxes, groups, k, x, n - 1);
    }
}

proof fn lemma_grouped_push<S>(
    boxes: Seq<Seq<Rect<S>>>,
    groups: Seq<SizeModel<S>>,
    x: SizeModel<S>,
    n: int,
)
    requires
        0 <= n <= groups.len(),
    ensures
        grouped_total(boxes, groups.push(x), n) == grouped_total(boxes, groups, n),
    decreases n,
{
    if n > 0 {
        lemma_grouped_push(boxes, groups, x, n - 1);
        assert(groups.push(x)[n - 1] == groups[n - 1]);
    }
}

proof fn lemma_sizes<S: Scalar>(pages: Seq<ModelPage<S>>, boxes: Seq<Seq<Rect<S>>>, n: int)
    requires
        0 <= n <= pages.len() <= usize::MAX,
        boxes.len() == pages.len(),
    ensures
        sizes_of(pages, n).len() <= n,
        pages_within(sizes_of(pages, n), n),
        grouped_total(boxes, sizes_of(pages, n), sizes_of(pages, n).len() as int) == box_total(
            boxes,
            n,
        ),
    decreases n,
{
    if n > 0 {
        lemma_sizes(pages, boxes, n - 1);
        let groups = sizes_of(pages, n - 1);
        let size = size_of(pages[n - 1]);
        let k = sized_at(groups, size, 0);
        let page = (n - 1) as usize;
        let after = sizes_of(pages, n);
        lemma_sized_at(groups, size, 0);
        if k < groups.len() {
            let x = SizeModel { size: groups[k].size, pages: groups[k].pages.push(page) };
            let m = groups[k].pages.len() as int;
            lemma_grouped_update(boxes, groups, k, x, groups.len() as int);
            lemma_boxes_prefix(boxes, groups[k].pages, page, m);
            assert(x.pages[m] == page);
            assert forall|g: int, j: int|
                #![trigger after[g].pages[j]]
                0 <= g < after.len() && 0 <= j < after[g].pages.len() implies after[g].pages[j]
                < n by {
                if g == k {
                    if j < m {
                        assert(groups[k].pages[j] < n - 1);
                    }
                } else {
                    assert(groups[g].pages[j] < n - 1);
                }
            }
        } else {
            let x = SizeModel { size, pages: seq![page] };
            lemma_grouped_push(boxes, groups, x, groups.len() as int);
            assert(boxes_on(boxes, x.pages, 0) =~= Seq::empty());
            assert(boxes_on(boxes, x.pages, 1) =~= boxes[page as int]);
            assert forall|g: int, j: int|
                #![trigger after[g].pages[j]]
                0 <= g < after.len() && 0 <= j < after[g].pages.len() implies after[g].pages[j]
                < n by {
                if g < groups.len() {
                    assert(groups[g].pages[j] < n - 1);
                }
            }
        }
    }
}

spec fn column_sum<S: Scalar>(
    runs: Seq<(usize, usize)>,
    origin: S,
    boxes: Seq<Rect<S>>,
    c: int,
    n: int,
) -> nat
    decreases c,
{
    if c <= 0 {
        0
    } else {
        column_sum(runs, origin, boxes, c - 1, n) + extent_of(
            runs,
            origin,
            boxes,
            c - 1,
            n,
        ).count
    }
}

proof fn lemma_column_step<S: Scalar>(
    runs: Seq<(usize, usize)>,
    origin: S,
    boxes: Seq<Rect<S>>,
    c: int,
    n: int,
)
    requires
        0 <= c <= runs.len(),
        0 < n <= boxes.len(),
    ensures
        column_sum(runs, origin, boxes, c, n) <= column_sum(runs, origin, boxes, c, n - 1) + 1,
        !(best_run(runs, origin, boxes[n - 1], runs.len() as int) matches Some(x) && x.0 < c)
            ==> column_sum(runs, origin, boxes, c, n) == column_sum(runs, origin, boxes, c, n - 1),
    decreases c,
{
    if c > 0 {
        lemma_column_step(runs, origin, boxes, c - 1, n);
    }
}

proof fn lemma_column_sum<S: Scalar>(
    runs: Seq<(usize, usize)>,
    origin: S,
    boxes: Seq<Rect<S>>,
    c: int,
    n: int,
)
    requires
        0 <= c <= runs.len(),
        0 <= n <= boxes.len(),
    ensures
        column_sum(runs, origin, boxes, c, n) <= n,
    decreases n, c,
{
    if n > 0 {
        lemma_column_sum(runs, origin, boxes, c, n - 1);
        lemma_column_step(runs, origin, boxes, c, n);
    } else if c > 0 {
        lemma_column_sum(runs, origin, boxes, c - 1, n);
    }
}

proof fn lemma_column_frames<S: Scalar>(
    runs: Seq<(usize, usize)>,
    origin: S,
    boxes: Seq<Rect<S>>,
    evidence: Evidence,
    c: int,
)
    requires
        0 <= c <= runs.len(),
    ensures
        column_frames(runs, origin, boxes, evidence, c).len() <= column_sum(
            runs,
            origin,
            boxes,
            c,
            boxes.len() as int,
        ),
    decreases c,
{
    if c > 0 {
        lemma_column_frames(runs, origin, boxes, evidence, c - 1);
    }
}

proof fn lemma_group_frames<S: Scalar>(
    boxes: Seq<Seq<Rect<S>>>,
    group: SizeModel<S>,
    opts: Options<S>,
)
    ensures
        group_of(boxes, group, opts).frames.len() <= boxes_on(
            boxes,
            group.pages,
            group.pages.len() as int,
        ).len() + 1,
{
    let m = measuring_of(boxes, group);
    let runs = columns_of(
        histogram(boxes, group),
        threshold_of(m.pages as int, opts.occupancy_fraction),
        opts,
    );
    let evidence = if m.pages > 1 {
        Evidence::Pages(m.pages as usize)
    } else {
        Evidence::SinglePage
    };
    lemma_column_frames(runs, m.origin, m.boxes, evidence, runs.len() as int);
    lemma_column_sum(runs, m.origin, m.boxes, runs.len() as int, m.boxes.len() as int);
}

proof fn lemma_frame_total<S: Scalar>(
    boxes: Seq<Seq<Rect<S>>>,
    groups: Seq<SizeModel<S>>,
    opts: Options<S>,
    n: int,
)
    requires
        0 <= n <= groups.len(),
    ensures
        frames_in(groups_of(boxes, groups, opts, groups.len() as int), n) <= grouped_total(
            boxes,
            groups,
            n,
        ) + n,
    decreases n,
{
    if n > 0 {
        lemma_frame_total(boxes, groups, opts, n - 1);
        lemma_group_frames(boxes, groups[n - 1], opts);
    }
}

proof fn lemma_strays<S: Scalar>(
    boxes: Seq<Seq<Rect<S>>>,
    groups: Seq<SizeModel<S>>,
    n: int,
)
    requires
        0 <= n <= groups.len(),
    ensures
        strays_of(boxes, groups, n) <= grouped_total(boxes, groups, n),
    decreases n,
{
    if n > 0 {
        lemma_strays(boxes, groups, n - 1);
        let m = measuring_of(boxes, groups[n - 1]);
        lemma_outside(m.boxes, m.page, m.boxes.len() as int);
    }
}

proof fn lemma_outside<S: Scalar>(boxes: Seq<Rect<S>>, page: Rect<S>, n: int)
    requires
        0 <= n,
    ensures
        outside_count(boxes, page, n) <= n,
    decreases n,
{
    if n > 0 {
        lemma_outside(boxes, page, n - 1);
    }
}

proof fn lemma_grouped_rises<S>(
    boxes: Seq<Seq<Rect<S>>>,
    groups: Seq<SizeModel<S>>,
    a: int,
    b: int,
)
    requires
        a <= b,
    ensures
        grouped_total(boxes, groups, a) <= grouped_total(boxes, groups, b),
    decreases b,
{
    if a < b && b > 0 {
        lemma_grouped_rises(boxes, groups, a, b - 1);
    }
}

/// Infer the frames of a document.
pub fn infer<S: Scalar>(document: &DocumentModel<S>, opts: &Options<S>) -> (r: (
    FrameSet<S>,
    Report<S>,
))
    requires
        box_total(
            boxes_of(document@.pages, opts.include_tables),
            document@.pages.len() as int,
        ) + document@.pages.len() <= usize::MAX,
    ensures
        ({
            let pages = document@.pages;
            let n = pages.len() as int;
            let boxes = boxes_of(pages, opts.include_tables);
            let sizes = sizes_of(pages, n);
            let k = sizes.len() as int;
            let groups = groups_of(boxes, sizes, *opts, k);
            let t = tally_of(groups, boxes, n);
            &&& r.0@ == groups
            &&& r.1.groups == groups.len()
            &&& r.1.frames == frames_in(groups, k)
            &&& r.1.fallbacks == fallbacks_of(boxes, sizes, *opts, k)
            &&& r.1.blocks_outside_page_box == strays_of(boxes, sizes, k)
            &&& r.1.blocks_considered == t.considered
            &&& r.1.blocks_contained == t.contained
            &&& r.1.blocks_spanning == t.spanning
            &&& r.1.blocks_loose == t.loose
            &&& r.1.tightness == tightness_of(groups, t.area)
        }),
{
    let ghost pages = document@.pages;
    let boxes = body_boxes(&document.pages, opts);
    let ghost lists = rect_lists(boxes@);
    assert(lists.len() == boxes@.len() && lists.len() == pages.len());
    let sized = group_by_size(&document.pages);
    let ghost sizes = size_models(sized@);
    let ghost given = sized@;
    let count: usize = sized.len();
    proof {
        lemma_sizes(pages, lists, pages.len() as int);
        lemma_frame_total(lists, sizes, *opts, sizes.len() as int);
    }
    let ghost wanted = groups_of(lists, sizes, *opts, sizes.len() as int);
    let mut groups: Vec<PageGroup<S>> = Vec::new();
    let mut fallbacks: usize = 0;
    let mut strays: usize = 0;
    let mut done: usize = 0;
    for entry in it: sized
        invariant
            it.seq() == given,
            done == it.index(),
            count == given.len(),
            sizes == size_models(given),
            lists == rect_lists(boxes@),
            pages_within(sizes, boxes@.len() as int),
            grouped_total(lists, sizes, sizes.len() as int) <= usize::MAX,
            wanted == groups_of(lists, sizes, *opts, sizes.len() as int),
            groups@.len() == done,
            fallbacks <= done,
            fallbacks == fallbacks_of(lists, sizes, *opts, done as int),
            strays == strays_of(lists, sizes, done as int),
            forall|k: int| 0 <= k < done ==> (#[trigger] groups@[k])@ == wanted[k],
    {
        assert(size_model(entry) == sizes[done as int]);
        let (size, own) = entry;
        assert forall|k: int| 0 <= k < own@.len() implies (#[trigger] own@[k]) < boxes@.len() by {
            assert(sizes[done as int].pages[k] == own@[k]);
        }
        proof {
            lemma_strays(lists, sizes, done + 1);
            lemma_grouped_rises(lists, sizes, done + 1, sizes.len() as int);
        }
        let (group, outside, fell_back) = infer_group(&boxes, size, own, opts);
        strays = strays + outside;
        if fell_back {
            fallbacks = fallbacks + 1;
        }
        groups.push(group);
        done = done + 1;
    }
    let set = FrameSet { groups };
    assert(set@ =~= wanted);
    let frames: usize = set.total_frames();
    let (s, tightness) = score(&boxes, &set);
    let report = Report {
        blocks_considered: s.considered,
        blocks_contained: s.contained,
        blocks_spanning: s.spanning,
        blocks_loose: s.loose,
        tightness,
        groups: set.groups.len(),
        frames,
        fallbacks,
        blocks_outside_page_box: strays,
    };
    (set, report)
}

/// Every block that lives in a frame is scored exactly once: it is contained, it
/// spans, or it is loose.
pub proof fn law_every_block_is_scored_once<S: Scalar>(
    groups: Seq<GroupModel<S>>,
    boxes: Seq<Seq<Rect<S>>>,
)
    ensures
        ({
            let n = boxes.len() as int;
            let t = tally_of(groups, boxes, n);
            t.considered == box_total(boxes, n) && t.considered == t.contained + t.spanning
                + t.loose
        }),
{
    lemma_tally_counts(groups, boxes, boxes.len() as int);
}

/// The pages of a group.
pub open spec fn pages_of<S>() -> spec_fn(SizeModel<S>) -> Seq<usize> {
    |g: SizeModel<S>| g.pages
}

proof fn lemma_pages_grouped<S: Scalar>(pages: Seq<ModelPage<S>>, n: int)
    requires
        0 <= n <= pages.len(),
    ensures
        partition::pooled(sizes_of(pages, n), pages_of()) == Seq::new(
            n as nat,
            |i: int| i as usize,
        ).to_multiset(),
    decreases n,
{
    broadcast use vstd::seq_lib::group_to_multiset_ensures;

    let all = Seq::new(n as nat, |i: int| i as usize);
    if n == 0 {
        partition::lemma_empty_multiset::<usize>();
        assert(all =~= Seq::empty());
    } else {
        lemma_pages_grouped(pages, n - 1);
        let groups = sizes_of(pages, n - 1);
        let size = size_of(pages[n - 1]);
        let k = sized_at(groups, size, 0);
        let page = (n - 1) as usize;
        let f = pages_of::<S>();
        assert(all =~= Seq::new((n - 1) as nat, |i: int| i as usize).push(page));
        lemma_sized_at(groups, size, 0);
        if k < groups.len() {
            let x = SizeModel { size: groups[k].size, pages: groups[k].pages.push(page) };
            partition::lemma_pooled_update(groups, k, x, f);
            let a = partition::pooled(groups.update(k, x), f);
            let b = partition::pooled(groups, f);
            let held = groups[k].pages.to_multiset();
            assert(a.add(held) == b.add(held.insert(page)));
            assert forall|y: usize| #[trigger] a.count(y) == b.insert(page).count(y) by {
                assert(a.add(held).count(y) == b.add(held.insert(page)).count(y));
            }
            assert(a =~= b.insert(page));
        } else {
            let x = SizeModel { size, pages: seq![page] };
            partition::lemma_pooled_push(groups, x, f);
            partition::lemma_empty_multiset::<usize>();
            assert(seq![page] =~= Seq::<usize>::empty().push(page));
            let b = partition::pooled(groups, f);
            assert(b.add(seq![page].to_multiset()) =~= b.insert(page));
        }
    }
}

/// Grouping by size puts every page in exactly one group.
pub proof fn law_every_page_is_in_one_group<S: Scalar>(pages: Seq<ModelPage<S>>)
    ensures
        partition::pooled(sizes_of(pages, pages.len() as int), pages_of()) == Seq::new(
            pages.len(),
            |i: int| i as usize,
        ).to_multiset(),
{
    lemma_pages_grouped(pages, pages.len() as int);
}

/// Whether runs are not empty, and come from left to right without overlapping.
pub open spec fn apart(runs: Seq<(usize, usize)>) -> bool {
    &&& forall|k: int| 0 <= k < runs.len() ==> (#[trigger] runs[k]).0 < runs[k].1
    &&& forall|k: int, l: int|
        0 <= k < l < runs.len() ==> (#[trigger] runs[k]).1 <= (#[trigger] runs[l]).0
}

proof fn lemma_occupied_apart(o: Seq<usize>, threshold: usize, n: int)
    requires
        0 <= n <= o.len() <= usize::MAX,
    ensures
        ({
            let r = occupied(o, threshold, n);
            &&& apart(r.done)
            &&& forall|k: int| 0 <= k < r.done.len() ==> (#[trigger] r.done[k]).1 <= n
            &&& r.start matches Some(s) ==> s < n && forall|k: int|
                0 <= k < r.done.len() ==> (#[trigger] r.done[k]).1 <= s
        }),
    decreases n,
{
    if n > 0 {
        lemma_occupied_apart(o, threshold, n - 1);
    }
}

proof fn lemma_merged_apart(runs: Seq<(usize, usize)>, gutter: usize, n: int)
    requires
        apart(runs),
        0 <= n <= runs.len(),
    ensures
        apart(merged(runs, gutter, n)),
        forall|k: int|
            0 <= k < merged(runs, gutter, n).len() ==> (#[trigger] merged(runs, gutter, n)[k]).1
                <= runs[n - 1].1,
    decreases n,
{
    if n > 0 {
        lemma_merged_apart(runs, gutter, n - 1);
        let before = merged(runs, gutter, n - 1);
        let run = runs[n - 1];
        assert(run.0 < run.1);
        if n > 1 {
            assert(runs[n - 2].1 <= run.0);
        }
        assert forall|k: int| 0 <= k < before.len() implies (#[trigger] before[k]).1 <= run.0 by {
            assert(before[k].1 <= runs[n - 2].1);
        }
        if before.len() > 0 {
            let last = before.last();
            assert(last == before[before.len() - 1]);
            assert(last.1 <= run.0);
            assert(last.0 < last.1);
        }
    }
}

proof fn lemma_folded_at_apart(runs: Seq<(usize, usize)>, i: int)
    requires
        apart(runs),
        2 <= runs.len(),
        0 <= i < runs.len(),
    ensures
        apart(folded_at(runs, i)),
        folded_at(runs, i).len() == runs.len() - 1,
{
    let after = folded_at(runs, i);
    let left = i > 0 && (i + 1 >= runs.len() || gap_between(runs[i - 1], runs[i]) <= gap_between(
        runs[i],
        runs[i + 1],
    ));
    assert(runs[i].0 < runs[i].1);
    if left {
        assert(runs[i - 1].0 < runs[i - 1].1);
        assert(runs[i - 1].1 <= runs[i].0);
        assert forall|k: int| 0 <= k < after.len() implies #[trigger] after[k] == (if k == i - 1 {
            (runs[i - 1].0, runs[i].1)
        } else if k < i {
            runs[k]
        } else {
            runs[k + 1]
        }) by {}
    } else {
        assert(runs[i + 1].0 < runs[i + 1].1);
        assert(runs[i].1 <= runs[i + 1].0);
        assert forall|k: int| 0 <= k < after.len() implies #[trigger] after[k] == (if k == i {
            (runs[i].0, runs[i + 1].1)
        } else if k < i {
            runs[k]
        } else {
            runs[k + 1]
        }) by {}
    }
}

proof fn lemma_narrow_from(runs: Seq<(usize, usize)>, width: usize, from: int)
    requires
        0 <= from <= runs.len(),
    ensures
        from <= narrow_from(runs, width, from) <= runs.len(),
        forall|k: int|
            from <= k < narrow_from(runs, width, from) ==> !narrow(#[trigger] runs[k], width),
    decreases runs.len() - from,
{
    if from < runs.len() && !narrow(runs[from], width) {
        lemma_narrow_from(runs, width, from + 1);
    }
}

proof fn lemma_folded(runs: Seq<(usize, usize)>, width: usize)
    requires
        apart(runs),
    ensures
        apart(folded(runs, width)),
        folded(runs, width).len() < 2 || forall|k: int|
            0 <= k < folded(runs, width).len() ==> !narrow(
                #[trigger] folded(runs, width)[k],
                width,
            ),
    decreases runs.len(),
{
    let i = narrow_from(runs, width, 0);
    lemma_narrow_from(runs, width, 0);
    if runs.len() >= 2 && i < runs.len() {
        lemma_folded_at_apart(runs, i);
        lemma_folded(folded_at(runs, i), width);
    }
}

/// Columns come from left to right and do not overlap, and none is narrower than
/// a column has to be unless it is the only one.
pub proof fn law_columns_stand_apart<S: Scalar>(
    o: Seq<usize>,
    threshold: usize,
    opts: Options<S>,
)
    requires
        o.len() <= usize::MAX,
    ensures
        apart(columns_of(o, threshold, opts)),
        columns_of(o, threshold, opts).len() < 2 || forall|k: int|
            0 <= k < columns_of(o, threshold, opts).len() ==> !narrow(
                #[trigger] columns_of(o, threshold, opts)[k],
                scalar::count_from(opts.min_column_width.spec_nearest().spec_whole() as int) as usize,
            ),
{
    let runs = runs_of(o, threshold);
    let gutter = scalar::count_from(opts.min_gutter.spec_nearest().spec_whole() as int) as usize;
    let width = scalar::count_from(opts.min_column_width.spec_nearest().spec_whole() as int) as usize;
    lemma_occupied_apart(o, threshold, o.len() as int);
    assert(apart(runs));
    lemma_merged_apart(runs, gutter, runs.len() as int);
    lemma_folded(merged(runs, gutter, runs.len() as int), width);
}

/// How far two intervals overlap does not depend on which comes first, and is
/// never less than nothing.
pub proof fn law_overlap_is_mutual<S: Scalar>(a0: S, a1: S, b0: S, b1: S)
    requires
        scalar::orderly::<S>(),
    ensures
        overlap_of(a0, a1, b0, b1) == overlap_of(b0, b1, a0, a1),
        S::spec_ratio(0, 1).spec_le(overlap_of(a0, a1, b0, b1)),
        b0.spec_le(a0) && a1.spec_le(b1) && S::spec_ratio(0, 1).spec_le(a1.spec_minus(a0))
            ==> overlap_of(a0, a1, b0, b1) == a1.spec_minus(a0),
{
    let none = S::spec_ratio(0, 1);
    scalar::lemma_order(a0, b0, a0);
    scalar::lemma_order(b0, a0, b0);
    scalar::lemma_order(a1, b1, a1);
    scalar::lemma_order(b1, a1, b1);
    let d = a1.spec_least(b1).spec_minus(a0.spec_greatest(b0));
    scalar::lemma_order(d, none, d);
    scalar::lemma_order(none, d, none);
}

/// A page has the frames of the first group that lists it or that lists no page.
pub proof fn law_a_page_has_the_frames_of_its_group<S>(
    groups: Seq<GroupModel<S>>,
    page: usize,
    k: int,
)
    requires
        0 <= k < groups.len(),
        groups[k].pages.contains(page) || groups[k].pages.len() == 0,
        forall|i: int|
            0 <= i < k ==> !(#[trigger] groups[i]).pages.contains(page) && groups[i].pages.len()
                > 0,
    ensures
        page_frames(groups, page) == groups[k].frames,
{
    lemma_group_found(groups, page, 0, k);
}

proof fn lemma_group_found<S>(groups: Seq<GroupModel<S>>, page: usize, from: int, k: int)
    requires
        0 <= from <= k < groups.len(),
        groups[k].pages.contains(page) || groups[k].pages.len() == 0,
        forall|i: int|
            from <= i < k ==> !(#[trigger] groups[i]).pages.contains(page) && groups[i].pages.len()
                > 0,
    ensures
        group_for(groups, page, from) == k,
    decreases k - from,
{
    if from < k {
        lemma_group_found(groups, page, from + 1, k);
    }
}

/// The frame of a box is the first of those that it overlaps most, and there is
/// none exactly where it overlaps none.
pub proof fn law_a_box_has_the_frame_it_overlaps_most<S: Scalar>(
    frames: Seq<Frame<S>>,
    b: Rect<S>,
    n: int,
)
    requires
        scalar::orderly::<S>(),
        0 <= n <= frames.len(),
    ensures
        ({
            let shared = |j: int|
                overlap_of(frames[j].rect.x0, frames[j].rect.x1, b.x0, b.x1);
            match best_frame(frames, b, n) {
                Some((k, o)) => {
                    &&& 0 <= k < n && o == shared(k) && S::spec_ratio(0, 1).spec_lt(o)
                    &&& forall|j: int| 0 <= j < n ==> (#[trigger] shared(j)).spec_le(o)
                    &&& forall|j: int| 0 <= j < k ==> (#[trigger] shared(j)).spec_lt(o)
                },
                None => forall|j: int|
                    0 <= j < n ==> !S::spec_ratio(0, 1).spec_lt(#[trigger] shared(j)),
            }
        }),
    decreases n,
{
    let none = S::spec_ratio(0, 1);
    let shared = |j: int| overlap_of(frames[j].rect.x0, frames[j].rect.x1, b.x0, b.x1);
    if n > 0 {
        law_a_box_has_the_frame_it_overlaps_most(frames, b, n - 1);
        let o = shared(n - 1);
        scalar::lemma_order(o, o, o);
        scalar::lemma_order(none, o, none);
        if let Some((k, best)) = best_frame(frames, b, n - 1) {
            scalar::lemma_order(best, o, best);
            scalar::lemma_order(o, best, o);
            scalar::lemma_order(o, none, best);
            assert forall|j: int| 0 <= j < n - 1 implies {
                &&& best.spec_lt(o) ==> (#[trigger] shared(j)).spec_lt(o) && shared(j).spec_le(o)
            } by {
                scalar::lemma_order(shared(j), best, o);
                scalar::lemma_order(shared(j), o, o);
            }
        } else {
            assert forall|j: int| 0 <= j < n - 1 && none.spec_lt(o) implies (
            #[trigger] shared(j)).spec_lt(o) && shared(j).spec_le(o) by {
                scalar::lemma_order(none, shared(j), none);
                scalar::lemma_order(shared(j), none, o);
                scalar::lemma_order(shared(j), o, o);
            }
        }
    }
}

/// The largest group is one that none outnumbers in pages, the last of those.
pub proof fn law_the_largest_group_has_the_most_pages<S>(groups: Seq<GroupModel<S>>, n: int)
    requires
        0 < n <= groups.len(),
    ensures
        ({
            let k = largest_group(groups, n);
            &&& 0 <= k < n
            &&& forall|j: int|
                0 <= j < k ==> (#[trigger] groups[j]).pages.len() <= groups[k].pages.len()
            &&& forall|j: int|
                k < j < n ==> (#[trigger] groups[j]).pages.len() < groups[k].pages.len()
        }),
    decreases n,
{
    if n > 1 {
        law_the_largest_group_has_the_most_pages(groups, n - 1);
    }
}

/// The boxes that are measured are those of the blocks of text, in order: tables
/// where they are asked for, and no running element, image or drawing.
pub proof fn law_text_is_measured<S>(b: Seq<BlockView<S>>, include_tables: bool, n: int)
    requires
        0 <= n <= b.len(),
    ensures
        framed_boxes(b, include_tables, n) == b.take(n).filter(
            |x: BlockView<S>|
                x is Paragraph || x is Unknown || x is Table && include_tables,
        ).map_values(|x: BlockView<S>| x.spec_bbox()),
    decreases n,
{
    reveal(Seq::filter);
    let text = |x: BlockView<S>| x is Paragraph || x is Unknown || x is Table && include_tables;
    let bbox = |x: BlockView<S>| x.spec_bbox();
    if n > 0 {
        law_text_is_measured(b, include_tables, n - 1);
        assert(b.take(n).drop_last() =~= b.take(n - 1));
        assert(b.take(n).last() == b[n - 1]);
        let front = b.take(n - 1).filter(text);
        if text(b[n - 1]) {
            assert(front.push(b[n - 1]).map_values(bbox) =~= front.map_values(bbox).push(
                b[n - 1].spec_bbox(),
            ));
        }
    } else {
        assert(b.take(0) =~= Seq::empty());
        assert(b.take(0).filter(text).map_values(bbox) =~= Seq::empty());
    }
}

/// The pages of a group have its size, each as its bounds are rounded to the
/// point, and come in order.
pub proof fn law_the_pages_of_a_group_share_its_size(
    pages: Seq<ModelPage<scalar::Fixed>>,
    n: int,
    k: int,
)
    requires
        0 <= n <= pages.len() <= usize::MAX,
        0 <= k < sizes_of(pages, n).len(),
    ensures
        ({
            let g = sizes_of(pages, n)[k];
            &&& g.pages.len() > 0
            &&& forall|i: int|
                0 <= i < g.pages.len() ==> (#[trigger] g.pages[i]) < n && size_of(
                    pages[g.pages[i] as int],
                ) == g.size
            &&& forall|i: int, j: int|
                0 <= i < j < g.pages.len() ==> (#[trigger] g.pages[i]) < (#[trigger] g.pages[j])
            &&& forall|l: int|
                0 <= l < sizes_of(pages, n).len() && l != k ==> (#[trigger] sizes_of(
                    pages,
                    n,
                )[l]).size != g.size
        }),
    decreases n,
{
    if n > 0 {
        let groups = sizes_of(pages, n - 1);
        let after = sizes_of(pages, n);
        let size = size_of(pages[n - 1]);
        let m = sized_at(groups, size, 0);
        lemma_size_found(groups, size, 0);
        if k < groups.len() {
            law_the_pages_of_a_group_share_its_size(pages, n - 1, k);
            assert(after[k].size == groups[k].size);
        }
        assert forall|l: int| 0 <= l < after.len() && l != k implies (#[trigger] after[l]).size
            != after[k].size by {
            if l < groups.len() && k < groups.len() {
                assert(groups[l].size != groups[k].size);
                assert(after[l].size == groups[l].size);
            } else if l < groups.len() {
                assert(after[l].size == groups[l].size);
            }
        }
    }
}

proof fn lemma_size_found(
    groups: Seq<SizeModel<scalar::Fixed>>,
    size: (scalar::Fixed, scalar::Fixed),
    from: int,
)
    requires
        0 <= from <= groups.len(),
    ensures
        from <= sized_at(groups, size, from) <= groups.len(),
        sized_at(groups, size, from) < groups.len() ==> groups[sized_at(
            groups,
            size,
            from,
        )].size == size,
        forall|i: int|
            from <= i < sized_at(groups, size, from) ==> (#[trigger] groups[i]).size != size,
    decreases groups.len() - from,
{
    if from < groups.len() && !same_size(groups[from].size, size) {
        lemma_size_found(groups, size, from + 1);
    }
}

/// A page's bounds are its crop box where that covers an area, and its media box
/// otherwise.
pub proof fn law_the_crop_box_bounds_a_page(
    media: Rect<scalar::Fixed>,
    crop: Rect<scalar::Fixed>,
)
    ensures
        crop.x0.raw != crop.x1.raw && crop.y0.raw != crop.y1.raw ==> bounds_of(media, crop) == crop,
        crop.x0.raw == crop.x1.raw || crop.y0.raw == crop.y1.raw ==> bounds_of(media, crop)
            == media,
{
    scalar::lemma_exact_division(0, 1);
}

/// A bin is touched where one of the boxes spans it, and its occupancy counts the
/// pages on which it is.
pub proof fn law_occupancy_counts_pages<S: Scalar>(
    boxes: Seq<Seq<Rect<S>>>,
    pages: Seq<usize>,
    origin: S,
    bins: int,
    bin: int,
    n: int,
)
    requires
        0 <= n <= pages.len(),
    ensures
        occupancy_of(boxes, pages, origin, bins, bin, n) == pages.take(n).filter(
            |p: usize|
                exists|i: int|
                    #![trigger boxes[p as int][i]]
                    0 <= i < boxes[p as int].len() && bins_of(
                        boxes[p as int][i],
                        origin,
                        bins,
                    ).0 <= bin < bins_of(boxes[p as int][i], origin, bins).1,
        ).len(),
    decreases n,
{
    reveal(Seq::filter);
    let on = |p: usize|
        exists|i: int|
            #![trigger boxes[p as int][i]]
            0 <= i < boxes[p as int].len() && bins_of(boxes[p as int][i], origin, bins).0 <= bin
                < bins_of(boxes[p as int][i], origin, bins).1;
    if n > 0 {
        law_occupancy_counts_pages(boxes, pages, origin, bins, bin, n - 1);
        assert(pages.take(n).drop_last() =~= pages.take(n - 1));
        assert(pages.take(n).last() == pages[n - 1]);
        let own = boxes[pages[n - 1] as int];
        lemma_touched(own, origin, bins, bin, own.len() as int);
        assert(on(pages[n - 1]) == touched(own, origin, bins, bin, own.len() as int));
    } else {
        assert(pages.take(0) =~= Seq::empty());
    }
}

proof fn lemma_touched<S: Scalar>(boxes: Seq<Rect<S>>, origin: S, bins: int, bin: int, n: int)
    requires
        0 <= n <= boxes.len(),
    ensures
        touched(boxes, origin, bins, bin, n) <==> exists|i: int|
            0 <= i < n && bins_of(#[trigger] boxes[i], origin, bins).0 <= bin < bins_of(
                boxes[i],
                origin,
                bins,
            ).1,
    decreases n,
{
    if n > 0 {
        lemma_touched(boxes, origin, bins, bin, n - 1);
    }
}

/// Whether a stretch of bins is occupied often enough, and as long as it can be.
pub open spec fn full_stretch(o: Seq<usize>, threshold: usize, start: int, end: int) -> bool {
    &&& 0 <= start < end <= o.len()
    &&& forall|i: int| start <= i < end ==> #[trigger] o[i] >= threshold
    &&& start > 0 ==> o[start - 1] < threshold
    &&& end < o.len() ==> o[end] < threshold
}

/// The runs of bins are the longest stretches that are occupied often enough.
pub proof fn law_runs_are_the_full_stretches(
    o: Seq<usize>,
    threshold: usize,
    start: usize,
    end: usize,
)
    requires
        o.len() <= usize::MAX,
    ensures
        runs_of(o, threshold).contains((start, end)) <==> full_stretch(
            o,
            threshold,
            start as int,
            end as int,
        ),
{
    let n = o.len() as int;
    lemma_full_stretches(o, threshold, n);
    let r = occupied(o, threshold, n);
    let runs = runs_of(o, threshold);
    if runs.contains((start, end)) {
        let k = choose|k: int| 0 <= k < runs.len() && runs[k] == (start, end);
        if k < r.done.len() {
            assert(r.done[k] == (start, end));
        }
    }
    if full_stretch(o, threshold, start as int, end as int) {
        if end < n {
            assert(r.done.contains((start, end)));
            let k = choose|k: int| 0 <= k < r.done.len() && r.done[k] == (start, end);
            assert(runs[k] == (start, end));
        } else {
            assert(o[n - 1] >= threshold);
            let from = r.start->0;
            if from < start {
                assert(o[start - 1] >= threshold);
            }
            if start < from {
                assert(o[from - 1] >= threshold);
            }
            assert(runs.last() == (start, end));
        }
    }
}

proof fn lemma_full_stretches(o: Seq<usize>, threshold: usize, n: int)
    requires
        0 <= n <= o.len() <= usize::MAX,
    ensures
        ({
            let r = occupied(o, threshold, n);
            &&& forall|k: int|
                0 <= k < r.done.len() ==> full_stretch(
                    o,
                    threshold,
                    (#[trigger] r.done[k]).0 as int,
                    r.done[k].1 as int,
                ) && r.done[k].1 < n
            &&& match r.start {
                Some(from) => {
                    &&& from < n
                    &&& forall|i: int| from <= i < n ==> #[trigger] o[i] >= threshold
                    &&& from > 0 ==> o[from - 1] < threshold
                },
                None => n > 0 ==> o[n - 1] < threshold,
            }
            &&& forall|s: usize, e: usize|
                full_stretch(o, threshold, s as int, e as int) && e < n
                    ==> #[trigger] r.done.contains((s, e))
        }),
    decreases n,
{
    if n > 0 {
        lemma_full_stretches(o, threshold, n - 1);
        let before = occupied(o, threshold, n - 1);
        let r = occupied(o, threshold, n);
        assert forall|s: usize, e: usize|
            full_stretch(o, threshold, s as int, e as int) && e < n
            implies #[trigger] r.done.contains((s, e)) by {
            if e < n - 1 {
                assert(before.done.contains((s, e)));
                let k = choose|k: int| 0 <= k < before.done.len() && before.done[k] == (s, e);
                assert(r.done[k] == (s, e));
            } else {
                assert(o[n - 1] < threshold);
                assert(o[e - 1] >= threshold);
                let from = before.start->0;
                if from < s {
                    assert(o[s - 1] >= threshold);
                }
                if s < from {
                    assert(o[from - 1] >= threshold);
                }
                assert(r.done[r.done.len() - 1] == (s, e));
            }
        }
    }
}

/// Runs that were merged are a gutter apart or more, each run lies in one that
/// was merged, and what was merged starts and ends where runs do.
pub proof fn law_merged_runs_are_a_gutter_apart(
    runs: Seq<(usize, usize)>,
    gutter: usize,
    n: int,
)
    requires
        0 <= n <= runs.len(),
        forall|k: int| 0 <= k < runs.len() ==> (#[trigger] runs[k]).0 < runs[k].1,
        forall|k: int, l: int|
            0 <= k < l < runs.len() ==> (#[trigger] runs[k]).1 <= (#[trigger] runs[l]).0,
    ensures
        ({
            let m = merged(runs, gutter, n);
            &&& forall|k: int| 0 < k < m.len() ==> (#[trigger] m[k]).0 - m[k - 1].1 >= gutter
            &&& forall|i: int| 0 <= i < n ==> #[trigger] run_within(m, runs[i])
            &&& forall|k: int|
                0 <= k < m.len() ==> run_starts(runs, n, (#[trigger] m[k]).0) && run_ends(
                    runs,
                    n,
                    m[k].1,
                )
            &&& n > 0 ==> m.len() > 0 && m.last().1 == runs[n - 1].1
        }),
    decreases n,
{
    if n > 0 {
        law_merged_runs_are_a_gutter_apart(runs, gutter, n - 1);
        let before = merged(runs, gutter, n - 1);
        let m = merged(runs, gutter, n);
        let run = runs[n - 1];
        if n > 1 {
            assert(runs[n - 2].1 <= runs[n - 1].0);
        }
        let last = before.len() - 1;
        let joins = before.len() > 0 && gap_between(before.last(), run) < gutter;
        if joins {
            assert(run_starts(runs, n - 1, before[last].0));
            let a = choose|a: int| 0 <= a < n - 1 && (#[trigger] runs[a]).0 == before[last].0;
            assert(runs[a].1 <= runs[n - 1].0);
            assert(m[last] == (before[last].0, run.1));
        } else {
            assert(m[m.len() - 1] == run);
        }
        assert forall|k: int| 0 < k < m.len() implies (#[trigger] m[k]).0 - m[k - 1].1
            >= gutter by {
            if k < before.len() {
                assert(before[k].0 - before[k - 1].1 >= gutter);
            }
        }
        assert forall|i: int| 0 <= i < n implies #[trigger] run_within(m, runs[i]) by {
            if i < n - 1 {
                assert(run_within(before, runs[i]));
                let k = choose|k: int|
                    0 <= k < before.len() && (#[trigger] before[k]).0 <= runs[i].0 && runs[i].1
                        <= before[k].1;
                assert(m[k].0 <= runs[i].0 && runs[i].1 <= m[k].1);
            } else {
                assert(m[m.len() - 1].0 <= run.0 && run.1 <= m[m.len() - 1].1);
            }
        }
        assert forall|k: int| 0 <= k < m.len() implies run_starts(
            runs,
            n,
            (#[trigger] m[k]).0,
        ) && run_ends(runs, n, m[k].1) by {
            assert(runs[n - 1].1 == run.1);
            if k < before.len() {
                assert(run_starts(runs, n - 1, before[k].0) && run_ends(runs, n - 1, before[k].1));
            }
        }
    }
}

/// Whether one of the stretches holds a run.
pub open spec fn run_within(m: Seq<(usize, usize)>, run: (usize, usize)) -> bool {
    exists|k: int| 0 <= k < m.len() && (#[trigger] m[k]).0 <= run.0 && run.1 <= m[k].1
}

/// Whether one of the first `n` runs starts at a bin.
pub open spec fn run_starts(runs: Seq<(usize, usize)>, n: int, at: usize) -> bool {
    exists|i: int| 0 <= i < n && (#[trigger] runs[i]).0 == at
}

/// Whether one of the first `n` runs ends at a bin.
pub open spec fn run_ends(runs: Seq<(usize, usize)>, n: int, at: usize) -> bool {
    exists|i: int| 0 <= i < n && (#[trigger] runs[i]).1 == at
}

/// A column reaches from the highest of its boxes to the lowest, and counts
/// them.
pub proof fn law_a_column_reaches_over_its_boxes<S: Scalar>(
    runs: Seq<(usize, usize)>,
    origin: S,
    boxes: Seq<Rect<S>>,
    column: int,
    n: int,
)
    requires
        scalar::orderly::<S>(),
        0 <= n <= boxes.len(),
    ensures
        ({
            let e = extent_of(runs, origin, boxes, column, n);
            let own = boxes.take(n).filter(|b: Rect<S>| belongs(runs, origin, b, column));
            &&& e.count == own.len()
            &&& forall|i: int|
                0 <= i < n && belongs(runs, origin, #[trigger] boxes[i], column) ==> e.top.spec_le(
                    boxes[i].y0,
                ) && boxes[i].y1.spec_le(e.bottom)
            &&& e.count > 0 ==> exists|i: int|
                0 <= i < n && belongs(runs, origin, #[trigger] boxes[i], column) && boxes[i].y0
                    == e.top
            &&& e.count > 0 ==> exists|i: int|
                0 <= i < n && belongs(runs, origin, #[trigger] boxes[i], column) && boxes[i].y1
                    == e.bottom
            &&& e.count == 0 ==> e.top == S::spec_highest() && e.bottom == S::spec_lowest()
        }),
    decreases n,
{
    reveal(Seq::filter);
    if n > 0 {
        law_a_column_reaches_over_its_boxes(runs, origin, boxes, column, n - 1);
        let before = extent_of(runs, origin, boxes, column, n - 1);
        let e = extent_of(runs, origin, boxes, column, n);
        let b = boxes[n - 1];
        assert(boxes.take(n).drop_last() =~= boxes.take(n - 1));
        assert(boxes.take(n).last() == b);
        if belongs(runs, origin, b, column) {
            assert(b.y0.spec_le(S::spec_highest()) && S::spec_lowest().spec_le(b.y1));
            scalar::lemma_order(before.top, b.y0, before.top);
            scalar::lemma_order(b.y0, before.top, b.y0);
            scalar::lemma_order(before.bottom, b.y1, before.bottom);
            scalar::lemma_order(b.y1, before.bottom, b.y1);
            assert forall|i: int|
                0 <= i < n && belongs(runs, origin, #[trigger] boxes[i], column) implies e.top.spec_le(
                boxes[i].y0,
            ) && boxes[i].y1.spec_le(e.bottom) by {
                if i < n - 1 {
                    scalar::lemma_order(e.top, before.top, boxes[i].y0);
                    scalar::lemma_order(boxes[i].y1, before.bottom, e.bottom);
                }
            }
            assert(belongs(runs, origin, boxes[n - 1], column));
        }
        if before.count > 0 {
            let i = choose|i: int|
                0 <= i < n - 1 && belongs(runs, origin, #[trigger] boxes[i], column) && boxes[i].y0
                    == before.top;
            let j = choose|j: int|
                0 <= j < n - 1 && belongs(runs, origin, #[trigger] boxes[j], column) && boxes[j].y1
                    == before.bottom;
            assert(boxes[i].y0 == before.top && boxes[j].y1 == before.bottom);
        }
    } else {
        assert(boxes.take(0) =~= Seq::empty());
    }
}

/// A box is scored as spanning where it overlaps two frames by over a point,
/// else as contained where it lies in the frame that it overlaps most, give or
/// take a point, and else as loose.
pub proof fn law_a_box_is_spanning_contained_or_loose<S: Scalar>(
    t: Tally<S>,
    frames: Seq<Frame<S>>,
    b: Rect<S>,
)
    ensures
        ({
            let one = S::spec_ratio(1, 1);
            let wide = frames.filter(
                |f: Frame<S>| one.spec_lt(overlap_of(f.rect.x0, f.rect.x1, b.x0, b.x1)),
            ).len() > 1;
            let inside = best_frame(frames, b, frames.len() as int) matches Some((k, _)) && {
                let r = frames[k].rect;
                &&& r.x0.spec_minus(one).spec_le(b.x0) && b.x1.spec_le(r.x1.spec_plus(one))
                &&& r.y0.spec_minus(one).spec_le(b.y0) && b.y1.spec_le(r.y1.spec_plus(one))
            };
            let after = tallied(t, frames, b);
            &&& after.considered == t.considered + 1
            &&& after.spanning == t.spanning + if wide {
                1int
            } else {
                0
            }
            &&& after.contained == t.contained + if !wide && inside {
                1int
            } else {
                0
            }
            &&& after.loose == t.loose + if !wide && !inside {
                1int
            } else {
                0
            }
            &&& after.area == t.area.spec_plus(
                b.x1.spec_minus(b.x0).spec_times(b.y1.spec_minus(b.y0)).spec_magnitude(),
            )
        }),
{
    lemma_covers(frames, b, frames.len() as int);
    assert(frames.take(frames.len() as int) =~= frames);
}

proof fn lemma_covers<S: Scalar>(frames: Seq<Frame<S>>, b: Rect<S>, n: int)
    requires
        0 <= n <= frames.len(),
    ensures
        covers(frames, b, n) == frames.take(n).filter(
            |f: Frame<S>|
                S::spec_ratio(1, 1).spec_lt(overlap_of(f.rect.x0, f.rect.x1, b.x0, b.x1)),
        ).len(),
    decreases n,
{
    reveal(Seq::filter);
    if n > 0 {
        lemma_covers(frames, b, n - 1);
        assert(frames.take(n).drop_last() =~= frames.take(n - 1));
        assert(frames.take(n).last() == frames[n - 1]);
    } else {
        assert(frames.take(0) =~= Seq::empty());
    }
}

/// The columns of a designed page are as wide as each other, stand the gutter
/// apart, and start at the left and the top margin.
pub proof fn law_designed_columns_are_even(g: PageGeometry<scalar::Fixed>, i: int)
    requires
        0 <= i,
        i + 1 < g.columns <= 1000,
        0 <= g.size.0.raw <= 0x1000_0000_0000,
        0 <= g.size.1.raw <= 0x1000_0000_0000,
        0 <= g.margins.0.raw <= 0x1000_0000_0000,
        0 <= g.margins.1.raw <= 0x1000_0000_0000,
        0 <= g.margins.2.raw <= 0x1000_0000_0000,
        0 <= g.margins.3.raw <= 0x1000_0000_0000,
        0 <= g.gutter.raw <= 0x1000_0000_0000,
    ensures
        ({
            let f = g.spec_frames();
            let a = f[i].rect;
            let b = f[i + 1].rect;
            &&& f.len() == g.columns
            &&& b.x0.raw - a.x1.raw == g.gutter.raw
            &&& b.x1.raw - b.x0.raw == a.x1.raw - a.x0.raw
            &&& f[0].rect.x0 == g.margins.3 && a.y0 == g.margins.0 && b.y0 == g.margins.0
            &&& f[i].column == i && f[i].blocks == 0
            &&& g.size.1.raw - g.margins.0.raw - g.margins.2.raw >= 0 ==> a.y1.raw == g.size.1.raw
                - g.margins.2.raw
        }),
{
    let none = scalar::zero::<scalar::Fixed>();
    scalar::lemma_exact_division(0, 1);
    assert(none.raw == 0);
    let w = g.column_width();
    let n = g.columns as int;
    let measure = g.size.0.spec_minus(g.margins.3).spec_minus(g.margins.1).spec_greatest(none);
    assert(0 <= measure.raw <= 0x1000_0000_0000);
    let count = scalar::count::<scalar::Fixed>(scalar::held(n));
    let gaps = scalar::count::<scalar::Fixed>(scalar::held(n - 1));
    scalar::law_fixed_point_arithmetic(g.gutter, g.gutter, n as i64);
    scalar::law_fixed_point_arithmetic(g.gutter, g.gutter, (n - 1) as i64);
    let spread = g.gutter.spec_times(gaps);
    assert(0 <= (n - 1) * g.gutter.raw <= 1000 * 0x1000_0000_0000) by (nonlinear_arith)
        requires
            1 <= n <= 1000,
            0 <= g.gutter.raw <= 0x1000_0000_0000,
    ;
    assert(spread.raw == (n - 1) * g.gutter.raw);
    let left = measure.spec_minus(spread);
    assert(left.raw <= 0x1000_0000_0000);
    assert(count.raw == n * 0x10000);
    lemma_quotient_held(left, count);
    assert(0 <= w.raw <= 0x1000_0000_0000);
    let step = w.spec_plus(g.gutter);
    assert(step.raw == w.raw + g.gutter.raw);
    lemma_column_start(g, w, step, 0);
    lemma_column_start(g, w, step, i);
    lemma_column_start(g, w, step, i + 1);
    assert((i + 1) * step.raw == i * step.raw + step.raw) by (nonlinear_arith);
    let f = g.spec_frames();
    assert(f[i] == g.frame_at(i) && f[i + 1] == g.frame_at(i + 1) && f[0] == g.frame_at(0));
}

proof fn lemma_quotient_held(a: scalar::Fixed, b: scalar::Fixed)
    requires
        a.raw <= 0x1000_0000_0000,
        b.raw >= 0x10000,
    ensures
        a.spec_over(b).raw <= 0x1000_0000_0000,
{
    let x = scalar::abs(a.raw * 0x10000);
    let y = scalar::abs(b.raw as int);
    if a.raw >= 0 {
        assert(0 <= x / y <= 0x1000_0000_0000) by (nonlinear_arith)
            requires
                0 <= x <= 0x1000_0000_0000 * 0x10000,
                y >= 0x10000,
        ;
    } else {
        assert(0 <= x / y) by (nonlinear_arith)
            requires
                0 <= x,
                y >= 0x10000,
        ;
    }
}

proof fn lemma_column_start(
    g: PageGeometry<scalar::Fixed>,
    w: scalar::Fixed,
    step: scalar::Fixed,
    i: int,
)
    requires
        0 <= i < g.columns <= 1000,
        g.columns > 1,
        w == g.column_width(),
        0 <= w.raw <= 0x1000_0000_0000,
        step == w.spec_plus(g.gutter),
        0 <= g.gutter.raw <= 0x1000_0000_0000,
        0 <= g.margins.3.raw <= 0x1000_0000_0000,
    ensures
        g.frame_at(i).rect.x0.raw == g.margins.3.raw + i * step.raw,
        g.frame_at(i).rect.x1.raw == g.margins.3.raw + i * step.raw + w.raw,
{
    scalar::law_fixed_point_arithmetic(step, step, i as i64);
    assert(0 <= i * step.raw <= 1000 * 0x2000_0000_0000) by (nonlinear_arith)
        requires
            0 <= i <= 1000,
            0 <= step.raw <= 0x2000_0000_0000,
    ;
    let c = scalar::count::<scalar::Fixed>(scalar::held(i));
    assert(c.spec_times(step) == step.spec_times(c)) by {
        scalar::law_fixed_point_arithmetic(c, step, 0);
    }
}

/// A report on nothing has all of it contained, and one in which every block is
/// contained has a share of one.
pub proof fn law_all_contained_is_a_share_of_one(n: int)
    requires
        0 <= n <= 0x7FFF_FFFF_FFFF,
    ensures
        share_of::<scalar::Fixed>(n, n) == scalar::Fixed::spec_ratio(1, 1),
        n > 0 ==> share_of::<scalar::Fixed>(0, n) == scalar::Fixed::spec_ratio(0, 1),
{
    let one = scalar::Fixed::spec_ratio(1, 1);
    scalar::law_fixed_point_arithmetic(one, one, n as i64);
    scalar::lemma_exact_division(0, 1);
    scalar::lemma_exact_division(0x10000, 1);
    if n > 0 {
        let c = scalar::count::<scalar::Fixed>(scalar::held(n));
        assert(c.raw == n * 0x10000);
        assert(c.raw * 0x10000 == 0x10000 * c.raw);
        scalar::lemma_exact_division(0x10000, c.raw as int);
        scalar::lemma_exact_division(0, c.raw as int);
    }
}

/// After folding no run is narrow, unless one run is all there is, and what was
/// covered from the first run to the last still is.
pub proof fn law_folded_runs_are_wide(runs: Seq<(usize, usize)>, width: usize)
    ensures
        ({
            let f = folded(runs, width);
            &&& f.len() <= runs.len()
            &&& runs.len() > 0 ==> f.len() > 0 && f[0].0 == runs[0].0 && f.last().1
                == runs.last().1
            &&& f.len() >= 2 ==> forall|i: int|
                0 <= i < f.len() ==> (#[trigger] f[i]).1 - f[i].0 >= width
        }),
    decreases runs.len(),
{
    let i = narrow_from(runs, width, 0);
    lemma_wide_before(runs, width, 0);
    if !(runs.len() < 2 || i < 0 || i >= runs.len()) {
        law_folded_runs_are_wide(folded_at(runs, i), width);
    }
}

proof fn lemma_wide_before(runs: Seq<(usize, usize)>, width: usize, from: int)
    requires
        0 <= from <= runs.len(),
    ensures
        from <= narrow_from(runs, width, from) <= runs.len(),
        forall|i: int|
            from <= i < narrow_from(runs, width, from) ==> (#[trigger] runs[i]).1 - runs[i].0
                >= width,
    decreases runs.len() - from,
{
    if from < runs.len() && !narrow(runs[from], width) {
        lemma_wide_before(runs, width, from + 1);
    }
}

/// A narrow run goes to the nearer of its neighbours, to the one before it where
/// both are as near.
pub proof fn law_a_narrow_run_goes_to_the_nearer_neighbour(runs: Seq<(usize, usize)>, i: int)
    requires
        0 < i,
        i + 1 < runs.len(),
        runs[i - 1].1 <= runs[i].0,
        runs[i].1 <= runs[i + 1].0,
    ensures
        ({
            let f = folded_at(runs, i);
            let left = runs[i].0 - runs[i - 1].1;
            let right = runs[i + 1].0 - runs[i].1;
            &&& f.len() == runs.len() - 1
            &&& left <= right ==> f[i - 1] == (runs[i - 1].0, runs[i].1) && f[i] == runs[i + 1]
            &&& right < left ==> f[i - 1] == runs[i - 1] && f[i] == (runs[i].0, runs[i + 1].1)
            &&& forall|j: int| 0 <= j < i - 1 ==> #[trigger] f[j] == runs[j]
            &&& forall|j: int| i < j < f.len() ==> #[trigger] f[j] == runs[j + 1]
        }),
{
}

/// A frame lies from the left edge of its run of bins to the right edge, and
/// from the top of its boxes to their bottom, and counts them.
pub proof fn law_a_frame_lies_on_its_column<S: Scalar>(
    runs: Seq<(usize, usize)>,
    origin: S,
    boxes: Seq<Rect<S>>,
    evidence: Evidence,
    n: int,
    k: int,
)
    requires
        0 <= n <= runs.len() <= 0x7FFF_FFFF,
        0 <= k < column_frames(runs, origin, boxes, evidence, n).len(),
    ensures
        ({
            let f = column_frames(runs, origin, boxes, evidence, n)[k];
            let run = runs[f.column as int];
            let e = extent_of(runs, origin, boxes, f.column as int, boxes.len() as int);
            &&& f.column < n
            &&& f.rect == Rect::between(
                origin.spec_plus(scalar::count::<S>(scalar::held(run.0 as int))),
                e.top,
                origin.spec_plus(scalar::count::<S>(scalar::held(run.1 as int))),
                e.bottom,
            )
            &&& e.count > 0 && f.blocks == e.count as usize
            &&& f.evidence == evidence
            &&& k > 0 ==> column_frames(runs, origin, boxes, evidence, n)[k - 1].column < f.column
        }),
    decreases n,
{
    if n > 0 {
        let before = column_frames(runs, origin, boxes, evidence, n - 1);
        if k < before.len() {
            law_a_frame_lies_on_its_column(runs, origin, boxes, evidence, n - 1, k);
        } else if k > 0 {
            law_a_frame_lies_on_its_column(runs, origin, boxes, evidence, n - 1, k - 1);
        }
    }
}

/// A group without text has one frame, which is the page, and a group with text
/// on several pages says how many its frames were measured on.
pub proof fn law_a_group_without_text_has_the_page_for_a_frame<S: Scalar>(
    boxes: Seq<Seq<Rect<S>>>,
    group: SizeModel<S>,
    opts: Options<S>,
    k: int,
)
    requires
        0 <= k < group_of(boxes, group, opts).frames.len(),
    ensures
        ({
            let g = group_of(boxes, group, opts);
            let written = group.pages.filter(|p: usize| boxes[p as int].len() > 0).len();
            let f = g.frames[k];
            &&& g.pages == group.pages && g.size == group.size
            &&& written == 0 ==> g.frames.len() == 1 && f.rect == Rect::between(
                S::spec_ratio(0, 1),
                S::spec_ratio(0, 1),
                group.size.0,
                group.size.1,
            ) && f.evidence == Evidence::PageBox && f.blocks == 0
            &&& f.evidence is Pages ==> written > 1 && f.evidence == Evidence::Pages(
                written as usize,
            )
            &&& f.evidence is SinglePage ==> written <= 1
        }),
{
    lemma_measured(boxes, group.pages, group.pages.len() as int);
    assert(group.pages.take(group.pages.len() as int) =~= group.pages);
    let m = measuring_of(boxes, group);
    let runs = columns_of(
        histogram(boxes, group),
        threshold_of(m.pages as int, opts.occupancy_fraction),
        opts,
    );
    let evidence = if m.pages > 1 {
        Evidence::Pages(m.pages as usize)
    } else {
        Evidence::SinglePage
    };
    lemma_column_evidence(runs, m.origin, m.boxes, evidence, runs.len() as int);
}

proof fn lemma_measured<S>(boxes: Seq<Seq<Rect<S>>>, pages: Seq<usize>, n: int)
    requires
        0 <= n <= pages.len(),
    ensures
        measured(boxes, pages, n) == pages.take(n).filter(
            |p: usize| boxes[p as int].len() > 0,
        ).len(),
    decreases n,
{
    reveal(Seq::filter);
    if n > 0 {
        lemma_measured(boxes, pages, n - 1);
        assert(pages.take(n).drop_last() =~= pages.take(n - 1));
        assert(pages.take(n).last() == pages[n - 1]);
    } else {
        assert(pages.take(0) =~= Seq::empty());
    }
}

proof fn lemma_column_evidence<S: Scalar>(
    runs: Seq<(usize, usize)>,
    origin: S,
    boxes: Seq<Rect<S>>,
    evidence: Evidence,
    n: int,
)
    requires
        0 <= n <= runs.len(),
    ensures
        forall|k: int|
            0 <= k < column_frames(runs, origin, boxes, evidence, n).len()
                ==> (#[trigger] column_frames(runs, origin, boxes, evidence, n)[k]).evidence
                == evidence,
    decreases n,
{
    if n > 0 {
        lemma_column_evidence(runs, origin, boxes, evidence, n - 1);
    }
}

/// The fallbacks are the groups of which no text was measured.
pub proof fn law_fallbacks_are_the_groups_without_frames<S: Scalar>(
    boxes: Seq<Seq<Rect<S>>>,
    groups: Seq<SizeModel<S>>,
    opts: Options<S>,
    n: int,
)
    requires
        0 <= n <= groups.len(),
    ensures
        fallbacks_of(boxes, groups, opts, n) == groups.take(n).filter(
            |g: SizeModel<S>| measured_frames(boxes, g, opts).len() == 0,
        ).len(),
    decreases n,
{
    reveal(Seq::filter);
    if n > 0 {
        law_fallbacks_are_the_groups_without_frames(boxes, groups, opts, n - 1);
        assert(groups.take(n).drop_last() =~= groups.take(n - 1));
        assert(groups.take(n).last() == groups[n - 1]);
    } else {
        assert(groups.take(0) =~= Seq::empty());
    }
}

/// One more frame adds its area, once for each page, and without text there is
/// no tightness.
pub proof fn law_a_frame_adds_its_area<S: Scalar>(
    area: S,
    frames: Seq<Frame<S>>,
    f: Frame<S>,
    pages: int,
    groups: Seq<GroupModel<S>>,
)
    ensures
        with_areas(area, frames.push(f), pages, frames.len() as int + 1) == with_areas(
            area,
            frames,
            pages,
            frames.len() as int,
        ).spec_plus(
            f.rect.x1.spec_minus(f.rect.x0).spec_times(
                f.rect.y1.spec_minus(f.rect.y0),
            ).spec_magnitude().spec_times(scalar::count::<S>(scalar::held(pages))),
        ),
        !S::spec_ratio(0, 1).spec_lt(area) ==> tightness_of(groups, area) == S::spec_ratio(0, 1),
        S::spec_ratio(0, 1).spec_lt(area) ==> tightness_of(groups, area) == area_of(
            groups,
            groups.len() as int,
        ).spec_over(area),
{
    lemma_areas_of_front(area, frames.push(f), frames, pages, frames.len() as int);
}

proof fn lemma_areas_of_front<S: Scalar>(
    area: S,
    a: Seq<Frame<S>>,
    b: Seq<Frame<S>>,
    pages: int,
    n: int,
)
    requires
        0 <= n <= a.len(),
        n <= b.len(),
        forall|i: int| 0 <= i < n ==> #[trigger] a[i] == b[i],
    ensures
        with_areas(area, a, pages, n) == with_areas(area, b, pages, n),
    decreases n,
{
    if n > 0 {
        lemma_areas_of_front(area, a, b, pages, n - 1);
        assert(a[n - 1] == b[n - 1]);
    }
}

} // verus!
