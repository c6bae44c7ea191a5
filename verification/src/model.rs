//! The document model.
//!
//! Everything before this produces evidence; this decides. A page's regions,
//! tables, running elements, images and vector art all describe the same
//! surface, and something has to say which classification wins where they
//! overlap. The ordering is by how much the classifier knows: a table claims its
//! region because a drawn grid or aligned columns is positive evidence; a
//! running element because it repeats across pages; a paragraph claims what is
//! left. Anything that cannot be confidently classified is preserved as opaque
//! content, drawn and moved but never reflowed: guessing is worse than
//! declining.

use vstd::multiset::Multiset;
use vstd::prelude::*;

use crate::annots;
use crate::annots::{Annotation, AnnotationModel};
use crate::content::Step;
use crate::geometry::Rect;
use crate::graphics;
use crate::graphics::{BlockModel, Graphics, ImageBlock, VectorBlock};
use crate::extract;
use crate::extract::{GlyphRun, PageFont, ResolvedRun};
use crate::lines;
use crate::lines::{Line, LineModel, PlacedGlyph};
use crate::objects::{Dictionary, Document};
use crate::paragraphs;
use crate::paragraphs::{Paragraph, ParagraphModel};
use crate::partition;
use crate::regions;
use crate::regions::{Region, RegionModel};
use crate::rules;
use crate::rules::Rule;
use crate::running;
use crate::running::{PageRegions, PageView, RunningElement, RunningModel};
use crate::scalar;
use crate::scalar::Scalar;
use crate::structure;
use crate::structure::{StructTree, TreeModel};
use crate::tables;
use crate::tables::{CellModel, Table, TableModel};
use crate::text;

verus! {

/// Where a block sits in the document.
#[derive(Debug, Clone, Copy, PartialEq, Eq, PartialOrd, Ord, Structural)]
pub struct BlockId {
    pub page: usize,
    pub index: usize,
}

/// Why a region was not classified.
#[derive(Debug, Clone, Copy, PartialEq, Eq, Structural)]
pub enum DeclineReason {
    /// Too few glyphs mapped to Unicode for the text to be trusted.
    Unmapped,
    /// The text is not horizontal, so line and paragraph geometry does not
    /// apply. Reported rather than rotated into place, because the rotation
    /// would have to be guessed.
    NonHorizontal,
}

/// Where the reading order came from.
#[derive(Debug, Clone, Copy, PartialEq, Eq, Structural)]
pub enum OrderSource {
    /// The structure tree: the producer's own statement.
    Structure,
    /// The traversal of the tree of cuts.
    Geometry,
}

/// Content that could not be confidently classified.
///
/// It keeps its lines, so it can be drawn and repositioned, and it records why
/// it was declined so a caller can tell a scanned page from a corrupt font.
#[derive(Debug)]
pub struct RawBlock<S> {
    pub lines: Vec<Line<S>>,
    pub bbox: Rect<S>,
    pub reason: DeclineReason,
}

/// What declined content says.
#[verifier::ext_equal]
pub struct RawModel<S> {
    pub lines: Seq<LineModel<S>>,
    pub bbox: Rect<S>,
    pub reason: DeclineReason,
}

impl<S> View for RawBlock<S> {
    type V = RawModel<S>;

    open spec fn view(&self) -> RawModel<S> {
        RawModel {
            lines: lines::line_models(self.lines@),
            bbox: self.bbox,
            reason: self.reason,
        }
    }
}

fn run_on<S: Scalar>(l: &Vec<Line<S>>) -> (r: String)
    ensures
        r@ == tables::run_on_text(lines::line_models(l@), l@.len() as int),
{
    let ghost models = lines::line_models(l@);
    let mut out = String::new();
    let mut i: usize = 0;
    while i < l.len()
        invariant
            i <= l@.len(),
            models == lines::line_models(l@),
            out@ == tables::run_on_text(models, i as int),
        decreases l@.len() - i,
    {
        if i > 0 {
            out.push(' ');
        }
        let t = crate::words::line_text(&l[i]);
        assert(models[i as int].glyphs == l@[i as int].glyphs@);
        text::append(&mut out, &t);
        if i == 0 {
            assert(out@ =~= t@);
        }
        i += 1;
    }
    out
}

impl<S: Scalar> RawBlock<S> {
    /// Whatever text could be recovered. May be empty, and may be wrong; it is
    /// offered for search and display, never for reflow.
    pub fn text(&self) -> (r: String)
        ensures
            r@ == tables::run_on_text(self@.lines, self@.lines.len() as int),
    {
        run_on(&self.lines)
    }
}

/// A classified block.
#[derive(Debug)]
pub enum Block<S> {
    Paragraph(Paragraph<S>),
    Table(Table<S>),
    Image(ImageBlock<S>),
    Vector(VectorBlock<S>),
    Running(RunningElement<S>),
    /// Preserved verbatim, never reflowed.
    Unknown(RawBlock<S>),
}

/// What a block says.
#[verifier::ext_equal]
pub enum BlockView<S> {
    Paragraph(ParagraphModel<S>),
    Table(TableModel<S>),
    Image(ImageBlock<S>),
    Vector(BlockModel<S>),
    Running(RunningModel<S>),
    Unknown(RawModel<S>),
}

impl<S> View for Block<S> {
    type V = BlockView<S>;

    open spec fn view(&self) -> BlockView<S> {
        match self {
            Block::Paragraph(p) => BlockView::Paragraph(p@),
            Block::Table(t) => BlockView::Table(t@),
            Block::Image(i) => BlockView::Image(*i),
            Block::Vector(v) => BlockView::Vector(v@),
            Block::Running(r) => BlockView::Running(r@),
            Block::Unknown(u) => BlockView::Unknown(u@),
        }
    }
}

/// What a list of blocks says.
pub open spec fn block_views<S>(v: Seq<Block<S>>) -> Seq<BlockView<S>> {
    Seq::new(v.len(), |i: int| v[i]@)
}

/// What a list of lists of lines says.
pub open spec fn line_lists<S>(v: Seq<Vec<Line<S>>>) -> Seq<Seq<LineModel<S>>> {
    Seq::new(v.len(), |i: int| lines::line_models(v[i]@))
}

impl<S> BlockView<S> {
    /// The box of a block.
    pub open spec fn spec_bbox(self) -> Rect<S> {
        match self {
            BlockView::Paragraph(p) => p.bbox,
            BlockView::Table(t) => t.bbox,
            BlockView::Image(i) => i.bbox,
            BlockView::Vector(v) => v.bbox,
            BlockView::Running(r) => r.bbox,
            BlockView::Unknown(u) => u.bbox,
        }
    }

    /// What a block is called.
    pub open spec fn name(self) -> Seq<char> {
        match self {
            BlockView::Paragraph(_) => "paragraph"@,
            BlockView::Table(_) => "table"@,
            BlockView::Image(_) => "image"@,
            BlockView::Vector(_) => "vector"@,
            BlockView::Running(_) => "running"@,
            BlockView::Unknown(_) => "unknown"@,
        }
    }
}

impl<S: Scalar> Block<S> {
    /// The box of the block.
    pub fn bbox(&self) -> (r: Rect<S>)
        ensures
            r == self@.spec_bbox(),
    {
        match self {
            Block::Paragraph(p) => p.bbox,
            Block::Table(t) => t.bbox,
            Block::Image(i) => i.bbox,
            Block::Vector(v) => v.bbox,
            Block::Running(r) => r.bbox,
            Block::Unknown(u) => u.bbox,
        }
    }

    /// Whether this block's content may be reflowed by an edit. What could not
    /// be classified is opaque; images and vector art are placed, not flowed.
    pub fn is_reflowable(&self) -> (r: bool)
        ensures
            r == (self@ is Paragraph || self@ is Table),
    {
        match self {
            Block::Paragraph(_) | Block::Table(_) => true,
            Block::Image(_) | Block::Vector(_) | Block::Running(_) | Block::Unknown(_) => false,
        }
    }

    /// What the block is called.
    pub fn kind(&self) -> (r: &'static str)
        ensures
            r@ == self@.name(),
    {
        match self {
            Block::Paragraph(_) => "paragraph",
            Block::Table(_) => "table",
            Block::Image(_) => "image",
            Block::Vector(_) => "vector",
            Block::Running(_) => "running",
            Block::Unknown(_) => "unknown",
        }
    }
}

/// A page of the model.
#[derive(Debug)]
pub struct PageModel<S> {
    pub blocks: Vec<Block<S>>,
    /// The page's annotations.
    ///
    /// Not blocks. An annotation is drawn over the page by the viewer, so it has
    /// no place in the reading order, but it can carry text a reader sees and
    /// the content does not hold.
    pub annotations: Vec<Annotation<S>>,
    pub media_box: Rect<S>,
    pub crop_box: Rect<S>,
    pub rotate: i32,
    /// The lines each block came from, parallel to `blocks`, for the blocks
    /// that came from text. Empty for images and vector art.
    pub lines: Vec<Vec<Line<S>>>,
}

/// Blocks with the lines they came from.
#[verifier::ext_equal]
pub struct Flow<S> {
    pub blocks: Seq<BlockView<S>>,
    pub lines: Seq<Seq<LineModel<S>>>,
}

impl<S> Flow<S> {
    /// No blocks.
    pub open spec fn none() -> Flow<S> {
        Flow { blocks: Seq::empty(), lines: Seq::empty() }
    }

    /// One block more.
    pub open spec fn with(self, block: BlockView<S>, l: Seq<LineModel<S>>) -> Flow<S> {
        Flow { blocks: self.blocks.push(block), lines: self.lines.push(l) }
    }
}

/// What a page of the model says.
#[verifier::ext_equal]
pub struct ModelPage<S> {
    pub flow: Flow<S>,
    pub annotations: Seq<AnnotationModel<S>>,
    pub media_box: Rect<S>,
    pub crop_box: Rect<S>,
    pub rotate: i32,
}

impl<S> View for PageModel<S> {
    type V = ModelPage<S>;

    open spec fn view(&self) -> ModelPage<S> {
        ModelPage {
            flow: Flow { blocks: block_views(self.blocks@), lines: line_lists(self.lines@) },
            annotations: annots::annotation_models(self.annotations@),
            media_box: self.media_box,
            crop_box: self.crop_box,
            rotate: self.rotate,
        }
    }
}

/// What a list of pages says.
pub open spec fn model_pages<S>(v: Seq<PageModel<S>>) -> Seq<ModelPage<S>> {
    Seq::new(v.len(), |i: int| v[i]@)
}

/// What one page contributes to the model.
pub struct PageInput<'a, S> {
    pub regions: &'a Vec<Region<S>>,
    /// The page's annotations, already read. Empty means the page has none.
    pub annotations: Vec<Annotation<S>>,
    pub rules: &'a Vec<Rule<S>>,
    pub runs: &'a Vec<ResolvedRun<S>>,
    pub media_box: Rect<S>,
    pub crop_box: Rect<S>,
    pub rotate: i32,
    pub graphics: Graphics<S>,
}

/// What one page contributes, as said.
#[verifier::ext_equal]
pub struct InputModel<S> {
    pub regions: Seq<RegionModel<S>>,
    pub annotations: Seq<AnnotationModel<S>>,
    pub rules: Seq<Rule<S>>,
    pub runs: Seq<ResolvedRun<S>>,
    pub media_box: Rect<S>,
    pub crop_box: Rect<S>,
    pub rotate: i32,
    pub images: Seq<ImageBlock<S>>,
    pub vectors: Seq<BlockModel<S>>,
}

impl<'a, S> View for PageInput<'a, S> {
    type V = InputModel<S>;

    open spec fn view(&self) -> InputModel<S> {
        InputModel {
            regions: regions::region_models(self.regions@),
            annotations: annots::annotation_models(self.annotations@),
            rules: self.rules@,
            runs: self.runs@,
            media_box: self.media_box,
            crop_box: self.crop_box,
            rotate: self.rotate,
            images: self.graphics.images@,
            vectors: graphics::block_models(self.graphics.vectors@),
        }
    }
}

/// What a list of contributions says.
pub open spec fn input_models<'a, S>(v: Seq<PageInput<'a, S>>) -> Seq<InputModel<S>> {
    Seq::new(v.len(), |i: int| v[i]@)
}

/// The glyphs of the first `n` cells.
pub open spec fn cells_glyphs<S>(cells: Seq<CellModel<S>>, n: int) -> Seq<PlacedGlyph<S>>
    decreases n,
{
    if n <= 0 {
        Seq::empty()
    } else {
        cells_glyphs(cells, n - 1) + regions::spread_glyphs(cells[n - 1].lines)
    }
}

/// The glyphs of a table.
pub open spec fn table_glyphs<S>(t: TableModel<S>) -> Seq<PlacedGlyph<S>> {
    cells_glyphs(t.cells, t.cells.len() as int)
}

/// Whether a glyph is among some. Its run and its place there tell it from any
/// other on a page.
pub open spec fn among<S>(g: Seq<PlacedGlyph<S>>, x: PlacedGlyph<S>) -> bool {
    exists|i: int| 0 <= i < g.len() && (#[trigger] g[i]).run == x.run && g[i].index == x.index
}

/// Whether some table holds a glyph.
pub open spec fn tabled<S>(t: Seq<TableModel<S>>, x: PlacedGlyph<S>) -> bool {
    exists|i: int| 0 <= i < t.len() && among(table_glyphs(#[trigger] t[i]), x)
}

/// Those of the first `n` glyphs that no table holds.
pub open spec fn left_over<S>(t: Seq<TableModel<S>>, g: Seq<PlacedGlyph<S>>, n: int) -> Seq<
    PlacedGlyph<S>,
>
    decreases n,
{
    if n <= 0 {
        Seq::empty()
    } else if tabled(t, g[n - 1]) {
        left_over(t, g, n - 1)
    } else {
        left_over(t, g, n - 1).push(g[n - 1])
    }
}

/// Whether a table took a glyph of a region.
pub open spec fn shares<S>(t: TableModel<S>, r: RegionModel<S>) -> bool {
    let own = regions::spread_glyphs(r.lines);
    exists|i: int| 0 <= i < own.len() && among(table_glyphs(t), #[trigger] own[i])
}

/// The first region, from `from` on, that a table took a glyph of; one past the
/// last where there is none.
pub open spec fn anchor_of<S>(r: Seq<RegionModel<S>>, t: TableModel<S>, from: int) -> int
    decreases r.len() - from,
{
    if from < 0 || from >= r.len() {
        r.len() as int
    } else if shares(t, r[from]) {
        from
    } else {
        anchor_of(r, t, from + 1)
    }
}

/// Blocks after which those of the first `n` tables come that are anchored at a
/// region.
pub open spec fn with_tables<S>(
    flow: Flow<S>,
    r: Seq<RegionModel<S>>,
    t: Seq<TableModel<S>>,
    at: int,
    n: int,
) -> Flow<S>
    decreases n,
{
    if n <= 0 {
        flow
    } else {
        let before = with_tables(flow, r, t, at, n - 1);
        if anchor_of(r, t[n - 1], 0) == at {
            before.with(BlockView::Table(t[n - 1]), Seq::empty())
        } else {
            before
        }
    }
}

/// Whether a running element has an instance at a block of a page.
pub open spec fn instance_at<S>(r: RunningModel<S>, page: usize, index: usize) -> bool {
    exists|k: int|
        0 <= k < r.pages.len() && k < r.blocks.len() && #[trigger] r.pages[k] == page
            && r.blocks[k] == index
}

/// The first running element, from `from` on, with an instance at a block of a
/// page; one past the last where there is none.
pub open spec fn running_at<S>(
    r: Seq<RunningModel<S>>,
    page: usize,
    index: usize,
    from: int,
) -> int
    decreases r.len() - from,
{
    if from < 0 || from >= r.len() {
        r.len() as int
    } else if instance_at(r[from], page, index) {
        from
    } else {
        running_at(r, page, index, from + 1)
    }
}

/// How many of the first `n` glyphs are mapped to text.
pub open spec fn mapped_among<S>(g: Seq<PlacedGlyph<S>>, n: int) -> nat
    decreases n,
{
    if n <= 0 {
        0
    } else if g[n - 1].text is Some {
        mapped_among(g, n - 1) + 1
    } else {
        mapped_among(g, n - 1)
    }
}

/// Whether a line runs across the page.
pub open spec fn level<S: Scalar>(l: LineModel<S>) -> bool {
    l.direction.spec_magnitude().spec_lt(lines::direction_tolerance::<S>())
}

/// Why lines must be declined rather than read as paragraphs, if they must:
/// some are not horizontal, or less than half of their glyphs are mapped.
pub open spec fn declined<S: Scalar>(l: Seq<LineModel<S>>) -> Option<DeclineReason> {
    let g = regions::spread_glyphs(l);
    if g.len() == 0 {
        None
    } else if exists|i: int| 0 <= i < l.len() && !level(#[trigger] l[i]) {
        Some(DeclineReason::NonHorizontal)
    } else if scalar::count::<S>(
        scalar::held(mapped_among(g, g.len() as int) as int),
    ).spec_lt(
        scalar::count::<S>(scalar::held(g.len() as int)).spec_times(S::spec_ratio(1, 2)),
    ) {
        Some(DeclineReason::Unmapped)
    } else {
        None
    }
}

/// Blocks after which the first `n` paragraphs of some lines come.
pub open spec fn with_paragraphs<S>(
    flow: Flow<S>,
    l: Seq<LineModel<S>>,
    p: Seq<ParagraphModel<S>>,
    n: int,
) -> Flow<S>
    decreases n,
{
    if n <= 0 {
        flow
    } else {
        with_paragraphs(flow, l, p, n - 1).with(
            BlockView::Paragraph(p[n - 1]),
            l.subrange(p[n - 1].from, p[n - 1].to),
        )
    }
}

/// Blocks after which the lines that no table took come: declined, or read as
/// paragraphs.
pub open spec fn with_lines<S: Scalar>(
    flow: Flow<S>,
    l: Seq<LineModel<S>>,
    bbox: Rect<S>,
    runs: Seq<ResolvedRun<S>>,
) -> Flow<S> {
    match declined(l) {
        Some(reason) => flow.with(BlockView::Unknown(RawModel { lines: l, bbox, reason }), l),
        None => {
            let p = paragraphs::paragraphs_of(l, runs);
            with_paragraphs(flow, l, p, p.len() as int)
        },
    }
}

/// Blocks after which a region comes, as far as no table took it: as the running
/// element it is an instance of, else as lines.
pub open spec fn with_region<S: Scalar>(
    flow: Flow<S>,
    r: RegionModel<S>,
    t: Seq<TableModel<S>>,
    run: Seq<RunningModel<S>>,
    runs: Seq<ResolvedRun<S>>,
    page: usize,
    index: usize,
) -> Flow<S> {
    let k = running_at(run, page, index, 0);
    let own = regions::spread_glyphs(r.lines);
    let left = left_over(t, own, own.len() as int);
    if left.len() == 0 {
        flow
    } else if left.len() == own.len() {
        if 0 <= k < run.len() {
            flow.with(BlockView::Running(run[k]), r.lines)
        } else {
            with_lines(flow, r.lines, r.bbox, runs)
        }
    } else {
        let l = lines::assembled(left);
        if 0 <= k < run.len() {
            flow.with(BlockView::Running(run[k]), l)
        } else {
            with_lines(flow, l, paragraphs::lines_box(l, 0, l.len() as int), runs)
        }
    }
}

/// The blocks of the first `n` regions of a page, each table before the first
/// region that it took a glyph of.
pub open spec fn region_flow<S: Scalar>(
    input: InputModel<S>,
    t: Seq<TableModel<S>>,
    run: Seq<RunningModel<S>>,
    page: usize,
    n: int,
) -> Flow<S>
    decreases n,
{
    if n <= 0 {
        Flow::none()
    } else {
        let before = region_flow(input, t, run, page, n - 1);
        with_region(
            with_tables(before, input.regions, t, n - 1, t.len() as int),
            input.regions[n - 1],
            t,
            run,
            input.runs,
            page,
            (n - 1) as usize,
        )
    }
}

/// Blocks after which the first `n` images come.
pub open spec fn with_images<S>(flow: Flow<S>, images: Seq<ImageBlock<S>>, n: int) -> Flow<S>
    decreases n,
{
    if n <= 0 {
        flow
    } else {
        with_images(flow, images, n - 1).with(BlockView::Image(images[n - 1]), Seq::empty())
    }
}

/// Blocks after which the first `n` drawings come.
pub open spec fn with_vectors<S>(flow: Flow<S>, vectors: Seq<BlockModel<S>>, n: int) -> Flow<S>
    decreases n,
{
    if n <= 0 {
        flow
    } else {
        with_vectors(flow, vectors, n - 1).with(BlockView::Vector(vectors[n - 1]), Seq::empty())
    }
}

/// The blocks of a page: the text in region order, the tables that took no
/// glyph of a region, the images and the drawings.
pub open spec fn flow_of<S: Scalar>(
    input: InputModel<S>,
    run: Seq<RunningModel<S>>,
    page: usize,
) -> Flow<S> {
    let t = tables::tables_of(input.regions, input.rules, input.runs);
    let n = input.regions.len() as int;
    let all = with_tables(
        region_flow(input, t, run, page, n),
        input.regions,
        t,
        n,
        t.len() as int,
    );
    with_vectors(
        with_images(all, input.images, input.images.len() as int),
        input.vectors,
        input.vectors.len() as int,
    )
}

/// The model of a page.
pub open spec fn page_of<S: Scalar>(
    input: InputModel<S>,
    run: Seq<RunningModel<S>>,
    page: usize,
) -> ModelPage<S> {
    ModelPage {
        flow: flow_of(input, run, page),
        annotations: input.annotations,
        media_box: input.media_box,
        crop_box: input.crop_box,
        rotate: input.rotate,
    }
}

/// The blocks of the first `n` pages, page by page.
pub open spec fn geometric<S>(pages: Seq<ModelPage<S>>, n: int) -> Seq<BlockId>
    decreases n,
{
    if n <= 0 {
        Seq::empty()
    } else {
        geometric(pages, n - 1) + Seq::new(
            pages[n - 1].flow.blocks.len(),
            |i: int| BlockId { page: (n - 1) as usize, index: i as usize },
        )
    }
}

/// Whether a block is a paragraph with a marked-content id.
pub open spec fn marked<S>(b: BlockView<S>, mcid: u32) -> bool {
    match b {
        BlockView::Paragraph(p) => p.mcid == Some(mcid),
        _ => false,
    }
}

/// Blocks after which those of the first `n` of a page come that have a
/// marked-content id and are not listed yet.
pub open spec fn with_marked<S>(
    ids: Seq<BlockId>,
    blocks: Seq<BlockView<S>>,
    page: usize,
    mcid: u32,
    n: int,
) -> Seq<BlockId>
    decreases n,
{
    if n <= 0 {
        ids
    } else {
        let before = with_marked(ids, blocks, page, mcid, n - 1);
        let id = BlockId { page, index: (n - 1) as usize };
        if marked(blocks[n - 1], mcid) && !before.contains(id) {
            before.push(id)
        } else {
            before
        }
    }
}

/// Blocks after which those of a page come that the first `n` of some
/// marked-content ids name.
pub open spec fn with_named<S>(
    ids: Seq<BlockId>,
    blocks: Seq<BlockView<S>>,
    page: usize,
    mcids: Seq<u32>,
    n: int,
) -> Seq<BlockId>
    decreases n,
{
    if n <= 0 {
        ids
    } else {
        with_marked(
            with_named(ids, blocks, page, mcids, n - 1),
            blocks,
            page,
            mcids[n - 1],
            blocks.len() as int,
        )
    }
}

/// The blocks of the first `n` pages that a structure tree names, in its order.
pub open spec fn tree_order<S>(pages: Seq<ModelPage<S>>, tree: TreeModel, n: int) -> Seq<BlockId>
    decreases n,
{
    if n <= 0 {
        Seq::empty()
    } else {
        let mcids = tree.mcids_of(tree.reading_order(), (n - 1) as usize);
        with_named(
            tree_order(pages, tree, n - 1),
            pages[n - 1].flow.blocks,
            (n - 1) as usize,
            mcids,
            mcids.len() as int,
        )
    }
}

/// Blocks after which those of the first `n` of others come that are not listed
/// yet.
pub open spec fn with_rest(ids: Seq<BlockId>, others: Seq<BlockId>, n: int) -> Seq<BlockId>
    decreases n,
{
    if n <= 0 {
        ids
    } else {
        let before = with_rest(ids, others, n - 1);
        if ids.contains(others[n - 1]) {
            before
        } else {
            before.push(others[n - 1])
        }
    }
}

/// The reading order of pages, and where it came from. The structure tree is the
/// producer's own statement, as far as it goes; what it does not mention keeps
/// its geometric order after it. A truncated tree is not trusted.
pub open spec fn order_of<S>(pages: Seq<ModelPage<S>>, tree: Option<TreeModel>) -> (
    Seq<BlockId>,
    OrderSource,
) {
    let all = geometric(pages, pages.len() as int);
    match tree {
        Some(t) => if t.truncated || t.elements.len() == 0 {
            (all, OrderSource::Geometry)
        } else {
            let named = tree_order(pages, t, pages.len() as int);
            (
                with_rest(named, all, all.len() as int),
                if named.len() > 0 {
                    OrderSource::Structure
                } else {
                    OrderSource::Geometry
                },
            )
        },
        None => (all, OrderSource::Geometry),
    }
}

/// A document, reconstructed.
#[derive(Debug)]
pub struct DocumentModel<S> {
    pub pages: Vec<PageModel<S>>,
    /// The structure tree when the document is tagged.
    pub structure: Option<StructTree>,
    pub reading_order: Vec<BlockId>,
    /// Which source produced `reading_order`. Recorded rather than implied: a
    /// caller trusting the order should know whether it was read or inferred.
    pub order_source: OrderSource,
}

/// What a document model says.
#[verifier::ext_equal]
pub struct DocumentView<S> {
    pub pages: Seq<ModelPage<S>>,
    pub structure: Option<TreeModel>,
    pub reading_order: Seq<BlockId>,
    pub order_source: OrderSource,
}

impl<S> View for DocumentModel<S> {
    type V = DocumentView<S>;

    open spec fn view(&self) -> DocumentView<S> {
        DocumentView {
            pages: model_pages(self.pages@),
            structure: match self.structure {
                Some(t) => Some(t@),
                None => None,
            },
            reading_order: self.reading_order@,
            order_source: self.order_source,
        }
    }
}

impl<S> DocumentView<S> {
    /// Whether the document has a block.
    pub open spec fn has(self, id: BlockId) -> bool {
        id.page < self.pages.len() && id.index < self.pages[id.page as int].flow.blocks.len()
    }

    /// A block of the document.
    pub open spec fn at(self, id: BlockId) -> BlockView<S> {
        self.pages[id.page as int].flow.blocks[id.index as int]
    }

    /// The first `n` blocks of the reading order that the document has.
    pub open spec fn present(self, n: int) -> Seq<BlockId>
        decreases n,
    {
        if n <= 0 {
            Seq::empty()
        } else if self.has(self.reading_order[n - 1]) {
            self.present(n - 1).push(self.reading_order[n - 1])
        } else {
            self.present(n - 1)
        }
    }
}

/// The texts of the first `n` cells that have any, set apart by tabs.
pub open spec fn tabbed<S: Scalar>(cells: Seq<CellModel<S>>, n: int) -> Seq<char>
    decreases n,
{
    if n <= 0 {
        Seq::empty()
    } else {
        let before = tabbed(cells, n - 1);
        let t = tables::run_on_text(cells[n - 1].lines, cells[n - 1].lines.len() as int);
        if text::blank(t) {
            before
        } else if before.len() == 0 {
            t
        } else {
            before.push('\t') + t
        }
    }
}

/// The text of a block of a page.
pub open spec fn part_of<S: Scalar>(page: ModelPage<S>, i: int) -> Seq<char> {
    match page.flow.blocks[i] {
        BlockView::Table(t) => tabbed(t.cells, t.cells.len() as int),
        BlockView::Image(_) => Seq::empty(),
        BlockView::Vector(_) => Seq::empty(),
        _ => if i < page.flow.lines.len() {
            tables::run_on_text(page.flow.lines[i], page.flow.lines[i].len() as int)
        } else {
            Seq::empty()
        },
    }
}

/// The text of the first `n` of some blocks, each to a row, blank ones left out.
pub open spec fn text_of<S: Scalar>(doc: DocumentView<S>, ids: Seq<BlockId>, n: int) -> Seq<char>
    decreases n,
{
    if n <= 0 {
        Seq::empty()
    } else {
        let before = text_of(doc, ids, n - 1);
        let part = part_of(doc.pages[ids[n - 1].page as int], ids[n - 1].index as int);
        let t = text::trimmed(part);
        if t.len() == 0 {
            before
        } else {
            (before + t).push('\n')
        }
    }
}

/// The model that contributions make of a document.
pub open spec fn built<S: Scalar>(doc: Document<S>, inputs: Seq<InputModel<S>>) -> DocumentView<S> {
    let margins = Seq::new(
        inputs.len(),
        |i: int| PageView { regions: inputs[i].regions, media_box: inputs[i].media_box },
    );
    let run = running::elements_of(margins);
    let pages = Seq::new(inputs.len(), |i: int| page_of(inputs[i], run, i as usize));
    let tree = structure::tree_of(doc);
    DocumentView {
        pages,
        structure: tree,
        reading_order: order_of(pages, tree).0,
        order_source: order_of(pages, tree).1,
    }
}

fn copy_lines<S: Scalar>(l: &Vec<Line<S>>, from: usize, to: usize) -> (r: Vec<Line<S>>)
    requires
        from <= to <= l@.len(),
    ensures
        lines::line_models(r@) == lines::line_models(l@).subrange(from as int, to as int),
{
    let ghost models = lines::line_models(l@);
    let mut out: Vec<Line<S>> = Vec::new();
    let mut i: usize = from;
    while i < to
        invariant
            from <= i <= to <= l@.len(),
            models == lines::line_models(l@),
            out@.len() == i - from,
            forall|k: int| 0 <= k < i - from ==> (#[trigger] out@[k])@ == models[from + k],
        decreases to - i,
    {
        out.push(l[i].copy());
        i += 1;
    }
    assert(lines::line_models(out@) =~= models.subrange(from as int, to as int));
    out
}

fn copy_all_lines<S: Scalar>(l: &Vec<Line<S>>) -> (r: Vec<Line<S>>)
    ensures
        lines::line_models(r@) == lines::line_models(l@),
{
    let r = copy_lines(l, 0, l.len());
    assert(lines::line_models(l@).subrange(0, l@.len() as int) =~= lines::line_models(l@));
    r
}

/// The run and the place there of each glyph of a table.
fn table_keys<S: Scalar>(t: &Table<S>) -> (r: Vec<(usize, usize)>)
    ensures
        keys_right(r@, table_glyphs(t@)),
{
    let ghost cells = t@.cells;
    let mut out: Vec<(usize, usize)> = Vec::new();
    let mut i: usize = 0;
    while i < t.cells.len()
        invariant
            i <= t.cells@.len(),
            cells == tables::cell_models(t.cells@),
            keys_right(out@, cells_glyphs(cells, i as int)),
        decreases t.cells@.len() - i,
    {
        let cell = &t.cells[i];
        let ghost before = cells_glyphs(cells, i as int);
        assert(cells[i as int].lines == lines::line_models(cell.lines@));
        add_keys(&mut out, &cell.lines, Ghost(before));
        i += 1;
    }
    out
}

spec fn keys_right<S>(keys: Seq<(usize, usize)>, g: Seq<PlacedGlyph<S>>) -> bool {
    &&& keys.len() == g.len()
    &&& forall|i: int| 0 <= i < g.len() ==> #[trigger] keys[i] == (g[i].run, g[i].index)
}

fn add_keys<S: Scalar>(
    out: &mut Vec<(usize, usize)>,
    l: &Vec<Line<S>>,
    Ghost(before): Ghost<Seq<PlacedGlyph<S>>>,
)
    requires
        keys_right(old(out)@, before),
    ensures
        keys_right(
            final(out)@,
            before + regions::spread_glyphs(lines::line_models(l@)),
        ),
{
    let ghost models = lines::line_models(l@);
    let mut i: usize = 0;
    assert(before + regions::spread_glyphs(models.take(0)) =~= before);
    while i < l.len()
        invariant
            i <= l@.len(),
            models == lines::line_models(l@),
            keys_right(out@, before + regions::spread_glyphs(models.take(i as int))),
        decreases l@.len() - i,
    {
        let line = &l[i];
        let ghost held = before + regions::spread_glyphs(models.take(i as int));
        assert(models[i as int].glyphs == line.glyphs@);
        let mut k: usize = 0;
        assert(held + line.glyphs@.take(0) =~= held);
        while k < line.glyphs.len()
            invariant
                k <= line.glyphs@.len(),
                keys_right(out@, held + line.glyphs@.take(k as int)),
            decreases line.glyphs@.len() - k,
        {
            out.push((line.glyphs[k].run, line.glyphs[k].index));
            assert(held + line.glyphs@.take(k + 1) =~= (held + line.glyphs@.take(k as int)).push(
                line.glyphs@[k as int],
            ));
            k += 1;
        }
        assert(line.glyphs@.take(k as int) =~= line.glyphs@);
        assert(models.take(i + 1).drop_last() =~= models.take(i as int));
        assert(before + regions::spread_glyphs(models.take(i + 1)) =~= held + line.glyphs@);
        i += 1;
    }
    assert(models.take(i as int) =~= models);
}

fn has_key<S: Scalar>(
    keys: &Vec<(usize, usize)>,
    x: &PlacedGlyph<S>,
    Ghost(g): Ghost<Seq<PlacedGlyph<S>>>,
) -> (r: bool)
    requires
        keys_right(keys@, g),
    ensures
        r == among(g, *x),
{
    let mut i: usize = 0;
    while i < keys.len()
        invariant
            i <= keys@.len(),
            keys_right(keys@, g),
            forall|k: int|
                0 <= k < i ==> !((#[trigger] g[k]).run == x.run && g[k].index == x.index),
        decreases keys@.len() - i,
    {
        assert(keys@[i as int] == (g[i as int].run, g[i as int].index));
        if keys[i].0 == x.run && keys[i].1 == x.index {
            return true;
        }
        i += 1;
    }
    false
}

spec fn all_keys_right<S>(keys: Seq<Vec<(usize, usize)>>, t: Seq<TableModel<S>>) -> bool {
    &&& keys.len() == t.len()
    &&& forall|i: int| 0 <= i < t.len() ==> keys_right((#[trigger] keys[i])@, table_glyphs(t[i]))
}

fn is_tabled<S: Scalar>(
    keys: &Vec<Vec<(usize, usize)>>,
    x: &PlacedGlyph<S>,
    Ghost(t): Ghost<Seq<TableModel<S>>>,
) -> (r: bool)
    requires
        all_keys_right(keys@, t),
    ensures
        r == tabled(t, *x),
{
    let mut i: usize = 0;
    while i < keys.len()
        invariant
            i <= keys@.len(),
            all_keys_right(keys@, t),
            forall|k: int| 0 <= k < i ==> !among(table_glyphs(#[trigger] t[k]), *x),
        decreases keys@.len() - i,
    {
        assert(keys_right(keys@[i as int]@, table_glyphs(t[i as int])));
        if has_key(&keys[i], x, Ghost(table_glyphs(t[i as int]))) {
            return true;
        }
        i += 1;
    }
    false
}

/// The glyphs of lines, line by line.
fn flatten<S: Scalar>(l: &Vec<Line<S>>) -> (r: Vec<PlacedGlyph<S>>)
    ensures
        r@ == regions::spread_glyphs(lines::line_models(l@)),
{
    let ghost models = lines::line_models(l@);
    let mut v: Vec<PlacedGlyph<S>> = Vec::new();
    let mut i: usize = 0;
    while i < l.len()
        invariant
            i <= l@.len(),
            models == lines::line_models(l@),
            v@ == regions::spread_glyphs(models.take(i as int)),
        decreases l@.len() - i,
    {
        let mut own = lines::copy_glyphs(&l[i].glyphs);
        assert(models.take(i + 1).drop_last() =~= models.take(i as int));
        assert(models.take(i + 1).last().glyphs == l@[i as int].glyphs@);
        v.append(&mut own);
        i += 1;
    }
    assert(models.take(i as int) =~= models);
    v
}

/// The first region that a table took a glyph of.
fn find_anchor<S: Scalar>(
    r: &Vec<Region<S>>,
    keys: &Vec<(usize, usize)>,
    Ghost(t): Ghost<TableModel<S>>,
) -> (at: usize)
    requires
        keys_right(keys@, table_glyphs(t)),
    ensures
        at == anchor_of(regions::region_models(r@), t, 0),
{
    let ghost models = regions::region_models(r@);
    let mut i: usize = 0;
    while i < r.len()
        invariant
            i <= r@.len(),
            models == regions::region_models(r@),
            keys_right(keys@, table_glyphs(t)),
            anchor_of(models, t, 0) == anchor_of(models, t, i as int),
        decreases r@.len() - i,
    {
        let own = flatten(&r[i].lines);
        assert(models[i as int].lines == lines::line_models(r@[i as int].lines@));
        let mut found = false;
        let mut k: usize = 0;
        while k < own.len() && !found
            invariant
                k <= own@.len(),
                keys_right(keys@, table_glyphs(t)),
                found == exists|j: int| 0 <= j < k && among(table_glyphs(t), #[trigger] own@[j]),
            decreases own@.len() - k,
        {
            if has_key(keys, &own[k], Ghost(table_glyphs(t))) {
                found = true;
            }
            k += 1;
        }
        if found {
            assert(shares(t, models[i as int]));
            return i;
        }
        assert(!shares(t, models[i as int]));
        i += 1;
    }
    i
}

fn has_instance<S: Scalar>(r: &RunningElement<S>, page: usize, index: usize) -> (b: bool)
    ensures
        b == instance_at(r@, page, index),
{
    let mut k: usize = 0;
    while k < r.pages.len() && k < r.blocks.len()
        invariant
            k <= r.pages@.len(),
            k <= r.blocks@.len(),
            forall|j: int|
                0 <= j < k ==> !(#[trigger] r@.pages[j] == page && r@.blocks[j] == index),
        decreases r.pages@.len() - k,
    {
        if r.pages[k] == page && r.blocks[k] == index {
            assert(r@.pages[k as int] == page);
            return true;
        }
        k += 1;
    }
    false
}

fn find_running<S: Scalar>(run: &Vec<RunningElement<S>>, page: usize, index: usize) -> (r: usize)
    ensures
        r == running_at(running::running_models(run@), page, index, 0),
        r <= run@.len(),
{
    let ghost models = running::running_models(run@);
    let mut i: usize = 0;
    while i < run.len()
        invariant
            i <= run@.len(),
            models == running::running_models(run@),
            running_at(models, page, index, 0) == running_at(models, page, index, i as int),
        decreases run@.len() - i,
    {
        assert(models[i as int] == run@[i as int]@);
        if has_instance(&run[i], page, index) {
            return i;
        }
        i += 1;
    }
    i
}

/// Whether lines must be declined rather than read as paragraphs.
fn decline<S: Scalar>(l: &Vec<Line<S>>) -> (r: Option<DeclineReason>)
    ensures
        r == declined(lines::line_models(l@)),
{
    let ghost models = lines::line_models(l@);
    let glyphs = flatten(l);
    if glyphs.len() == 0 {
        return None;
    }
    // Indent, alignment and margin all assume a horizontal measure.
    let mut i: usize = 0;
    while i < l.len()
        invariant
            i <= l@.len(),
            models == lines::line_models(l@),
            glyphs@ == regions::spread_glyphs(models),
            glyphs@.len() > 0,
            forall|k: int| 0 <= k < i ==> level(#[trigger] models[k]),
        decreases l@.len() - i,
    {
        assert(models[i as int] == l@[i as int]@);
        if !l[i].is_horizontal() {
            assert(!level(models[i as int]));
            return Some(DeclineReason::NonHorizontal);
        }
        i += 1;
    }
    let mut mapped: usize = 0;
    let mut k: usize = 0;
    while k < glyphs.len()
        invariant
            k <= glyphs@.len(),
            mapped <= k,
            mapped == mapped_among(glyphs@, k as int),
        decreases glyphs@.len() - k,
    {
        if glyphs[k].is_mapped() {
            mapped += 1;
        }
        k += 1;
    }
    if scalar::from_count::<S>(mapped).lt(
        scalar::from_count::<S>(glyphs.len()).times(S::ratio(1, 2)),
    ) {
        return Some(DeclineReason::Unmapped);
    }
    None
}

/// Blocks under construction, with the lines they came from.
struct Builder<S> {
    blocks: Vec<Block<S>>,
    lines: Vec<Vec<Line<S>>>,
}

impl<S> View for Builder<S> {
    type V = Flow<S>;

    closed spec fn view(&self) -> Flow<S> {
        Flow { blocks: block_views(self.blocks@), lines: line_lists(self.lines@) }
    }
}

impl<S: Scalar> Builder<S> {
    fn new() -> (r: Builder<S>)
        ensures
            r@ == Flow::<S>::none(),
    {
        let r = Builder { blocks: Vec::new(), lines: Vec::new() };
        assert(r@ =~= Flow::<S>::none());
        r
    }

    fn push(&mut self, block: Block<S>, l: Vec<Line<S>>)
        ensures
            final(self)@ == old(self)@.with(block@, lines::line_models(l@)),
    {
        let ghost before = *self;
        self.blocks.push(block);
        self.lines.push(l);
        assert(block_views(self.blocks@) =~= block_views(before.blocks@).push(block@));
        assert(line_lists(self.lines@) =~= line_lists(before.lines@).push(
            lines::line_models(l@),
        ));
    }

    /// Add a block that came from no lines.
    fn place(&mut self, block: Block<S>)
        ensures
            final(self)@ == old(self)@.with(block@, Seq::empty()),
    {
        let l: Vec<Line<S>> = Vec::new();
        assert(lines::line_models(l@) =~= Seq::empty());
        self.push(block, l);
    }
}

spec fn slot_holds<S>(slot: Option<Table<S>>, t: TableModel<S>) -> bool {
    match slot {
        Some(table) => table@ == t,
        None => false,
    }
}

spec fn anchored<S>(anchors: Seq<usize>, r: Seq<RegionModel<S>>, t: Seq<TableModel<S>>) -> bool {
    &&& anchors.len() == t.len()
    &&& forall|k: int| 0 <= k < t.len() ==> (#[trigger] anchors[k]) == anchor_of(r, t[k], 0)
}

/// Add the tables that are anchored at a region.
fn emit_tables<S: Scalar>(
    out: &mut Builder<S>,
    slots: &mut Vec<Option<Table<S>>>,
    anchors: &Vec<usize>,
    at: usize,
    Ghost(r): Ghost<Seq<RegionModel<S>>>,
    Ghost(t): Ghost<Seq<TableModel<S>>>,
)
    requires
        anchored(anchors@, r, t),
        old(slots)@.len() == t.len(),
        forall|k: int|
            0 <= k < t.len() && anchors@[k] >= at ==> slot_holds(#[trigger] old(slots)@[k], t[k]),
    ensures
        final(out)@ == with_tables(old(out)@, r, t, at as int, t.len() as int),
        final(slots)@.len() == t.len(),
        forall|k: int|
            0 <= k < t.len() && anchors@[k] > at ==> slot_holds(#[trigger] final(slots)@[k], t[k]),
{
    let ghost before = out@;
    let mut i: usize = 0;
    while i < anchors.len()
        invariant
            i <= anchors@.len(),
            anchored(anchors@, r, t),
            slots@.len() == t.len(),
            before == old(out)@,
            out@ == with_tables(before, r, t, at as int, i as int),
            forall|k: int|
                0 <= k < t.len() && (anchors@[k] > at || (anchors@[k] == at && k >= i))
                    ==> slot_holds(#[trigger] slots@[k], t[k]),
        decreases anchors@.len() - i,
    {
        if anchors[i] == at {
            assert(slot_holds(slots@[i as int], t[i as int]));
            let mut slot: Option<Table<S>> = None;
            std::mem::swap(&mut slot, &mut slots[i]);
            if let Some(table) = slot {
                out.place(Block::Table(table));
            }
        }
        i += 1;
    }
}

/// Add the lines that no table took: declined, or read as paragraphs.
fn emit_lines<S: Scalar>(
    out: &mut Builder<S>,
    region: Region<S>,
    runs: &Vec<ResolvedRun<S>>,
)
    ensures
        final(out)@ == with_lines(old(out)@, region@.lines, region.bbox, runs@),
{
    let ghost l = region@.lines;
    let ghost before = out@;
    match decline(&region.lines) {
        Some(reason) => {
            let own = copy_all_lines(&region.lines);
            let raw = RawBlock { lines: region.lines, bbox: region.bbox, reason };
            out.push(Block::Unknown(raw), own);
        },
        None => {
            let found = paragraphs::reconstruct(&region, runs);
            let ghost p = paragraphs::paragraph_models(found@);
            let ghost list = found@;
            proof {
                lemma_paragraphs_within(l, runs@);
            }
            for one in it: found
                invariant
                    it.seq() == list,
                    l == lines::line_models(region.lines@),
                    p == paragraphs::paragraph_models(list),
                    forall|k: int|
                        0 <= k < p.len() ==> 0 <= (#[trigger] p[k]).from <= p[k].to <= l.len(),
                    out@ == with_paragraphs(before, l, p, it.index() as int),
            {
                assert(one@ == p[it.index() as int]);
                let own = copy_lines(&region.lines, one.lines.start, one.lines.end);
                out.push(Block::Paragraph(one), own);
            }
        },
    }
}

proof fn lemma_paragraphs_within<S: Scalar>(l: Seq<LineModel<S>>, runs: Seq<ResolvedRun<S>>)
    ensures
        forall|k: int|
            0 <= k < paragraphs::paragraphs_of(l, runs).len() ==> 0 <= (
            #[trigger] paragraphs::paragraphs_of(l, runs)[k]).from <= paragraphs::paragraphs_of(
                l,
                runs,
            )[k].to <= l.len(),
{
    let p = paragraphs::paragraphs_of(l, runs);
    assert forall|k: int| 0 <= k < p.len() implies 0 <= (#[trigger] p[k]).from <= p[k].to
        <= l.len() by {
        lemma_paragraph_rises(l, runs, k);
        lemma_paragraph_ends(l, runs, k);
    }
}

proof fn lemma_paragraph_rises<S: Scalar>(
    l: Seq<LineModel<S>>,
    runs: Seq<ResolvedRun<S>>,
    k: int,
)
    requires
        0 <= k < paragraphs::paragraphs_of(l, runs).len(),
    ensures
        0 <= paragraphs::paragraphs_of(l, runs)[k].from,
        paragraphs::paragraphs_of(l, runs)[k].from < paragraphs::paragraphs_of(l, runs)[k].to,
    decreases k,
{
    paragraphs::law_paragraphs_partition_the_lines(l, runs);
    let p = paragraphs::paragraphs_of(l, runs);
    if k > 0 {
        lemma_paragraph_rises(l, runs, k - 1);
        assert(p[k].from == p[k - 1].to);
    }
    assert(p[k].from < p[k].to);
}

proof fn lemma_paragraph_ends<S: Scalar>(
    l: Seq<LineModel<S>>,
    runs: Seq<ResolvedRun<S>>,
    k: int,
)
    requires
        0 <= k < paragraphs::paragraphs_of(l, runs).len(),
    ensures
        paragraphs::paragraphs_of(l, runs)[k].to <= l.len(),
    decreases paragraphs::paragraphs_of(l, runs).len() - k,
{
    paragraphs::law_paragraphs_partition_the_lines(l, runs);
    let p = paragraphs::paragraphs_of(l, runs);
    if k + 1 < p.len() {
        lemma_paragraph_ends(l, runs, k + 1);
        assert(p[k + 1].from == p[k].to);
        assert(p[k + 1].from < p[k + 1].to);
    } else {
        assert(p[k] == p.last());
    }
}

/// Add a region.
fn emit_region<S: Scalar>(
    out: &mut Builder<S>,
    region: &Region<S>,
    keys: &Vec<Vec<(usize, usize)>>,
    run: &Vec<RunningElement<S>>,
    runs: &Vec<ResolvedRun<S>>,
    page: usize,
    index: usize,
    Ghost(t): Ghost<Seq<TableModel<S>>>,
)
    requires
        all_keys_right(keys@, t),
    ensures
        final(out)@ == with_region(
            old(out)@,
            region@,
            t,
            running::running_models(run@),
            runs@,
            page,
            index,
        ),
{
    // Whatever a table did not take. A region partly inside a table keeps its
    // remainder rather than being dropped whole.
    let own = flatten(&region.lines);
    let ghost g = own@;
    let total: usize = own.len();
    let mut left: Vec<PlacedGlyph<S>> = Vec::new();
    for x in it: own
        invariant
            it.seq() == g,
            all_keys_right(keys@, t),
            left@ == left_over(t, g, it.index() as int),
    {
        if !is_tabled(keys, &x, Ghost(t)) {
            left.push(x);
        }
    }
    if left.len() == 0 {
        return;
    }
    // Cross-page repetition is evidence no single page can manufacture, so it
    // outranks the paragraph reading of the same region.
    let k: usize = find_running(run, page, index);
    if k < run.len() {
        assert(running::running_models(run@)[k as int] == run@[k as int]@);
        let own_lines = if left.len() == total {
            copy_all_lines(&region.lines)
        } else {
            lines::assemble(left)
        };
        out.push(Block::Running(run[k].copy()), own_lines);
        return;
    }
    if left.len() == total {
        let whole = Region {
            lines: copy_all_lines(&region.lines),
            bbox: region.bbox,
            origin: region.origin,
            order: region.order,
        };
        emit_lines(out, whole, runs);
    } else {
        let relined = lines::assemble(left);
        let bbox = lines_bounds(&relined);
        let rest = Region { lines: relined, bbox, origin: region.origin, order: index };
        emit_lines(out, rest, runs);
    }
}

fn lines_bounds<S: Scalar>(l: &Vec<Line<S>>) -> (r: Rect<S>)
    ensures
        r == paragraphs::lines_box(lines::line_models(l@), 0, l@.len() as int),
{
    let ghost models = lines::line_models(l@);
    let mut b = Rect::<S>::inverted();
    let mut i: usize = 0;
    while i < l.len()
        invariant
            i <= l@.len(),
            models == lines::line_models(l@),
            b == paragraphs::lines_box(models, 0, i as int),
        decreases l@.len() - i,
    {
        assert(models[i as int].bbox == l@[i as int].bbox);
        b = b.union(&l[i].bbox);
        i += 1;
    }
    b
}

/// Classify what one page holds.
fn build_page<'a, S: Scalar>(
    page: usize,
    input: PageInput<'a, S>,
    run: &Vec<RunningElement<S>>,
) -> (r: PageModel<S>)
    ensures
        r@ == page_of(input@, running::running_models(run@), page),
{
    let ghost model = input@;
    let ghost elements = running::running_models(run@);
    let found = tables::detect_page(input.regions, input.rules, input.runs);
    let ghost t = tables::table_models(found@);
    let ghost list = found@;

    // A glyph is claimed by membership, not by a bounding box: one inside a
    // table's box that no cell took would be claimed and then never stored. A
    // table is anchored at the first region it consumed.
    let mut keys: Vec<Vec<(usize, usize)>> = Vec::new();
    let mut anchors: Vec<usize> = Vec::new();
    let mut slots: Vec<Option<Table<S>>> = Vec::new();
    for table in it: found
        invariant
            it.seq() == list,
            t == tables::table_models(list),
            model.regions == regions::region_models(input.regions@),
            keys@.len() == it.index(),
            anchors@.len() == it.index(),
            slots@.len() == it.index(),
            forall|k: int|
                0 <= k < keys@.len() ==> keys_right((#[trigger] keys@[k])@, table_glyphs(t[k])),
            forall|k: int|
                0 <= k < anchors@.len() ==> (#[trigger] anchors@[k]) == anchor_of(
                    model.regions,
                    t[k],
                    0,
                ),
            forall|k: int| 0 <= k < slots@.len() ==> slot_holds(#[trigger] slots@[k], t[k]),
    {
        assert(table@ == t[it.index() as int]);
        let own = table_keys(&table);
        let at: usize = find_anchor(input.regions, &own, Ghost(table@));
        keys.push(own);
        anchors.push(at);
        slots.push(Some(table));
    }

    let mut out = Builder::<S>::new();
    let n: usize = input.regions.len();
    let mut i: usize = 0;
    while i < n
        invariant
            i <= n,
            n == input.regions@.len(),
            model == input@,
            elements == running::running_models(run@),
            all_keys_right(keys@, t),
            anchored(anchors@, model.regions, t),
            slots@.len() == t.len(),
            forall|k: int|
                0 <= k < t.len() && anchors@[k] >= i ==> slot_holds(#[trigger] slots@[k], t[k]),
            out@ == region_flow(model, t, elements, page, i as int),
        decreases n - i,
    {
        emit_tables(&mut out, &mut slots, &anchors, i, Ghost(model.regions), Ghost(t));
        assert(model.regions[i as int] == input.regions@[i as int]@);
        emit_region(&mut out, &input.regions[i], &keys, run, input.runs, page, i, Ghost(t));
        i += 1;
    }
    // A table whose glyphs came from no region still belongs in the page.
    emit_tables(&mut out, &mut slots, &anchors, n, Ghost(model.regions), Ghost(t));

    // Graphics are appended: they have no position in the text flow, and
    // inserting them by geometry would assert an ordering the page does not
    // state.
    let ghost text = out@;
    let images = input.graphics.images;
    let ghost image_list = images@;
    for image in it: images
        invariant
            it.seq() == image_list,
            out@ == with_images(text, image_list, it.index() as int),
    {
        out.place(Block::Image(image));
    }
    let ghost drawn = out@;
    let vectors = input.graphics.vectors;
    let ghost vector_list = vectors@;
    let ghost vector_models = graphics::block_models(vector_list);
    for vector in it: vectors
        invariant
            it.seq() == vector_list,
            vector_models == graphics::block_models(vector_list),
            out@ == with_vectors(drawn, vector_models, it.index() as int),
    {
        assert(vector@ == vector_models[it.index() as int]);
        out.place(Block::Vector(vector));
    }
    PageModel {
        blocks: out.blocks,
        annotations: input.annotations,
        media_box: input.media_box,
        crop_box: input.crop_box,
        rotate: input.rotate,
        lines: out.lines,
    }
}

fn has_id(ids: &Vec<BlockId>, id: BlockId) -> (r: bool)
    ensures
        r == ids@.contains(id),
{
    let mut i: usize = 0;
    while i < ids.len()
        invariant
            i <= ids@.len(),
            forall|k: int| 0 <= k < i ==> #[trigger] ids@[k] != id,
        decreases ids@.len() - i,
    {
        if ids[i] == id {
            assert(ids@[i as int] == id);
            return true;
        }
        i += 1;
    }
    false
}

fn is_marked<S: Scalar>(b: &Block<S>, mcid: u32) -> (r: bool)
    ensures
        r == marked(b@, mcid),
{
    match b {
        Block::Paragraph(p) => match p.mcid {
            Some(m) => m == mcid,
            None => false,
        },
        _ => false,
    }
}

/// The blocks of a document in geometric order.
fn geometric_order<S: Scalar>(pages: &Vec<PageModel<S>>) -> (r: Vec<BlockId>)
    ensures
        r@ == geometric(model_pages(pages@), pages@.len() as int),
{
    let ghost models = model_pages(pages@);
    let mut out: Vec<BlockId> = Vec::new();
    let mut p: usize = 0;
    while p < pages.len()
        invariant
            p <= pages@.len(),
            models == model_pages(pages@),
            out@ == geometric(models, p as int),
        decreases pages@.len() - p,
    {
        let ghost before = out@;
        let n: usize = pages[p].blocks.len();
        assert(models[p as int].flow.blocks.len() == n);
        let ghost own = Seq::new(n as nat, |i: int| BlockId { page: p, index: i as usize });
        let mut i: usize = 0;
        assert(out@ =~= before + own.take(0));
        while i < n
            invariant
                i <= n,
                own == Seq::new(n as nat, |i: int| BlockId { page: p, index: i as usize }),
                out@ == before + own.take(i as int),
            decreases n - i,
        {
            out.push(BlockId { page: p, index: i });
            i += 1;
            assert(out@ =~= before + own.take(i as int));
        }
        assert(own.take(i as int) =~= own);
        assert(out@ =~= geometric(models, p + 1));
        p += 1;
    }
    out
}

/// Reading order, preferring the structure tree.
fn reading_order<S: Scalar>(pages: &Vec<PageModel<S>>, tree: &Option<StructTree>) -> (r: (
    Vec<BlockId>,
    OrderSource,
))
    ensures
        (r.0@, r.1) == order_of(
            model_pages(pages@),
            match *tree {
                Some(t) => Some(t@),
                None => None,
            },
        ),
{
    let ghost models = model_pages(pages@);
    let all = geometric_order(pages);
    match tree {
        Some(t) => {
            if t.truncated || t.is_empty() {
                return (all, OrderSource::Geometry);
            }
            let mut ordered: Vec<BlockId> = Vec::new();
            let mut p: usize = 0;
            while p < pages.len()
                invariant
                    p <= pages@.len(),
                    models == model_pages(pages@),
                    ordered@ == tree_order(models, t@, p as int),
                decreases pages@.len() - p,
            {
                let order = t.mcid_order(p);
                let page = &pages[p];
                let ghost blocks = models[p as int].flow.blocks;
                let ghost before = ordered@;
                assert(blocks == block_views(page.blocks@));
                let mut m: usize = 0;
                while m < order.len()
                    invariant
                        m <= order@.len(),
                        blocks == block_views(page.blocks@),
                        ordered@ == with_named(before, blocks, p, order@, m as int),
                    decreases order@.len() - m,
                {
                    let mcid: u32 = order[m];
                    let ghost held = ordered@;
                    let mut i: usize = 0;
                    while i < page.blocks.len()
                        invariant
                            i <= page.blocks@.len(),
                            blocks == block_views(page.blocks@),
                            ordered@ == with_marked(held, blocks, p, mcid, i as int),
                        decreases page.blocks@.len() - i,
                    {
                        assert(blocks[i as int] == page.blocks@[i as int]@);
                        let id = BlockId { page: p, index: i };
                        if is_marked(&page.blocks[i], mcid) && !has_id(&ordered, id) {
                            ordered.push(id);
                        }
                        i += 1;
                    }
                    m += 1;
                }
                p += 1;
            }
            let covered: usize = ordered.len();
            let ghost named = ordered@;
            // Anything the tree did not mention keeps its geometric position,
            // appended in that order. A partial tree still improves on none.
            let mut rest: Vec<BlockId> = Vec::new();
            let mut k: usize = 0;
            assert(named + rest@ =~= with_rest(named, all@, 0));
            while k < all.len()
                invariant
                    k <= all@.len(),
                    ordered@ == named,
                    named + rest@ == with_rest(named, all@, k as int),
                decreases all@.len() - k,
            {
                if !has_id(&ordered, all[k]) {
                    rest.push(all[k]);
                    assert(named + rest@ =~= with_rest(named, all@, k + 1));
                }
                k += 1;
            }
            ordered.append(&mut rest);
            let source = if covered > 0 {
                OrderSource::Structure
            } else {
                OrderSource::Geometry
            };
            (ordered, source)
        },
        None => (all, OrderSource::Geometry),
    }
}

/// Assemble the document model.
pub fn build<'a, S: Scalar>(doc: &Document<S>, pages: Vec<PageInput<'a, S>>) -> (r: DocumentModel<S>)
    ensures
        r@ == built(*doc, input_models(pages@)),
{
    let ghost inputs = input_models(pages@);
    let ghost margins = Seq::new(
        inputs.len(),
        |i: int| PageView { regions: inputs[i].regions, media_box: inputs[i].media_box },
    );
    // Running elements first: they are the only classification that needs every
    // page, and a block claimed as a running header must not also be offered as
    // a paragraph.
    let mut page_regions: Vec<PageRegions<'a, S>> = Vec::new();
    let mut i: usize = 0;
    while i < pages.len()
        invariant
            i <= pages@.len(),
            inputs == input_models(pages@),
            page_regions@.len() == i,
            forall|k: int|
                0 <= k < i ==> (#[trigger] page_regions@[k])@ == (PageView {
                    regions: inputs[k].regions,
                    media_box: inputs[k].media_box,
                }),
        decreases pages@.len() - i,
    {
        assert(inputs[i as int] == pages@[i as int]@);
        page_regions.push(
            PageRegions { regions: pages[i].regions, media_box: pages[i].media_box },
        );
        i += 1;
    }
    assert(running::page_views(page_regions@) =~= margins);
    let run = running::running_elements(&page_regions);
    let ghost elements = running::running_models(run@);

    let ghost list = pages@;
    let n: usize = pages.len();
    let mut models: Vec<PageModel<S>> = Vec::new();
    let mut pi: usize = 0;
    for input in it: pages
        invariant
            it.seq() == list,
            n == list.len(),
            pi == it.index(),
            inputs == input_models(list),
            elements == running::running_models(run@),
            models@.len() == pi,
            forall|k: int|
                0 <= k < pi ==> (#[trigger] models@[k])@ == page_of(
                    inputs[k],
                    elements,
                    k as usize,
                ),
    {
        assert(input@ == inputs[pi as int]);
        models.push(build_page(pi, input, &run));
        pi = pi + 1;
    }
    let tree = structure::read(doc);
    let ghost page_list = Seq::new(inputs.len(), |i: int| page_of(inputs[i], elements, i as usize));
    assert(model_pages(models@) =~= page_list);
    let (order, order_source) = reading_order(&models, &tree);
    DocumentModel { pages: models, structure: tree, reading_order: order, order_source }
}

fn tabbed_text<S: Scalar>(t: &Table<S>) -> (r: String)
    ensures
        r@ == tabbed(t@.cells, t@.cells.len() as int),
{
    let ghost cells = t@.cells;
    let mut out = String::new();
    let mut any = false;
    let mut i: usize = 0;
    while i < t.cells.len()
        invariant
            i <= t.cells@.len(),
            cells == tables::cell_models(t.cells@),
            out@ == tabbed(cells, i as int),
            any == (out@.len() > 0),
        decreases t.cells@.len() - i,
    {
        assert(cells[i as int] == t.cells@[i as int]@);
        let one = t.cells[i].text();
        if !text::is_blank(&one) {
            if any {
                out.push('\t');
            }
            text::append(&mut out, &one);
            if !any {
                assert(out@ =~= one@);
            }
            assert(one@.len() > 0);
            any = true;
        }
        i += 1;
    }
    out
}

fn part_text<S: Scalar>(page: &PageModel<S>, i: usize) -> (r: String)
    requires
        i < page.blocks@.len(),
    ensures
        r@ == part_of(page@, i as int),
{
    assert(page@.flow.blocks[i as int] == page.blocks@[i as int]@);
    match &page.blocks[i] {
        Block::Table(t) => tabbed_text(t),
        Block::Image(_) | Block::Vector(_) => String::new(),
        Block::Paragraph(_) | Block::Running(_) | Block::Unknown(_) => {
            if i < page.lines.len() {
                assert(page@.flow.lines[i as int] == lines::line_models(page.lines@[i as int]@));
                run_on(&page.lines[i])
            } else {
                String::new()
            }
        },
    }
}

impl<S: Scalar> DocumentModel<S> {
    /// A block of the document, where it has one.
    pub fn block(&self, id: BlockId) -> (r: Option<&Block<S>>)
        ensures
            (r is Some) == self@.has(id),
            r matches Some(b) ==> *b == self.pages@[id.page as int].blocks@[id.index as int],
            r matches Some(b) ==> b@ == self@.at(id),
    {
        if id.page < self.pages.len() && id.index < self.pages[id.page].blocks.len() {
            assert(self@.pages[id.page as int] == self.pages@[id.page as int]@);
            Some(&self.pages[id.page].blocks[id.index])
        } else {
            if id.page < self.pages.len() {
                assert(self@.pages[id.page as int] == self.pages@[id.page as int]@);
            }
            None
        }
    }

    /// Blocks in reading order.
    pub fn in_reading_order(&self) -> (r: Vec<(BlockId, &Block<S>)>)
        ensures
            ({
                let ids = self@.present(self@.reading_order.len() as int);
                &&& r@.len() == ids.len()
                &&& forall|k: int|
                    0 <= k < ids.len() ==> (#[trigger] r@[k]).0 == ids[k] && r@[k].1@ == self@.at(
                        ids[k],
                    )
            }),
    {
        let ghost doc = self@;
        let mut out: Vec<(BlockId, &Block<S>)> = Vec::new();
        let mut i: usize = 0;
        while i < self.reading_order.len()
            invariant
                i <= self.reading_order@.len(),
                doc == self@,
                out@.len() == doc.present(i as int).len(),
                forall|k: int|
                    0 <= k < out@.len() ==> (#[trigger] out@[k]).0 == doc.present(i as int)[k]
                        && out@[k].1@ == doc.at(doc.present(i as int)[k]),
            decreases self.reading_order@.len() - i,
        {
            let id = self.reading_order[i];
            if let Some(b) = self.block(id) {
                out.push((id, b));
            }
            i += 1;
        }
        out
    }

    /// Plain text of the whole document, in reading order.
    pub fn text(&self) -> (r: String)
        ensures
            ({
                let ids = self@.present(self@.reading_order.len() as int);
                r@ == text_of(self@, ids, ids.len() as int)
            }),
    {
        let ghost doc = self@;
        let mut out = String::new();
        let mut i: usize = 0;
        while i < self.reading_order.len()
            invariant
                i <= self.reading_order@.len(),
                doc == self@,
                out@ == text_of(
                    doc,
                    doc.present(i as int),
                    doc.present(i as int).len() as int,
                ),
            decreases self.reading_order@.len() - i,
        {
            let id = self.reading_order[i];
            let ghost ids = doc.present(i as int);
            if id.page < self.pages.len() && id.index < self.pages[id.page].blocks.len() {
                assert(doc.pages[id.page as int] == self.pages@[id.page as int]@);
                proof {
                    lemma_text_prefix(doc, ids, id, ids.len() as int);
                    assert(doc.present(i + 1) == ids.push(id));
                    assert(ids.push(id)[ids.len() as int] == id);
                }
                let part = text::chars_of(&part_text(&self.pages[id.page], id.index));
                let t = text::trim(&part);
                if t.len() > 0 {
                    let piece = text::string_of(&t);
                    text::append(&mut out, &piece);
                    out.push('\n');
                }
            } else {
                if id.page < self.pages.len() {
                    assert(doc.pages[id.page as int] == self.pages@[id.page as int]@);
                }
                assert(doc.present(i + 1) == ids);
            }
            i += 1;
        }
        out
    }
}

proof fn lemma_text_prefix<S: Scalar>(
    doc: DocumentView<S>,
    ids: Seq<BlockId>,
    id: BlockId,
    n: int,
)
    requires
        0 <= n <= ids.len(),
    ensures
        text_of(doc, ids.push(id), n) == text_of(doc, ids, n),
    decreases n,
{
    if n > 0 {
        lemma_text_prefix(doc, ids, id, n - 1);
        assert(ids.push(id)[n - 1] == ids[n - 1]);
    }
}

/// Whether pages, and the blocks of each, can be numbered.
pub open spec fn numberable<S>(pages: Seq<ModelPage<S>>) -> bool {
    &&& pages.len() <= usize::MAX
    &&& forall|i: int|
        0 <= i < pages.len() ==> (#[trigger] pages[i]).flow.blocks.len() <= usize::MAX
}

/// Whether an id names a block of the first `n` pages.
pub open spec fn names<S>(pages: Seq<ModelPage<S>>, n: int, id: BlockId) -> bool {
    id.page < n && id.index < pages[id.page as int].flow.blocks.len()
}

spec fn lists_all<S>(pages: Seq<ModelPage<S>>, n: int, ids: Seq<BlockId>) -> bool {
    &&& ids.no_duplicates()
    &&& forall|id: BlockId| #[trigger] ids.contains(id) <==> names(pages, n, id)
}

proof fn lemma_geometric<S>(pages: Seq<ModelPage<S>>, n: int)
    requires
        numberable(pages),
        0 <= n <= pages.len(),
    ensures
        lists_all(pages, n, geometric(pages, n)),
    decreases n,
{
    if n > 0 {
        lemma_geometric(pages, n - 1);
        let a = geometric(pages, n - 1);
        let page = (n - 1) as usize;
        let b = Seq::new(
            pages[n - 1].flow.blocks.len(),
            |i: int| BlockId { page, index: i as usize },
        );
        let c = geometric(pages, n);
        assert(c == a + b);
        assert forall|id: BlockId| #[trigger] c.contains(id) <==> names(pages, n, id) by {
            if a.contains(id) {
                let k = choose|k: int| 0 <= k < a.len() && a[k] == id;
                assert(c[k] == id);
                assert(names(pages, n - 1, id));
            }
            if names(pages, n, id) && id.page == page {
                assert(b[id.index as int] == id);
                assert(c[a.len() + id.index] == id);
            }
            if names(pages, n, id) && id.page != page {
                assert(names(pages, n - 1, id));
                assert(a.contains(id));
            }
            if c.contains(id) {
                let k = choose|k: int| 0 <= k < c.len() && c[k] == id;
                if k < a.len() {
                    assert(a[k] == id);
                    assert(a.contains(id));
                } else {
                    assert(b[k - a.len()] == id);
                }
            }
        }
        assert forall|i: int, j: int| 0 <= i < c.len() && 0 <= j < c.len() && i != j implies c[i]
            != c[j] by {
            if i < a.len() {
                assert(a.contains(a[i]));
                assert(names(pages, n - 1, a[i]));
            }
            if j < a.len() {
                assert(a.contains(a[j]));
                assert(names(pages, n - 1, a[j]));
            }
        }
    }
}

spec fn lists_some<S>(pages: Seq<ModelPage<S>>, n: int, ids: Seq<BlockId>) -> bool {
    &&& ids.no_duplicates()
    &&& forall|k: int| 0 <= k < ids.len() ==> names(pages, n, #[trigger] ids[k])
}

proof fn lemma_push_new(ids: Seq<BlockId>, id: BlockId)
    requires
        ids.no_duplicates(),
        !ids.contains(id),
    ensures
        ids.push(id).no_duplicates(),
{
    let c = ids.push(id);
    assert forall|i: int, j: int| 0 <= i < c.len() && 0 <= j < c.len() && i != j implies c[i]
        != c[j] by {
        if i < ids.len() {
            assert(ids.contains(ids[i]));
        }
        if j < ids.len() {
            assert(ids.contains(ids[j]));
        }
    }
}

proof fn lemma_with_marked<S>(
    pages: Seq<ModelPage<S>>,
    ids: Seq<BlockId>,
    page: usize,
    mcid: u32,
    n: int,
)
    requires
        numberable(pages),
        page < pages.len(),
        lists_some(pages, page + 1, ids),
        0 <= n <= pages[page as int].flow.blocks.len(),
    ensures
        lists_some(
            pages,
            page + 1,
            with_marked(ids, pages[page as int].flow.blocks, page, mcid, n),
        ),
    decreases n,
{
    if n > 0 {
        lemma_with_marked(pages, ids, page, mcid, n - 1);
        let before = with_marked(ids, pages[page as int].flow.blocks, page, mcid, n - 1);
        let id = BlockId { page, index: (n - 1) as usize };
        if !before.contains(id) {
            lemma_push_new(before, id);
        }
    }
}

proof fn lemma_with_named<S>(
    pages: Seq<ModelPage<S>>,
    ids: Seq<BlockId>,
    page: usize,
    mcids: Seq<u32>,
    n: int,
)
    requires
        numberable(pages),
        page < pages.len(),
        lists_some(pages, page + 1, ids),
        0 <= n <= mcids.len(),
    ensures
        lists_some(
            pages,
            page + 1,
            with_named(ids, pages[page as int].flow.blocks, page, mcids, n),
        ),
    decreases n,
{
    if n > 0 {
        lemma_with_named(pages, ids, page, mcids, n - 1);
        let blocks = pages[page as int].flow.blocks;
        lemma_with_marked(
            pages,
            with_named(ids, blocks, page, mcids, n - 1),
            page,
            mcids[n - 1],
            blocks.len() as int,
        );
    }
}

proof fn lemma_tree_order<S>(pages: Seq<ModelPage<S>>, tree: TreeModel, n: int)
    requires
        numberable(pages),
        0 <= n <= pages.len(),
    ensures
        lists_some(pages, n, tree_order(pages, tree, n)),
    decreases n,
{
    if n > 0 {
        lemma_tree_order(pages, tree, n - 1);
        let mcids = tree.mcids_of(tree.reading_order(), (n - 1) as usize);
        let before = tree_order(pages, tree, n - 1);
        assert forall|k: int| 0 <= k < before.len() implies names(pages, n, #[trigger] before[k]) by {
            assert(names(pages, n - 1, before[k]));
        }
        lemma_with_named(pages, before, (n - 1) as usize, mcids, mcids.len() as int);
    }
}

proof fn lemma_with_rest(ids: Seq<BlockId>, others: Seq<BlockId>, n: int)
    requires
        ids.no_duplicates(),
        others.no_duplicates(),
        0 <= n <= others.len(),
    ensures
        with_rest(ids, others, n).no_duplicates(),
        forall|id: BlockId|
            #[trigger] with_rest(ids, others, n).contains(id) <==> ids.contains(id) || others.take(
                n,
            ).contains(id),
    decreases n,
{
    if n == 0 {
        assert(others.take(0) =~= Seq::empty());
    } else {
        lemma_with_rest(ids, others, n - 1);
        let before = with_rest(ids, others, n - 1);
        let id = others[n - 1];
        let some = others.take(n - 1);
        assert(others.take(n) =~= some.push(id));
        assert(!some.contains(id)) by {
            if some.contains(id) {
                let k = choose|k: int| 0 <= k < some.len() && some[k] == id;
                assert(others[k] == others[n - 1]);
            }
        }
        if !ids.contains(id) {
            assert(!before.contains(id));
            lemma_push_new(before, id);
        }
        assert forall|x: BlockId|
            #[trigger] with_rest(ids, others, n).contains(x) <==> ids.contains(x) || others.take(
                n,
            ).contains(x) by {
            lemma_pushed(some, id, x);
            lemma_pushed(before, id, x);
            assert(before.contains(x) <==> ids.contains(x) || some.contains(x));
        }
    }
}

proof fn lemma_pushed(s: Seq<BlockId>, id: BlockId, x: BlockId)
    ensures
        s.push(id).contains(x) <==> s.contains(x) || x == id,
{
    if s.contains(x) {
        let k = choose|k: int| 0 <= k < s.len() && s[k] == x;
        assert(s.push(id)[k] == x);
    }
    if x == id {
        assert(s.push(id)[s.len() as int] == x);
    }
    if s.push(id).contains(x) && x != id {
        let k = choose|k: int| 0 <= k < s.push(id).len() && s.push(id)[k] == x;
        assert(s[k] == x);
    }
}

/// The reading order lists every block of a document exactly once, and nothing
/// else, whether or not the document is tagged.
pub proof fn law_every_block_is_read_once<S>(pages: Seq<ModelPage<S>>, tree: Option<TreeModel>)
    requires
        numberable(pages),
    ensures
        order_of(pages, tree).0.no_duplicates(),
        forall|id: BlockId|
            #[trigger] order_of(pages, tree).0.contains(id) <==> names(
                pages,
                pages.len() as int,
                id,
            ),
{
    let n = pages.len() as int;
    lemma_geometric(pages, n);
    let all = geometric(pages, n);
    match tree {
        Some(t) => {
            let named = tree_order(pages, t, n);
            lemma_tree_order(pages, t, n);
            lemma_with_rest(named, all, all.len() as int);
            assert(all.take(all.len() as int) =~= all);
            assert forall|id: BlockId| named.contains(id) implies #[trigger] all.contains(id) by {
                let k = choose|k: int| 0 <= k < named.len() && named[k] == id;
                assert(names(pages, n, named[k]));
            }
        },
        None => {},
    }
}

/// What one page of a document is read from.
pub struct PageSource<'a, S> {
    /// The page object.
    pub dict: &'a Dictionary<S>,
    /// The page's resources.
    pub resources: Option<&'a Dictionary<S>>,
    /// The fonts that the resources name.
    pub fonts: Vec<PageFont>,
    /// The text that the content shows.
    pub runs: Vec<GlyphRun<S>>,
    /// The content, operator by operator.
    pub steps: Vec<Step<'a, S>>,
    pub media_box: Rect<S>,
    pub crop_box: Rect<S>,
    pub rotate: i32,
}

/// What a page contributes to the model, once its text is resolved.
pub open spec fn evidence_of<'a, S: Scalar>(
    doc: Document<S>,
    page: PageSource<'a, S>,
    runs: Seq<ResolvedRun<S>>,
) -> InputModel<S> {
    let n = page.steps@.len() as int;
    let drawn = rules::collected(page.steps@, n).rules;
    let painted = graphics::collected(page.steps@, n);
    InputModel {
        regions: regions::detected(lines::placed_runs(runs, runs.len() as int), drawn),
        annotations: annots::page_annotations(doc, *page.dict),
        rules: drawn,
        runs,
        media_box: page.media_box,
        crop_box: page.crop_box,
        rotate: page.rotate,
        images: painted.images,
        vectors: graphics::clustered(painted.paths, graphics::drawing_gap(page.media_box)),
    }
}

/// Whether runs are what a page's text resolves to.
pub open spec fn resolved_from<'a, S: Scalar>(
    doc: Document<S>,
    page: PageSource<'a, S>,
    runs: Seq<ResolvedRun<S>>,
) -> bool {
    extract::all_resolved(
        extract::source_of(&doc, page.resources, &page.fonts),
        runs,
        page.runs@,
        page.runs@.len() as int,
    )
}

/// Whether a model is what pages make of a document, their text resolved in
/// some way.
pub open spec fn analysed<'a, S: Scalar>(
    doc: Document<S>,
    pages: Seq<PageSource<'a, S>>,
    resolved: Seq<Seq<ResolvedRun<S>>>,
    model: DocumentView<S>,
) -> bool {
    &&& resolved.len() == pages.len()
    &&& forall|i: int|
        0 <= i < pages.len() ==> resolved_from(doc, #[trigger] pages[i], resolved[i])
    &&& model == built(
        doc,
        Seq::new(pages.len(), |i: int| evidence_of(doc, pages[i], resolved[i])),
    )
}

struct Evidence<S> {
    regions: Vec<Region<S>>,
    rules: Vec<Rule<S>>,
    runs: Vec<ResolvedRun<S>>,
}

struct Remainder<S> {
    annotations: Vec<Annotation<S>>,
    graphics: Graphics<S>,
    media_box: Rect<S>,
    crop_box: Rect<S>,
    rotate: i32,
}

spec fn combined<S>(e: Evidence<S>, r: Remainder<S>) -> InputModel<S> {
    InputModel {
        regions: regions::region_models(e.regions@),
        annotations: annots::annotation_models(r.annotations@),
        rules: e.rules@,
        runs: e.runs@,
        media_box: r.media_box,
        crop_box: r.crop_box,
        rotate: r.rotate,
        images: r.graphics.images@,
        vectors: graphics::block_models(r.graphics.vectors@),
    }
}

/// Analyse a whole document.
///
/// Eager: every page is resolved before anything is returned, because the
/// reading order and the running elements are document-level properties and
/// cannot be computed from a page at a time.
pub fn analyse<'a, S: Scalar>(doc: &Document<S>, pages: Vec<PageSource<'a, S>>) -> (r: DocumentModel<
    S,
>)
    requires
        forall|i: int|
            0 <= i < pages@.len() ==> extract::glyphs_before(
                (#[trigger] pages@[i]).runs@,
                pages@[i].runs@.len() as int,
            ) <= usize::MAX,
    ensures
        exists|resolved: Seq<Seq<ResolvedRun<S>>>| #[trigger]
            analysed(*doc, pages@, resolved, r@),
{
    let ghost list = pages@;
    let n: usize = pages.len();
    let mut evidence: Vec<Evidence<S>> = Vec::new();
    let mut rest: Vec<Remainder<S>> = Vec::new();
    for page in it: pages
        invariant
            it.seq() == list,
            n == list.len(),
            evidence@.len() == it.index(),
            rest@.len() == it.index(),
            forall|i: int|
                0 <= i < list.len() ==> extract::glyphs_before(
                    (#[trigger] list[i]).runs@,
                    list[i].runs@.len() as int,
                ) <= usize::MAX,
            forall|i: int|
                0 <= i < evidence@.len() ==> resolved_from(
                    *doc,
                    list[i],
                    (#[trigger] evidence@[i]).runs@,
                ),
            forall|i: int|
                0 <= i < rest@.len() ==> combined(evidence@[i], #[trigger] rest@[i])
                    == evidence_of(*doc, list[i], evidence@[i].runs@),
    {
        assert(page == list[it.index() as int]);
        let ghost model = page;
        let drawn = rules::collect(&page.steps);
        let painted = graphics::collect(&page.steps, &page.media_box);
        let annotations = annots::read(doc, page.dict);
        let (resolved, _) = extract::resolve_runs(doc, page.resources, &page.fonts, page.runs);
        let found = regions::detect(lines::place(&resolved), &drawn);
        let e = Evidence { regions: found, rules: drawn, runs: resolved };
        let r = Remainder {
            annotations,
            graphics: painted,
            media_box: page.media_box,
            crop_box: page.crop_box,
            rotate: page.rotate,
        };
        assert(combined(e, r) =~= evidence_of(*doc, model, e.runs@));
        assert(resolved_from(*doc, model, e.runs@));
        evidence.push(e);
        rest.push(r);
    }
    let ghost resolved = Seq::new(n as nat, |i: int| evidence@[i].runs@);
    let ghost wanted = Seq::new(n as nat, |i: int| evidence_of(*doc, list[i], resolved[i]));
    let ghost parts = rest@;
    let mut inputs: Vec<PageInput<'_, S>> = Vec::new();
    let mut at: usize = 0;
    for r in it: rest
        invariant
            it.seq() == parts,
            n == parts.len(),
            at == it.index(),
            evidence@.len() == n,
            wanted.len() == n,
            forall|i: int|
                0 <= i < n ==> combined(evidence@[i], parts[i]) == #[trigger] wanted[i],
            inputs@.len() == at,
            forall|i: int| 0 <= i < at ==> (#[trigger] inputs@[i])@ == wanted[i],
    {
        let e = &evidence[at];
        let input = PageInput {
            regions: &e.regions,
            annotations: r.annotations,
            rules: &e.rules,
            runs: &e.runs,
            media_box: r.media_box,
            crop_box: r.crop_box,
            rotate: r.rotate,
            graphics: r.graphics,
        };
        assert(input@ =~= combined(evidence@[at as int], parts[at as int]));
        inputs.push(input);
        at = at + 1;
    }
    assert(input_models(inputs@) =~= wanted);
    let model = build(doc, inputs);
    assert(analysed(*doc, list, resolved, model@));
    model
}

/// The glyphs of a block's lines.
pub open spec fn block_glyphs<S>() -> spec_fn(Seq<LineModel<S>>) -> Seq<PlacedGlyph<S>> {
    |l: Seq<LineModel<S>>| regions::spread_glyphs(l)
}

/// The glyphs that the lines of blocks hold, with how often they do.
pub open spec fn flow_glyphs<S>(flow: Flow<S>) -> Multiset<PlacedGlyph<S>> {
    partition::pooled(flow.lines, block_glyphs())
}

/// Whether a flow is another with glyphs added, and each block has its lines.
spec fn adds<S>(before: Flow<S>, after: Flow<S>, g: Multiset<PlacedGlyph<S>>) -> bool {
    &&& before.blocks.len() == before.lines.len() ==> after.blocks.len() == after.lines.len()
    &&& flow_glyphs(after) == flow_glyphs(before).add(g)
}

proof fn lemma_with_adds<S>(flow: Flow<S>, block: BlockView<S>, l: Seq<LineModel<S>>)
    ensures
        adds(flow, flow.with(block, l), regions::spread_glyphs(l).to_multiset()),
{
    partition::lemma_pooled_push(flow.lines, l, block_glyphs::<S>());
}

proof fn lemma_nothing_added<S>(flow: Flow<S>)
    ensures
        adds(flow, flow, Multiset::empty()),
{
    assert(flow_glyphs(flow).add(Multiset::empty()) =~= flow_glyphs(flow));
}

proof fn lemma_bare_block_adds<S>(flow: Flow<S>, block: BlockView<S>)
    ensures
        adds(flow, flow.with(block, Seq::empty()), Multiset::empty()),
{
    lemma_with_adds(flow, block, Seq::empty());
    partition::lemma_empty_multiset::<PlacedGlyph<S>>();
}

proof fn lemma_adds_twice<S>(
    a: Flow<S>,
    b: Flow<S>,
    c: Flow<S>,
    g: Multiset<PlacedGlyph<S>>,
    h: Multiset<PlacedGlyph<S>>,
)
    requires
        adds(a, b, g),
        adds(b, c, h),
    ensures
        adds(a, c, g.add(h)),
{
    assert(flow_glyphs(a).add(g).add(h) =~= flow_glyphs(a).add(g.add(h)));
}

proof fn lemma_nothing_added_twice<S>(a: Flow<S>, b: Flow<S>, c: Flow<S>)
    requires
        adds(a, b, Multiset::empty()),
        adds(b, c, Multiset::empty()),
    ensures
        adds(a, c, Multiset::empty()),
{
    lemma_adds_twice(a, b, c, Multiset::empty(), Multiset::empty());
    assert(Multiset::<PlacedGlyph<S>>::empty().add(Multiset::empty()) =~= Multiset::<
        PlacedGlyph<S>,
    >::empty());
}

proof fn lemma_tables_add<S>(
    flow: Flow<S>,
    r: Seq<RegionModel<S>>,
    t: Seq<TableModel<S>>,
    at: int,
    n: int,
)
    ensures
        adds(flow, with_tables(flow, r, t, at, n), Multiset::empty()),
    decreases n,
{
    if n <= 0 {
        lemma_nothing_added(flow);
    } else {
        let before = with_tables(flow, r, t, at, n - 1);
        let after = with_tables(flow, r, t, at, n);
        lemma_tables_add(flow, r, t, at, n - 1);
        if anchor_of(r, t[n - 1], 0) == at {
            lemma_bare_block_adds(before, BlockView::Table(t[n - 1]));
        } else {
            lemma_nothing_added(before);
        }
        lemma_nothing_added_twice(flow, before, after);
    }
}

proof fn lemma_images_add<S>(flow: Flow<S>, images: Seq<ImageBlock<S>>, n: int)
    ensures
        adds(flow, with_images(flow, images, n), Multiset::empty()),
    decreases n,
{
    if n <= 0 {
        lemma_nothing_added(flow);
    } else {
        let before = with_images(flow, images, n - 1);
        lemma_images_add(flow, images, n - 1);
        lemma_bare_block_adds(before, BlockView::Image(images[n - 1]));
        lemma_nothing_added_twice(flow, before, with_images(flow, images, n));
    }
}

proof fn lemma_vectors_add<S>(flow: Flow<S>, vectors: Seq<BlockModel<S>>, n: int)
    ensures
        adds(flow, with_vectors(flow, vectors, n), Multiset::empty()),
    decreases n,
{
    if n <= 0 {
        lemma_nothing_added(flow);
    } else {
        let before = with_vectors(flow, vectors, n - 1);
        lemma_vectors_add(flow, vectors, n - 1);
        lemma_bare_block_adds(before, BlockView::Vector(vectors[n - 1]));
        lemma_nothing_added_twice(flow, before, with_vectors(flow, vectors, n));
    }
}

proof fn lemma_paragraphs_add<S: Scalar>(
    flow: Flow<S>,
    l: Seq<LineModel<S>>,
    runs: Seq<ResolvedRun<S>>,
    n: int,
)
    requires
        0 < n <= paragraphs::paragraphs_of(l, runs).len(),
    ensures
        adds(
            flow,
            with_paragraphs(flow, l, paragraphs::paragraphs_of(l, runs), n),
            regions::spread_glyphs(
                l.take(paragraphs::paragraphs_of(l, runs)[n - 1].to),
            ).to_multiset(),
        ),
    decreases n,
{
    let p = paragraphs::paragraphs_of(l, runs);
    let before = with_paragraphs(flow, l, p, n - 1);
    let after = with_paragraphs(flow, l, p, n);
    let from = p[n - 1].from;
    let to = p[n - 1].to;
    let part = l.subrange(from, to);
    paragraphs::law_paragraphs_partition_the_lines(l, runs);
    lemma_paragraph_rises(l, runs, n - 1);
    lemma_paragraph_ends(l, runs, n - 1);
    lemma_with_adds(before, BlockView::Paragraph(p[n - 1]), part);
    if n == 1 {
        assert(l.take(to) =~= part);
    } else {
        lemma_paragraphs_add(flow, l, runs, n - 1);
        assert(from == p[n - 2].to);
        regions::lemma_spread_parts(l, from, to);
        partition::lemma_joined_multiset(
            regions::spread_glyphs(l.take(from)),
            regions::spread_glyphs(part),
        );
        lemma_adds_twice(
            flow,
            before,
            after,
            regions::spread_glyphs(l.take(from)).to_multiset(),
            regions::spread_glyphs(part).to_multiset(),
        );
    }
}

proof fn lemma_all_paragraphs_add<S: Scalar>(
    flow: Flow<S>,
    l: Seq<LineModel<S>>,
    runs: Seq<ResolvedRun<S>>,
)
    ensures
        adds(
            flow,
            with_paragraphs(
                flow,
                l,
                paragraphs::paragraphs_of(l, runs),
                paragraphs::paragraphs_of(l, runs).len() as int,
            ),
            regions::spread_glyphs(l).to_multiset(),
        ),
{
    let n = paragraphs::paragraphs_of(l, runs).len() as int;
    paragraphs::law_paragraphs_partition_the_lines(l, runs);
    if l.len() > 0 {
        lemma_paragraphs_add(flow, l, runs, n);
        assert(l.take(l.len() as int) =~= l);
    } else {
        partition::lemma_empty_multiset::<PlacedGlyph<S>>();
        lemma_nothing_added(flow);
    }
}

proof fn lemma_lines_add<S: Scalar>(
    flow: Flow<S>,
    l: Seq<LineModel<S>>,
    bbox: Rect<S>,
    runs: Seq<ResolvedRun<S>>,
)
    ensures
        adds(flow, with_lines(flow, l, bbox, runs), regions::spread_glyphs(l).to_multiset()),
{
    match declined(l) {
        Some(reason) => {
            lemma_with_adds(flow, BlockView::Unknown(RawModel { lines: l, bbox, reason }), l);
        },
        None => {
            lemma_all_paragraphs_add(flow, l, runs);
        },
    }
}

/// What is left over is what no table holds, as often as it was there.
proof fn lemma_left_over<S>(t: Seq<TableModel<S>>, g: Seq<PlacedGlyph<S>>, n: int)
    requires
        0 <= n <= g.len(),
    ensures
        left_over(t, g, n).len() <= n,
        left_over(t, g, n).len() == n ==> left_over(t, g, n) == g.take(n),
        forall|x: PlacedGlyph<S>| #[trigger]
            left_over(t, g, n).to_multiset().count(x) == if tabled(t, x) {
                0
            } else {
                g.take(n).to_multiset().count(x)
            },
    decreases n,
{
    broadcast use vstd::seq_lib::group_to_multiset_ensures;

    if n > 0 {
        lemma_left_over(t, g, n - 1);
        assert(g.take(n) =~= g.take(n - 1).push(g[n - 1]));
    } else {
        assert(g.take(n) =~= Seq::empty());
        partition::lemma_empty_multiset::<PlacedGlyph<S>>();
    }
}

proof fn lemma_region_adds<S: Scalar>(
    flow: Flow<S>,
    r: RegionModel<S>,
    t: Seq<TableModel<S>>,
    run: Seq<RunningModel<S>>,
    runs: Seq<ResolvedRun<S>>,
    page: usize,
    index: usize,
)
    ensures
        ({
            let own = regions::spread_glyphs(r.lines);
            adds(
                flow,
                with_region(flow, r, t, run, runs, page, index),
                left_over(t, own, own.len() as int).to_multiset(),
            )
        }),
{
    let k = running_at(run, page, index, 0);
    let own = regions::spread_glyphs(r.lines);
    let left = left_over(t, own, own.len() as int);
    lemma_left_over(t, own, own.len() as int);
    assert(own.take(own.len() as int) =~= own);
    if left.len() == 0 {
        assert(left =~= Seq::empty());
        partition::lemma_empty_multiset::<PlacedGlyph<S>>();
        lemma_nothing_added(flow);
    } else {
        let l = if left.len() == own.len() {
            r.lines
        } else {
            lines::assembled(left)
        };
        assert(regions::spread_glyphs(l).to_multiset() == left.to_multiset()) by {
            lines::law_lines_partition_the_glyphs(left);
            regions::lemma_spread(lines::assembled(left));
        }
        if 0 <= k < run.len() {
            lemma_with_adds(flow, BlockView::Running(run[k]), l);
        } else if left.len() == own.len() {
            lemma_lines_add(flow, l, r.bbox, runs);
        } else {
            lemma_lines_add(flow, l, paragraphs::lines_box(l, 0, l.len() as int), runs);
        }
    }
}

proof fn lemma_regions_add<S: Scalar>(
    input: InputModel<S>,
    t: Seq<TableModel<S>>,
    run: Seq<RunningModel<S>>,
    page: usize,
    n: int,
)
    requires
        0 <= n <= input.regions.len(),
    ensures
        ({
            let flow = region_flow(input, t, run, page, n);
            &&& flow.blocks.len() == flow.lines.len()
            &&& forall|x: PlacedGlyph<S>| #[trigger]
                flow_glyphs(flow).count(x) == if tabled(t, x) {
                    0
                } else {
                    tables::page_glyphs(input.regions, n).to_multiset().count(x)
                }
        }),
    decreases n,
{
    if n > 0 {
        lemma_regions_add(input, t, run, page, n - 1);
        let a = region_flow(input, t, run, page, n - 1);
        let b = with_tables(a, input.regions, t, n - 1, t.len() as int);
        let c = region_flow(input, t, run, page, n);
        let own = regions::spread_glyphs(input.regions[n - 1].lines);
        let left = left_over(t, own, own.len() as int);
        let before = tables::page_glyphs(input.regions, n - 1);
        lemma_tables_add(a, input.regions, t, n - 1, t.len() as int);
        lemma_region_adds(b, input.regions[n - 1], t, run, input.runs, page, (n - 1) as usize);
        lemma_left_over(t, own, own.len() as int);
        assert(own.take(own.len() as int) =~= own);
        partition::lemma_joined_multiset(before, own);
        assert forall|x: PlacedGlyph<S>| #[trigger]
            flow_glyphs(c).count(x) == if tabled(t, x) {
                0
            } else {
                tables::page_glyphs(input.regions, n).to_multiset().count(x)
            } by {
            assert(flow_glyphs(b).count(x) == flow_glyphs(a).count(x));
            assert(flow_glyphs(c).count(x) == flow_glyphs(b).count(x) + left.to_multiset().count(
                x,
            ));
            assert((before + own).to_multiset().count(x) == before.to_multiset().count(x)
                + own.to_multiset().count(x));
        }
    } else {
        partition::lemma_empty_multiset::<PlacedGlyph<S>>();
    }
}

/// Classification neither drops nor repeats text. A glyph that no table holds is
/// in the lines of the page's blocks exactly as often as in its regions, that
/// is, once; a glyph that a table holds is in the lines of none. Every block has
/// its entry among the lines.
pub proof fn law_every_glyph_is_placed_once<S: Scalar>(
    input: InputModel<S>,
    run: Seq<RunningModel<S>>,
    page: usize,
    x: PlacedGlyph<S>,
)
    ensures
        flow_of(input, run, page).lines.len() == flow_of(input, run, page).blocks.len(),
        flow_glyphs(flow_of(input, run, page)).count(x) == if tabled(
            tables::tables_of(input.regions, input.rules, input.runs),
            x,
        ) {
            0
        } else {
            tables::page_glyphs(
                input.regions,
                input.regions.len() as int,
            ).to_multiset().count(x)
        },
{
    let t = tables::tables_of(input.regions, input.rules, input.runs);
    let n = input.regions.len() as int;
    let a = region_flow(input, t, run, page, n);
    lemma_regions_add(input, t, run, page, n);
    let b = with_tables(a, input.regions, t, n, t.len() as int);
    lemma_tables_add(a, input.regions, t, n, t.len() as int);
    let c = with_images(b, input.images, input.images.len() as int);
    lemma_images_add(b, input.images, input.images.len() as int);
    let d = with_vectors(c, input.vectors, input.vectors.len() as int);
    lemma_vectors_add(c, input.vectors, input.vectors.len() as int);
    lemma_nothing_added_twice(a, b, c);
    lemma_nothing_added_twice(a, c, d);
    assert(flow_glyphs(d).count(x) == flow_glyphs(a).count(x));
}

/// Whether a block comes before another by page, and on one page by its place
/// there.
pub open spec fn comes_before(a: BlockId, b: BlockId) -> bool {
    a.page < b.page || a.page == b.page && a.index < b.index
}

/// Whether the id at a place of the tree's ids for a page is that of a
/// paragraph of the page.
pub open spec fn named_at<S>(
    pages: Seq<ModelPage<S>>,
    tree: TreeModel,
    id: BlockId,
    place: int,
) -> bool {
    let mcids = tree.mcids_of(tree.reading_order(), id.page);
    0 <= place < mcids.len() && match pages[id.page as int].flow.blocks[id.index as int] {
        BlockView::Paragraph(p) => p.mcid == Some(mcids[place]),
        _ => false,
    }
}

/// The blocks of a document without a tree, or with a truncated or empty one,
/// are read page by page, and those of a page in their order.
pub proof fn law_untagged_blocks_read_page_by_page<S>(
    pages: Seq<ModelPage<S>>,
    tree: Option<TreeModel>,
    i: int,
    j: int,
)
    requires
        numberable(pages),
        tree matches Some(t) ==> t.truncated || t.elements.len() == 0,
        0 <= i < j < order_of(pages, tree).0.len(),
    ensures
        comes_before(order_of(pages, tree).0[i], order_of(pages, tree).0[j]),
        order_of(pages, tree).1 == OrderSource::Geometry,
{
    lemma_geometric_ascends(pages, pages.len() as int, i, j);
}

proof fn lemma_geometric_ascends<S>(pages: Seq<ModelPage<S>>, n: int, i: int, j: int)
    requires
        numberable(pages),
        0 <= n <= pages.len(),
        0 <= i < j < geometric(pages, n).len(),
    ensures
        comes_before(geometric(pages, n)[i], geometric(pages, n)[j]),
    decreases n,
{
    if n > 0 {
        let a = geometric(pages, n - 1);
        if j < a.len() {
            lemma_geometric_ascends(pages, n - 1, i, j);
        } else if i < a.len() {
            lemma_geometric(pages, n - 1);
            assert(a.contains(a[i]));
            assert(names(pages, n - 1, a[i]));
        }
    }
}

/// The blocks of a tagged document are read in the tree's order as far as it
/// goes: those it names come first, page by page, and on a page in the order in
/// which it first names them. Those that it does not name keep the order of
/// pages and places among themselves.
pub proof fn law_tagged_blocks_read_in_the_order_of_the_tree<S>(
    pages: Seq<ModelPage<S>>,
    tree: TreeModel,
    i: int,
    j: int,
)
    requires
        numberable(pages),
        !tree.truncated,
        tree.elements.len() > 0,
        0 <= i < j < order_of(pages, Some(tree)).0.len(),
    ensures
        ({
            let a = order_of(pages, Some(tree)).0[i];
            let b = order_of(pages, Some(tree)).0[j];
            let first = exists|q: int| named_at(pages, tree, a, q);
            let second = exists|q: int| named_at(pages, tree, b, q);
            &&& second ==> first
            &&& first && second ==> a.page <= b.page
            &&& first && second && a.page == b.page ==> forall|q: int| #[trigger]
                named_at(pages, tree, b, q) ==> exists|p: int|
                    #[trigger] named_at(pages, tree, a, p) && (p < q || p == q && a.index
                        < b.index)
            &&& !first && !second ==> comes_before(a, b)
        }),
{
    let n = pages.len() as int;
    let all = geometric(pages, n);
    let named = tree_order(pages, tree, n);
    let order = order_of(pages, Some(tree)).0;
    lemma_geometric(pages, n);
    lemma_named(pages, tree, n);
    lemma_rest(pages, named, all.len() as int);
    let a = order[i];
    let b = order[j];
    if j < named.len() {
        assert(order.take(named.len() as int)[i] == named[i]);
        assert(order.take(named.len() as int)[j] == named[j]);
        assert(named.contains(a) && named.contains(b));
        assert(tree_before(pages, tree, named[i], named[j]));
    } else {
        assert(!named.contains(b));
        assert(all.contains(b));
        assert(names(pages, n, b));
        assert(!exists|q: int| named_at(pages, tree, b, q));
        if i < named.len() {
            assert(order.take(named.len() as int)[i] == named[i]);
            assert(named.contains(a));
        } else {
            assert(comes_before(order[i], order[j]));
        }
    }
}

/// The order is the structure tree's where the tree names a block, and geometric
/// where it names none.
pub proof fn law_the_order_is_the_trees_where_it_names_a_block<S>(
    pages: Seq<ModelPage<S>>,
    tree: TreeModel,
)
    requires
        numberable(pages),
        !tree.truncated,
        tree.elements.len() > 0,
    ensures
        order_of(pages, Some(tree)).1 == if exists|id: BlockId, q: int|
            id.page < pages.len() && id.index < pages[id.page as int].flow.blocks.len()
                && #[trigger] named_at(pages, tree, id, q) {
            OrderSource::Structure
        } else {
            OrderSource::Geometry
        },
{
    let n = pages.len() as int;
    let named = tree_order(pages, tree, n);
    lemma_named(pages, tree, n);
    if named.len() > 0 {
        assert(named.contains(named[0]));
    }
    if exists|id: BlockId, q: int|
        id.page < pages.len() && id.index < pages[id.page as int].flow.blocks.len()
            && #[trigger] named_at(pages, tree, id, q) {
        let (id, q) = choose|id: BlockId, q: int|
            id.page < pages.len() && id.index < pages[id.page as int].flow.blocks.len()
                && #[trigger] named_at(pages, tree, id, q);
        assert(named.contains(id));
    }
}

spec fn tree_before<S>(
    pages: Seq<ModelPage<S>>,
    tree: TreeModel,
    a: BlockId,
    b: BlockId,
) -> bool {
    ||| a.page < b.page
    ||| a.page == b.page && forall|q: int| #[trigger]
        named_at(pages, tree, b, q) ==> exists|p: int|
            #[trigger] named_at(pages, tree, a, p) && (p < q || p == q && a.index < b.index)
}

/// Whether a place up to `m`, or `m` itself for a block before `k`, names a
/// block.
spec fn reached<S>(
    pages: Seq<ModelPage<S>>,
    tree: TreeModel,
    id: BlockId,
    m: int,
    k: int,
) -> bool {
    exists|p: int| #[trigger]
        named_at(pages, tree, id, p) && (p < m || p == m && id.index < k)
}

/// How the listing of named blocks stands at place `m` of a page, before block
/// `k`.
spec fn listed_to<S>(
    pages: Seq<ModelPage<S>>,
    tree: TreeModel,
    s: Seq<BlockId>,
    page: int,
    m: int,
    k: int,
) -> bool {
    &&& forall|i: int, j: int|
        0 <= i < j < s.len() ==> tree_before(pages, tree, #[trigger] s[i], #[trigger] s[j])
    &&& forall|id: BlockId| #[trigger]
        s.contains(id) <==> id.page < pages.len() && id.index
            < pages[id.page as int].flow.blocks.len() && (id.page < page && (exists|q: int|
            named_at(pages, tree, id, q)) || id.page == page && reached(pages, tree, id, m, k))
}

proof fn lemma_listed_marked<S>(
    pages: Seq<ModelPage<S>>,
    tree: TreeModel,
    ids: Seq<BlockId>,
    page: usize,
    m: int,
    n: int,
)
    requires
        numberable(pages),
        page < pages.len(),
        0 <= m < tree.mcids_of(tree.reading_order(), page).len(),
        0 <= n <= pages[page as int].flow.blocks.len(),
        listed_to(pages, tree, ids, page as int, m, 0),
    ensures
        listed_to(
            pages,
            tree,
            with_marked(
                ids,
                pages[page as int].flow.blocks,
                page,
                tree.mcids_of(tree.reading_order(), page)[m],
                n,
            ),
            page as int,
            m,
            n,
        ),
    decreases n,
{
    if n > 0 {
        lemma_listed_marked(pages, tree, ids, page, m, n - 1);
        let mcid = tree.mcids_of(tree.reading_order(), page)[m];
        let blocks = pages[page as int].flow.blocks;
        let before = with_marked(ids, blocks, page, mcid, n - 1);
        let after = with_marked(ids, blocks, page, mcid, n);
        let id = BlockId { page, index: (n - 1) as usize };
        assert(marked(blocks[n - 1], mcid) == named_at(pages, tree, id, m));
        assert forall|x: BlockId| x.page == page && x.index < blocks.len() implies reached(
            pages,
            tree,
            x,
            m,
            n,
        ) == (reached(pages, tree, x, m, n - 1) || x == id && named_at(pages, tree, id, m)) by {
            if reached(pages, tree, x, m, n) {
                let p = choose|p: int| #[trigger]
                    named_at(pages, tree, x, p) && (p < m || p == m && x.index < n);
                if !(p < m || x.index < n - 1) {
                    assert(x == id);
                }
            }
            if reached(pages, tree, x, m, n - 1) {
                let p = choose|p: int| #[trigger]
                    named_at(pages, tree, x, p) && (p < m || p == m && x.index < n - 1);
                assert(named_at(pages, tree, x, p) && (p < m || p == m && x.index < n));
            }
            if x == id && named_at(pages, tree, id, m) {
                assert(x.index < n);
            }
        }
        if marked(blocks[n - 1], mcid) && !before.contains(id) {
            assert forall|x: BlockId| #[trigger]
                after.contains(x) <==> before.contains(x) || x == id by {
                lemma_pushed(before, id, x);
            }
            assert forall|i: int, j: int| 0 <= i < j < after.len() implies tree_before(
                pages,
                tree,
                #[trigger] after[i],
                #[trigger] after[j],
            ) by {
                if j < before.len() {
                    assert(tree_before(pages, tree, before[i], before[j]));
                } else {
                    let a = before[i];
                    assert(before.contains(a));
                    if a.page == page {
                        assert(reached(pages, tree, a, m, n - 1));
                        assert forall|q: int| #[trigger] named_at(pages, tree, id, q) implies exists|
                            p: int,
                        |
                            #[trigger] named_at(pages, tree, a, p) && (p < q || p == q && a.index
                                < id.index) by {
                            assert(!reached(pages, tree, id, m, n - 1));
                            let p = choose|p: int| #[trigger]
                                named_at(pages, tree, a, p) && (p < m || p == m && a.index < n - 1);
                            assert(named_at(pages, tree, a, p));
                            assert(q >= m);
                        }
                    }
                }
            }
        }
    }
}

proof fn lemma_listed_named<S>(
    pages: Seq<ModelPage<S>>,
    tree: TreeModel,
    ids: Seq<BlockId>,
    page: usize,
    m: int,
)
    requires
        numberable(pages),
        page < pages.len(),
        0 <= m <= tree.mcids_of(tree.reading_order(), page).len(),
        listed_to(pages, tree, ids, page as int, 0, 0),
    ensures
        listed_to(
            pages,
            tree,
            with_named(
                ids,
                pages[page as int].flow.blocks,
                page,
                tree.mcids_of(tree.reading_order(), page),
                m,
            ),
            page as int,
            m,
            0,
        ),
    decreases m,
{
    if m > 0 {
        lemma_listed_named(pages, tree, ids, page, m - 1);
        let blocks = pages[page as int].flow.blocks;
        let mcids = tree.mcids_of(tree.reading_order(), page);
        let before = with_named(ids, blocks, page, mcids, m - 1);
        lemma_listed_marked(pages, tree, before, page, m - 1, blocks.len() as int);
        assert forall|x: BlockId| x.page == page && x.index < blocks.len() implies reached(
            pages,
            tree,
            x,
            m,
            0,
        ) == reached(pages, tree, x, m - 1, blocks.len() as int) by {
            if reached(pages, tree, x, m, 0) {
                let p = choose|p: int| #[trigger]
                    named_at(pages, tree, x, p) && (p < m || p == m && x.index < 0);
                assert(named_at(pages, tree, x, p));
            }
            if reached(pages, tree, x, m - 1, blocks.len() as int) {
                let p = choose|p: int| #[trigger]
                    named_at(pages, tree, x, p) && (p < m - 1 || p == m - 1 && x.index
                        < blocks.len());
                assert(named_at(pages, tree, x, p));
            }
        }
    }
}

proof fn lemma_named<S>(pages: Seq<ModelPage<S>>, tree: TreeModel, n: int)
    requires
        numberable(pages),
        0 <= n <= pages.len(),
    ensures
        listed_to(pages, tree, tree_order(pages, tree, n), n, 0, 0),
    decreases n,
{
    if n > 0 {
        lemma_named(pages, tree, n - 1);
        let page = (n - 1) as usize;
        let mcids = tree.mcids_of(tree.reading_order(), page);
        lemma_listed_named(pages, tree, tree_order(pages, tree, n - 1), page, mcids.len() as int);
        assert forall|x: BlockId| x.page == page implies reached(
            pages,
            tree,
            x,
            mcids.len() as int,
            0,
        ) == exists|q: int| named_at(pages, tree, x, q) by {
            if exists|q: int| named_at(pages, tree, x, q) {
                let q = choose|q: int| named_at(pages, tree, x, q);
                assert(named_at(pages, tree, x, q) && q < mcids.len());
            }
        }
    }
    assert forall|x: BlockId| x.page == n implies !reached(pages, tree, x, 0, 0) by {
        if reached(pages, tree, x, 0, 0) {
            let p = choose|p: int| #[trigger]
                named_at(pages, tree, x, p) && (p < 0 || p == 0 && x.index < 0);
            assert(named_at(pages, tree, x, p));
        }
    }
}

proof fn lemma_rest<S>(pages: Seq<ModelPage<S>>, ids: Seq<BlockId>, n: int)
    requires
        numberable(pages),
        0 <= n <= geometric(pages, pages.len() as int).len(),
    ensures
        ({
            let all = geometric(pages, pages.len() as int);
            let s = with_rest(ids, all, n);
            &&& s.len() >= ids.len()
            &&& s.take(ids.len() as int) == ids
            &&& forall|i: int|
                ids.len() <= i < s.len() ==> !ids.contains(#[trigger] s[i]) && all.take(
                    n,
                ).contains(s[i]) && all.contains(s[i])
            &&& forall|i: int, j: int|
                ids.len() <= i < j < s.len() ==> comes_before(#[trigger] s[i], #[trigger] s[j])
        }),
    decreases n,
{
    let all = geometric(pages, pages.len() as int);
    if n > 0 {
        lemma_rest(pages, ids, n - 1);
        let before = with_rest(ids, all, n - 1);
        let s = with_rest(ids, all, n);
        let id = all[n - 1];
        assert(s.take(ids.len() as int) =~= before.take(ids.len() as int));
        assert forall|i: int| ids.len() <= i < s.len() implies !ids.contains(#[trigger] s[i])
            && all.take(n).contains(s[i]) && all.contains(s[i]) by {
            if i < before.len() {
                assert(s[i] == before[i]);
                let q = choose|q: int| 0 <= q < n - 1 && #[trigger] all.take(n - 1)[q] == before[i];
                assert(all.take(n)[q] == s[i]);
            } else {
                assert(all.take(n)[n - 1] == s[i]);
                assert(all[n - 1] == s[i]);
            }
        }
        assert forall|i: int, j: int| ids.len() <= i < j < s.len() implies comes_before(
            #[trigger] s[i],
            #[trigger] s[j],
        ) by {
            assert(s[i] == before[i]);
            if j < before.len() {
                assert(comes_before(before[i], before[j]));
            } else {
                assert(all.take(n - 1).contains(before[i]));
                let q = choose|q: int| 0 <= q < n - 1 && #[trigger] all.take(n - 1)[q] == before[i];
                lemma_geometric_ascends(pages, pages.len() as int, q, n - 1);
            }
        }
    } else {
        assert(ids.take(ids.len() as int) =~= ids);
    }
}

/// The reading order of a document is that of its pages and its tree.
pub proof fn law_a_document_is_read_in_order<S: Scalar>(
    doc: Document<S>,
    inputs: Seq<InputModel<S>>,
    i: int,
    j: int,
)
    requires
        numberable(built(doc, inputs).pages),
        0 <= i < j < built(doc, inputs).reading_order.len(),
    ensures
        ({
            let d = built(doc, inputs);
            let a = d.reading_order[i];
            let b = d.reading_order[j];
            &&& d.pages.len() == inputs.len()
            &&& match d.structure {
                Some(tree) if !tree.truncated && tree.elements.len() > 0 => {
                    let first = exists|q: int| named_at(d.pages, tree, a, q);
                    let second = exists|q: int| named_at(d.pages, tree, b, q);
                    &&& second ==> first
                    &&& first && second ==> a.page <= b.page
                    &&& !first && !second ==> comes_before(a, b)
                },
                _ => comes_before(a, b) && d.order_source == OrderSource::Geometry,
            }
        }),
{
    let d = built(doc, inputs);
    match d.structure {
        Some(tree) if !tree.truncated && tree.elements.len() > 0 => {
            law_tagged_blocks_read_in_the_order_of_the_tree(d.pages, tree, i, j);
        },
        _ => {
            law_untagged_blocks_read_page_by_page(d.pages, d.structure, i, j);
        },
    }
}

/// The text of some blocks after which others come is the text of the first and
/// then that of the others.
pub proof fn law_blocks_read_one_after_another<S: Scalar>(
    doc: DocumentView<S>,
    a: Seq<BlockId>,
    b: Seq<BlockId>,
)
    ensures
        text_of(doc, a + b, (a.len() + b.len()) as int) == text_of(doc, a, a.len() as int)
            + text_of(doc, b, b.len() as int),
    decreases b.len(),
{
    let n = (a.len() + b.len()) as int;
    if b.len() == 0 {
        assert(a + b =~= a);
        assert(text_of(doc, a, n) + Seq::<char>::empty() =~= text_of(doc, a, n));
    } else {
        let front = b.drop_last();
        law_blocks_read_one_after_another(doc, a, front);
        lemma_text_same(doc, a + b, a + front, n - 1);
        lemma_text_same(doc, b, front, b.len() - 1);
        assert((a + b)[n - 1] == b.last());
        let x = text_of(doc, a, a.len() as int);
        let y = text_of(doc, front, front.len() as int);
        let part = part_of(doc.pages[b.last().page as int], b.last().index as int);
        let t = text::trimmed(part);
        assert((x + y + t).push('\n') =~= x + (y + t).push('\n'));
    }
}

proof fn lemma_text_same<S: Scalar>(
    doc: DocumentView<S>,
    a: Seq<BlockId>,
    b: Seq<BlockId>,
    n: int,
)
    requires
        0 <= n <= a.len(),
        n <= b.len(),
        forall|i: int| 0 <= i < n ==> a[i] == #[trigger] b[i],
    ensures
        text_of(doc, a, n) == text_of(doc, b, n),
    decreases n,
{
    if n > 0 {
        lemma_text_same(doc, a, b, n - 1);
        assert(a[n - 1] == b[n - 1]);
    }
}

/// A block of text is one row of the document's text, without the white space
/// around it. A blank one, an image and a drawing give no row.
pub proof fn law_a_block_is_a_row<S: Scalar>(doc: DocumentView<S>, id: BlockId)
    ensures
        ({
            let page = doc.pages[id.page as int];
            let i = id.index as int;
            let row = text_of(doc, seq![id], 1);
            match page.flow.blocks[i] {
                BlockView::Image(_) | BlockView::Vector(_) => row.len() == 0,
                BlockView::Table(_) => true,
                _ => i < page.flow.lines.len() ==> {
                    let t = text::trimmed(
                        tables::run_on_text(
                            page.flow.lines[i],
                            page.flow.lines[i].len() as int,
                        ),
                    );
                    row == if t.len() == 0 {
                        t
                    } else {
                        t + seq!['\n']
                    }
                },
            }
        }),
{
    assert(text_of(doc, seq![id], 0) =~= Seq::empty());
    let part = part_of(doc.pages[id.page as int], id.index as int);
    let t = text::trimmed(part);
    assert((Seq::<char>::empty() + t).push('\n') =~= t + seq!['\n']);
    let page = doc.pages[id.page as int];
    if page.flow.blocks[id.index as int] is Image || page.flow.blocks[id.index as int] is Vector {
        assert(part.len() == 0);
        assert(t.len() == 0);
    }
    if t.len() == 0 {
        assert(t =~= Seq::empty());
    }
}

/// The cells of a table that have text are set apart by one tab each.
pub proof fn law_cells_are_set_apart_by_tabs<S: Scalar>(
    a: Seq<CellModel<S>>,
    b: Seq<CellModel<S>>,
)
    ensures
        ({
            let x = tabbed(a, a.len() as int);
            let y = tabbed(b, b.len() as int);
            tabbed(a + b, (a.len() + b.len()) as int) == if x.len() == 0 {
                y
            } else if y.len() == 0 {
                x
            } else {
                x + seq!['\t'] + y
            }
        }),
    decreases b.len(),
{
    let n = (a.len() + b.len()) as int;
    let x = tabbed(a, a.len() as int);
    if b.len() == 0 {
        assert(a + b =~= a);
        if x.len() == 0 {
            assert(x =~= Seq::empty());
        }
    } else {
        let front = b.drop_last();
        law_cells_are_set_apart_by_tabs(a, front);
        lemma_tabbed_same(a + b, a + front, n - 1);
        lemma_tabbed_same(b, front, b.len() - 1);
        assert((a + b)[n - 1] == b.last());
        let y = tabbed(front, front.len() as int);
        let t = tables::run_on_text(b.last().lines, b.last().lines.len() as int);
        if !text::blank(t) {
            assert(t.len() > 0);
            assert((x + seq!['\t'] + y).push('\t') + t =~= x + seq!['\t'] + (y.push('\t') + t));
            assert(x.push('\t') + t =~= x + seq!['\t'] + t);
        }
    }
}

/// A cell with text gives its text, and a blank one nothing.
pub proof fn law_one_cell_reads_as_it_is<S: Scalar>(c: CellModel<S>)
    ensures
        ({
            let t = tables::run_on_text(c.lines, c.lines.len() as int);
            &&& (exists|i: int| 0 <= i < t.len() && !text::white_space(#[trigger] t[i]))
                ==> tabbed(seq![c], 1) == t
            &&& (forall|i: int| 0 <= i < t.len() ==> text::white_space(#[trigger] t[i]))
                ==> tabbed(seq![c], 1).len() == 0
        }),
{
    assert(tabbed(seq![c], 0) =~= Seq::empty());
}

proof fn lemma_tabbed_same<S: Scalar>(a: Seq<CellModel<S>>, b: Seq<CellModel<S>>, n: int)
    requires
        0 <= n <= a.len(),
        n <= b.len(),
        forall|i: int| 0 <= i < n ==> a[i] == #[trigger] b[i],
    ensures
        tabbed(a, n) == tabbed(b, n),
    decreases n,
{
    if n > 0 {
        lemma_tabbed_same(a, b, n - 1);
        assert(a[n - 1] == b[n - 1]);
    }
}

/// The glyphs of a table are those of its cells' lines, cell by cell.
pub proof fn law_a_tables_glyphs_are_those_of_its_cells<S>(
    t: TableModel<S>,
    g: PlacedGlyph<S>,
)
    ensures
        table_glyphs(t).contains(g) <==> exists|i: int, j: int|
            0 <= i < t.cells.len() && 0 <= j < t.cells[i].lines.len()
                && #[trigger] t.cells[i].lines[j].glyphs.contains(g),
{
    lemma_cells_glyphs(t.cells, t.cells.len() as int, g);
}

proof fn lemma_cells_glyphs<S>(cells: Seq<CellModel<S>>, n: int, g: PlacedGlyph<S>)
    requires
        0 <= n <= cells.len(),
    ensures
        cells_glyphs(cells, n).contains(g) <==> exists|i: int, j: int|
            0 <= i < n && 0 <= j < cells[i].lines.len()
                && #[trigger] cells[i].lines[j].glyphs.contains(g),
    decreases n,
{
    if n > 0 {
        lemma_cells_glyphs(cells, n - 1, g);
        let before = cells_glyphs(cells, n - 1);
        let own = regions::spread_glyphs(cells[n - 1].lines);
        let l = cells[n - 1].lines;
        lemma_lines_glyphs(l, g);
        let all = before + own;
        if before.contains(g) {
            let q = choose|q: int| 0 <= q < before.len() && before[q] == g;
            assert(all[q] == g);
        }
        if own.contains(g) {
            let q = choose|q: int| 0 <= q < own.len() && own[q] == g;
            assert(all[before.len() + q] == g);
            let j = choose|j: int| 0 <= j < l.len() && (#[trigger] l[j]).glyphs.contains(g);
            assert(cells[n - 1].lines[j].glyphs.contains(g));
        }
        if all.contains(g) {
            let q = choose|q: int| 0 <= q < all.len() && all[q] == g;
            if q < before.len() {
                assert(before[q] == g);
            } else {
                assert(own[q - before.len()] == g);
            }
        }
        if exists|i: int, j: int|
            0 <= i < n && 0 <= j < cells[i].lines.len()
                && #[trigger] cells[i].lines[j].glyphs.contains(g) {
            let (i, j) = choose|i: int, j: int|
                0 <= i < n && 0 <= j < cells[i].lines.len()
                    && #[trigger] cells[i].lines[j].glyphs.contains(g);
            if i == n - 1 {
                assert(l[j].glyphs.contains(g));
            }
        }
    }
}

proof fn lemma_lines_glyphs<S>(l: Seq<LineModel<S>>, g: PlacedGlyph<S>)
    ensures
        regions::spread_glyphs(l).contains(g) <==> exists|j: int|
            0 <= j < l.len() && (#[trigger] l[j]).glyphs.contains(g),
    decreases l.len(),
{
    if l.len() > 0 {
        let front = l.drop_last();
        let own = l.last().glyphs;
        lemma_lines_glyphs(front, g);
        let before = regions::spread_glyphs(front);
        let all = regions::spread_glyphs(l);
        assert(all == before + own);
        if before.contains(g) {
            let q = choose|q: int| 0 <= q < before.len() && before[q] == g;
            assert(all[q] == g);
            let j = choose|j: int| 0 <= j < front.len() && (#[trigger] front[j]).glyphs.contains(g);
            assert(l[j].glyphs.contains(g));
        }
        if own.contains(g) {
            let q = choose|q: int| 0 <= q < own.len() && own[q] == g;
            assert(all[before.len() + q] == g);
            assert(l[l.len() - 1].glyphs.contains(g));
        }
        if all.contains(g) {
            let q = choose|q: int| 0 <= q < all.len() && all[q] == g;
            if q < before.len() {
                assert(before[q] == g);
            } else {
                assert(own[q - before.len()] == g);
            }
        }
        if exists|j: int| 0 <= j < l.len() && (#[trigger] l[j]).glyphs.contains(g) {
            let j = choose|j: int| 0 <= j < l.len() && (#[trigger] l[j]).glyphs.contains(g);
            if j < front.len() {
                assert(front[j].glyphs.contains(g));
            }
        }
    }
}

/// Lines are declined where one of them does not run across the page, else where
/// less than half of their glyphs have text, and are read otherwise.
pub proof fn law_lines_are_declined_for_a_reason(l: Seq<LineModel<scalar::Fixed>>)
    requires
        regions::spread_glyphs(l).len() <= 0x3FFF_FFFF_FFFF,
    ensures
        ({
            let g = regions::spread_glyphs(l);
            let mapped = g.filter(|x: PlacedGlyph<scalar::Fixed>| x.text is Some).len();
            let slanted = exists|i: int|
                0 <= i < l.len() && !(#[trigger] l[i]).direction.spec_magnitude().spec_lt(
                    scalar::Fixed::spec_ratio(1, 100),
                );
            &&& declined(l) == Some(DeclineReason::NonHorizontal) <==> g.len() > 0 && slanted
            &&& declined(l) == Some(DeclineReason::Unmapped) <==> g.len() > 0 && !slanted && 2
                * mapped < g.len()
            &&& declined(l) is None <==> g.len() == 0 || !slanted && 2 * mapped >= g.len()
        }),
{
    let g = regions::spread_glyphs(l);
    let n = g.len() as int;
    lemma_mapped_among(g, n);
    assert(g.take(n) =~= g);
    let mapped = mapped_among(g, n) as int;
    let text = |x: PlacedGlyph<scalar::Fixed>| x.text is Some;
    g.lemma_filter_len(text);
    let half = scalar::Fixed::spec_ratio(1, 2);
    scalar::law_fixed_point_arithmetic(half, half, mapped as i64);
    scalar::law_fixed_point_arithmetic(half, half, n as i64);
    scalar::lemma_exact_division(0x8000, 2);
    assert(half.raw == 0x8000);
    let many = scalar::count::<scalar::Fixed>(scalar::held(n));
    scalar::law_fixed_point_arithmetic(many, half, 0);
    assert(many.spec_times(half).raw == n * 0x8000);
    assert forall|i: int| 0 <= i < l.len() implies level(#[trigger] l[i])
        == l[i].direction.spec_magnitude().spec_lt(scalar::Fixed::spec_ratio(1, 100)) by {}
}

proof fn lemma_mapped_among<S>(g: Seq<PlacedGlyph<S>>, n: int)
    requires
        0 <= n <= g.len(),
    ensures
        mapped_among(g, n) == g.take(n).filter(|x: PlacedGlyph<S>| x.text is Some).len(),
    decreases n,
{
    reveal(Seq::filter);
    if n > 0 {
        lemma_mapped_among(g, n - 1);
        assert(g.take(n).drop_last() =~= g.take(n - 1));
        assert(g.take(n).last() == g[n - 1]);
    } else {
        assert(g.take(0) =~= Seq::empty());
    }
}

/// What is known of a page keeps its boxes, its rotation and its runs, and its
/// regions hold the glyphs of those runs.
pub proof fn law_a_pages_evidence_is_its_own<'a, S: Scalar>(
    doc: Document<S>,
    page: PageSource<'a, S>,
    runs: Seq<ResolvedRun<S>>,
)
    ensures
        ({
            let e = evidence_of(doc, page, runs);
            &&& e.media_box == page.media_box && e.crop_box == page.crop_box
            &&& e.rotate == page.rotate && e.runs == runs
            &&& e.regions == regions::detected(
                lines::placed_runs(runs, runs.len() as int),
                e.rules,
            )
        }),
{
}

/// The images of a page come after its text and its tables, and the drawings
/// after the images, each in the order in which they were painted.
pub proof fn law_images_come_after_text<S: Scalar>(
    input: InputModel<S>,
    run: Seq<RunningModel<S>>,
    page: usize,
)
    ensures
        ({
            let b = flow_of(input, run, page).blocks;
            let images = input.images.map_values(|x: ImageBlock<S>| BlockView::Image(x));
            let drawings = input.vectors.map_values(|x: BlockModel<S>| BlockView::Vector(x));
            let text = b.len() - images.len() - drawings.len();
            &&& text >= 0
            &&& b.skip(text) == images + drawings
        }),
{
    let t = tables::tables_of(input.regions, input.rules, input.runs);
    let n = input.regions.len() as int;
    let all = with_tables(
        region_flow(input, t, run, page, n),
        input.regions,
        t,
        n,
        t.len() as int,
    );
    let drawn = with_images(all, input.images, input.images.len() as int);
    lemma_with_images(all, input.images, input.images.len() as int);
    lemma_with_vectors(drawn, input.vectors, input.vectors.len() as int);
    let images = input.images.map_values(|x: ImageBlock<S>| BlockView::Image(x));
    let drawings = input.vectors.map_values(|x: BlockModel<S>| BlockView::Vector(x));
    let b = flow_of(input, run, page).blocks;
    assert(input.images.take(input.images.len() as int) =~= input.images);
    assert(input.vectors.take(input.vectors.len() as int) =~= input.vectors);
    assert(b =~= all.blocks + images + drawings);
    assert(b.skip(all.blocks.len() as int) =~= images + drawings);
}

proof fn lemma_with_images<S>(flow: Flow<S>, images: Seq<ImageBlock<S>>, n: int)
    requires
        0 <= n <= images.len(),
    ensures
        with_images(flow, images, n).blocks == flow.blocks + images.take(n).map_values(
            |x: ImageBlock<S>| BlockView::Image(x),
        ),
    decreases n,
{
    let shown = |x: ImageBlock<S>| BlockView::Image(x);
    if n > 0 {
        lemma_with_images(flow, images, n - 1);
        assert(images.take(n).map_values(shown) =~= images.take(n - 1).map_values(shown).push(
            BlockView::Image(images[n - 1]),
        ));
    }
    assert(with_images(flow, images, n).blocks =~= flow.blocks + images.take(n).map_values(shown));
}

proof fn lemma_with_vectors<S>(flow: Flow<S>, vectors: Seq<BlockModel<S>>, n: int)
    requires
        0 <= n <= vectors.len(),
    ensures
        with_vectors(flow, vectors, n).blocks == flow.blocks + vectors.take(n).map_values(
            |x: BlockModel<S>| BlockView::Vector(x),
        ),
    decreases n,
{
    let shown = |x: BlockModel<S>| BlockView::Vector(x);
    if n > 0 {
        lemma_with_vectors(flow, vectors, n - 1);
        assert(vectors.take(n).map_values(shown) =~= vectors.take(n - 1).map_values(shown).push(
            BlockView::Vector(vectors[n - 1]),
        ));
    }
    assert(with_vectors(flow, vectors, n).blocks =~= flow.blocks + vectors.take(n).map_values(
        shown,
    ));
}

/// A table stands before the first region that it took a glyph of, and after all
/// of them where it took none.
pub proof fn law_a_table_stands_before_its_first_region<S>(
    r: Seq<RegionModel<S>>,
    t: TableModel<S>,
    k: int,
)
    requires
        0 <= k <= r.len(),
        k < r.len() ==> took_from(t, r[k]),
        forall|i: int| 0 <= i < k ==> !took_from(t, #[trigger] r[i]),
    ensures
        anchor_of(r, t, 0) == k,
{
    lemma_anchor(r, t, 0, k);
}

/// Whether a table and a region have a glyph in common.
pub open spec fn took_from<S>(t: TableModel<S>, r: RegionModel<S>) -> bool {
    let own = regions::spread_glyphs(r.lines);
    let held = table_glyphs(t);
    exists|i: int, j: int|
        {
            &&& 0 <= i < own.len() && 0 <= j < held.len()
            &&& (#[trigger] held[j]).run == (#[trigger] own[i]).run
            &&& held[j].index == own[i].index
        }
}

proof fn lemma_anchor<S>(r: Seq<RegionModel<S>>, t: TableModel<S>, from: int, k: int)
    requires
        0 <= from <= k <= r.len(),
        k < r.len() ==> took_from(t, r[k]),
        forall|i: int| from <= i < k ==> !took_from(t, #[trigger] r[i]),
    ensures
        anchor_of(r, t, from) == k,
    decreases k - from,
{
    if from < r.len() {
        lemma_took_from(t, r[from]);
    }
    if from < k {
        lemma_anchor(r, t, from + 1, k);
    }
}

proof fn lemma_took_from<S>(t: TableModel<S>, r: RegionModel<S>)
    ensures
        shares(t, r) == took_from(t, r),
{
    let own = regions::spread_glyphs(r.lines);
    let held = table_glyphs(t);
    if took_from(t, r) {
        let (i, j) = choose|i: int, j: int|
            0 <= i < own.len() && 0 <= j < held.len() && (#[trigger] held[j]).run == (
            #[trigger] own[i]).run && held[j].index == own[i].index;
        assert(among(held, own[i]));
    }
    if shares(t, r) {
        let i = choose|i: int| 0 <= i < own.len() && among(held, #[trigger] own[i]);
        let j = choose|j: int|
            0 <= j < held.len() && (#[trigger] held[j]).run == own[i].run && held[j].index
                == own[i].index;
        assert(held[j].run == own[i].run);
    }
}

/// A region that no table took from is one running block where it is an instance
/// of a running element, one declined block where its lines are declined, and
/// else its paragraphs, in order.
pub proof fn law_a_region_reads_as_its_blocks<S: Scalar>(
    flow: Flow<S>,
    r: RegionModel<S>,
    run: Seq<RunningModel<S>>,
    runs: Seq<ResolvedRun<S>>,
    page: usize,
    index: usize,
    k: int,
)
    requires
        regions::spread_glyphs(r.lines).len() > 0,
        0 <= k <= run.len(),
        k < run.len() ==> instance_at(run[k], page, index),
        forall|i: int| 0 <= i < k ==> !instance_at(#[trigger] run[i], page, index),
    ensures
        ({
            let after = with_region(flow, r, Seq::empty(), run, runs, page, index).blocks;
            let p = paragraphs::paragraphs_of(r.lines, runs);
            &&& k < run.len() ==> after == flow.blocks.push(BlockView::Running(run[k]))
            &&& k == run.len() ==> match declined(r.lines) {
                Some(reason) => after == flow.blocks.push(
                    BlockView::Unknown(RawModel { lines: r.lines, bbox: r.bbox, reason }),
                ),
                None => after == flow.blocks + p.map_values(
                    |x: ParagraphModel<S>| BlockView::Paragraph(x),
                ),
            }
        }),
{
    let own = regions::spread_glyphs(r.lines);
    lemma_running_found(run, page, index, 0, k);
    lemma_nothing_tabled(own, own.len() as int);
    let p = paragraphs::paragraphs_of(r.lines, runs);
    lemma_with_paragraphs(flow, r.lines, p, p.len() as int);
    assert(p.take(p.len() as int) =~= p);
}

proof fn lemma_running_found<S>(
    r: Seq<RunningModel<S>>,
    page: usize,
    index: usize,
    from: int,
    k: int,
)
    requires
        0 <= from <= k <= r.len(),
        k < r.len() ==> instance_at(r[k], page, index),
        forall|i: int| from <= i < k ==> !instance_at(#[trigger] r[i], page, index),
    ensures
        running_at(r, page, index, from) == k,
    decreases k - from,
{
    if from < k {
        lemma_running_found(r, page, index, from + 1, k);
    }
}

proof fn lemma_nothing_tabled<S>(g: Seq<PlacedGlyph<S>>, n: int)
    requires
        0 <= n <= g.len(),
    ensures
        left_over(Seq::<TableModel<S>>::empty(), g, n) == g.take(n),
    decreases n,
{
    if n > 0 {
        lemma_nothing_tabled(g, n - 1);
        assert(g.take(n) =~= g.take(n - 1).push(g[n - 1]));
    } else {
        assert(g.take(0) =~= Seq::empty());
    }
}

proof fn lemma_with_paragraphs<S>(
    flow: Flow<S>,
    l: Seq<LineModel<S>>,
    p: Seq<ParagraphModel<S>>,
    n: int,
)
    requires
        0 <= n <= p.len(),
    ensures
        with_paragraphs(flow, l, p, n).blocks == flow.blocks + p.take(n).map_values(
            |x: ParagraphModel<S>| BlockView::Paragraph(x),
        ),
    decreases n,
{
    let shown = |x: ParagraphModel<S>| BlockView::Paragraph(x);
    if n > 0 {
        lemma_with_paragraphs(flow, l, p, n - 1);
        assert(p.take(n).map_values(shown) =~= p.take(n - 1).map_values(shown).push(
            BlockView::Paragraph(p[n - 1]),
        ));
    }
    assert(with_paragraphs(flow, l, p, n).blocks =~= flow.blocks + p.take(n).map_values(shown));
}

} // verus!
