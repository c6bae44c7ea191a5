//! Images and vector art.
//!
//! A page is not only glyphs, and a document model that omits the figures would
//! let an edit reflow text straight through a photograph. An image is located,
//! measured and identified; vector artwork is kept path by path and grouped
//! into drawings. Neither is interpreted.

use vstd::prelude::*;

use crate::content::{Colour, GraphicsState, Op, OpKind, Span, Step, WalkContext};
use crate::geometry::{Matrix, Point, Rect};
use crate::grouping;
use crate::objects;
use crate::objects::{Dictionary, Name, ObjId, Object};
use crate::scalar;
use crate::scalar::Scalar;
use crate::text;

verus! {

/// Beyond this many painted paths, the page's vector content is reported as a
/// single region.
pub const MAX_PATHS: usize = 4000;

/// A placed image: an image object drawn by name, or an inline image.
#[derive(Debug)]
pub struct ImageBlock<S> {
    /// Device-space bounds of the part that shows. Empty when the clip excludes
    /// the image entirely.
    pub bbox: Rect<S>,
    /// Where the image would be with no clip.
    pub unclipped_bbox: Rect<S>,
    /// The clip in force when it was drawn, if any.
    pub clip: Option<Rect<S>>,
    /// The transform in force.
    pub ctm: Matrix<S>,
    /// The image's name in the resources, absent for an inline image.
    pub name: Option<Name>,
    /// The object drawn, absent for an inline image.
    pub id: Option<ObjId>,
    /// Pixel dimensions, when they could be read.
    pub pixels: Option<(u32, u32)>,
    /// Whether this is an image mask.
    pub is_mask: bool,
    /// Whether the image lives in the content stream.
    pub inline: bool,
    /// The drawing operator's byte span.
    pub span: Span,
    /// The content stream the span addresses.
    pub source: Option<ObjId>,
    /// Form nesting; zero when drawn directly on the page.
    pub depth: usize,
}

impl<S: Scalar> ImageBlock<S> {
    /// Effective resolution in pixels per point, the smaller of the two axes,
    /// for an image that covers an area.
    pub open spec fn spec_resolution(self) -> Option<S> {
        let (w, h) = (self.bbox.spec_width(), self.bbox.spec_height());
        let zero = scalar::zero::<S>();
        match self.pixels {
            Some((pw, ph)) if !w.spec_le(zero) && !h.spec_le(zero) => Some(
                scalar::count::<S>(pw as int).spec_over(w).spec_least(
                    scalar::count::<S>(ph as int).spec_over(h),
                ),
            ),
            _ => None,
        }
    }

    /// Effective resolution in pixels per point, the smaller of the two axes.
    /// Below about one an image will look soft in print.
    pub fn resolution(&self) -> (r: Option<S>)
        ensures
            r == self.spec_resolution(),
    {
        match self.pixels {
            Some((pw, ph)) => {
                let w = self.bbox.width();
                let h = self.bbox.height();
                if w.le(scalar::zero_of::<S>()) || h.le(scalar::zero_of::<S>()) {
                    return None;
                }
                Some(S::ratio(pw as i64, 1).over(w).least(S::ratio(ph as i64, 1).over(h)))
            },
            None => None,
        }
    }
}

/// How a path was painted.
#[derive(Debug, Clone, Copy, PartialEq, Eq, Structural)]
pub enum Paint {
    Fill { even_odd: bool },
    Stroke,
    FillStroke { even_odd: bool },
    /// A gradient painted over the current clip rather than a path.
    Shading,
}

impl Paint {
    /// Whether the operation uses the fill colour.
    pub fn fills(self) -> (r: bool)
        ensures
            r == (self != Paint::Stroke),
    {
        match self {
            Paint::Fill { .. } | Paint::FillStroke { .. } | Paint::Shading => true,
            Paint::Stroke => false,
        }
    }

    /// Whether the operation uses the stroke colour.
    pub fn strokes(self) -> (r: bool)
        ensures
            r == (self is Stroke || self is FillStroke),
    {
        match self {
            Paint::Stroke | Paint::FillStroke { .. } => true,
            Paint::Fill { .. } | Paint::Shading => false,
        }
    }
}

/// One segment of a subpath, in device space. Curves are kept as curves.
#[derive(Debug, Clone, Copy)]
pub enum Segment<S> {
    Line(Point<S>),
    Curve { c1: Point<S>, c2: Point<S>, to: Point<S> },
}

/// What a pattern colour actually paints.
#[derive(Debug)]
pub struct PatternFill {
    pub name: Name,
    pub kind: PatternKind,
    /// The pattern object, so that it can be read.
    pub id: Option<ObjId>,
}

#[derive(Debug, Clone, Copy, PartialEq, Eq, Structural)]
pub enum PatternKind {
    /// A content stream tiled across the region.
    Tiling,
    /// A gradient.
    Shading,
    /// Not found in the resources, or of no known type.
    Unknown,
}

/// A connected run of segments.
#[derive(Debug)]
pub struct SubPath<S> {
    pub start: Point<S>,
    pub segments: Vec<Segment<S>>,
    /// Whether the run was closed. A rectangle always is.
    pub closed: bool,
}

/// What a subpath draws.
#[verifier::ext_equal]
pub struct SubPathModel<S> {
    pub start: Point<S>,
    pub segments: Seq<Segment<S>>,
    pub closed: bool,
}

impl<S> View for SubPath<S> {
    type V = SubPathModel<S>;

    open spec fn view(&self) -> SubPathModel<S> {
        SubPathModel { start: self.start, segments: self.segments@, closed: self.closed }
    }
}

/// What a list of subpaths draws.
pub open spec fn subpath_models<S>(v: Seq<SubPath<S>>) -> Seq<SubPathModel<S>> {
    Seq::new(v.len(), |i: int| v[i]@)
}

/// One painted path, with what is needed to draw it again.
#[derive(Debug)]
pub struct VectorPath<S> {
    pub subpaths: Vec<SubPath<S>>,
    /// Device-space bounds of the path as painted, after clipping.
    pub bbox: Rect<S>,
    pub paint: Paint,
    /// The fill colour, where the paint fills.
    pub fill: Option<Colour<S>>,
    /// The stroke colour, where the paint strokes.
    pub stroke: Option<Colour<S>>,
    /// Line width in device space.
    pub line_width: S,
    pub ctm: Matrix<S>,
    /// The clip in force when the path was painted, if any.
    pub clip: Option<Rect<S>>,
    /// The painting operator's byte span.
    pub span: Span,
    /// The whole path: from the first construction operator through the
    /// painting operator.
    pub path_span: Span,
    /// Whether `path_span` holds nothing but path construction and the painting
    /// operator.
    pub self_contained: bool,
    /// The pattern this path is painted with, if any.
    pub pattern: Option<PatternFill>,
    /// Whether `clip` is the clipping region exactly rather than a box around
    /// it.
    pub clip_exact: bool,
    /// The content stream the span addresses; `None` for the page's own.
    pub source: Option<ObjId>,
    /// Form nesting; zero when drawn directly on the page.
    pub depth: usize,
    /// The gradient's name, for a shading.
    pub shading: Option<Name>,
}

/// What a painted path says.
#[verifier::ext_equal]
pub struct PathModel<S> {
    pub subpaths: Seq<SubPathModel<S>>,
    pub bbox: Rect<S>,
    pub paint: Paint,
    pub fill: Option<Colour<S>>,
    pub stroke: Option<Colour<S>>,
    pub line_width: S,
    pub ctm: Matrix<S>,
    pub clip: Option<Rect<S>>,
    pub span: Span,
    pub path_span: Span,
    pub self_contained: bool,
    pub pattern: Option<PatternFill>,
    pub clip_exact: bool,
    pub source: Option<ObjId>,
    pub depth: usize,
    pub shading: Option<Name>,
}

impl<S> View for VectorPath<S> {
    type V = PathModel<S>;

    open spec fn view(&self) -> PathModel<S> {
        PathModel {
            subpaths: subpath_models(self.subpaths@),
            bbox: self.bbox,
            paint: self.paint,
            fill: self.fill,
            stroke: self.stroke,
            line_width: self.line_width,
            ctm: self.ctm,
            clip: self.clip,
            span: self.span,
            path_span: self.path_span,
            self_contained: self.self_contained,
            pattern: self.pattern,
            clip_exact: self.clip_exact,
            source: self.source,
            depth: self.depth,
            shading: self.shading,
        }
    }
}

/// What a list of painted paths says.
pub open spec fn path_models<S>(v: Seq<VectorPath<S>>) -> Seq<PathModel<S>> {
    Seq::new(v.len(), |i: int| v[i]@)
}

/// Whether two corners share a coordinate, to a millionth.
pub open spec fn aligned<S: Scalar>(a: Point<S>, b: Point<S>) -> bool {
    let close = S::spec_ratio(1, 1_000_000);
    a.x.spec_minus(b.x).spec_magnitude().spec_lt(close) || a.y.spec_minus(
        b.y,
    ).spec_magnitude().spec_lt(close)
}

impl<S: Scalar> SubPathModel<S> {
    /// The points of a subpath made of straight segments.
    pub open spec fn corners(self) -> Seq<Point<S>> {
        let all = seq![self.start] + Seq::new(self.segments.len(), |i: int| self.segments[i]->0);
        if all.len() == 5 && all[4].spec_same(all[0]) {
            all.take(4)
        } else {
            all
        }
    }

    /// Whether a subpath is an axis-aligned rectangle: straight segments around
    /// four corners, of which each two neighbours share a coordinate.
    pub open spec fn rectangular(self) -> bool {
        &&& self.segments.len() <= 4
        &&& forall|i: int| 0 <= i < self.segments.len() ==> #[trigger] self.segments[i] is Line
        &&& self.corners().len() == 4
        &&& aligned(self.corners()[0], self.corners()[1])
        &&& aligned(self.corners()[1], self.corners()[2])
        &&& aligned(self.corners()[2], self.corners()[3])
        &&& aligned(self.corners()[3], self.corners()[0])
    }
}

fn corners_align<S: Scalar>(a: Point<S>, b: Point<S>) -> (r: bool)
    ensures
        r == aligned(a, b),
{
    let close = S::ratio(1, 1_000_000);
    a.x.minus(b.x).magnitude().lt(close) || a.y.minus(b.y).magnitude().lt(close)
}

impl<S: Scalar> VectorPath<S> {
    /// Whether the path is a single axis-aligned rectangle.
    pub fn is_rectangle(&self) -> (r: bool)
        ensures
            r == (self@.subpaths.len() == 1 && self@.subpaths[0].rectangular()),
    {
        if self.subpaths.len() != 1 {
            return false;
        }
        let only = &self.subpaths[0];
        if only.segments.len() > 4 {
            return false;
        }
        let ghost model = only@;
        assert(self@.subpaths[0] == model);
        let ghost all = seq![model.start] + Seq::new(
            model.segments.len(),
            |i: int| model.segments[i]->0,
        );
        let mut points: Vec<Point<S>> = Vec::new();
        points.push(only.start);
        let mut i: usize = 0;
        assert(points@ =~= all.take(1));
        while i < only.segments.len()
            invariant
                i <= only.segments@.len(),
                model == only@,
                all == seq![model.start] + Seq::new(
                    model.segments.len(),
                    |i: int| model.segments[i]->0,
                ),
                self@.subpaths.len() == 1,
                self@.subpaths[0] == model,
                points@ == all.take(i + 1),
                forall|j: int| 0 <= j < i ==> #[trigger] model.segments[j] is Line,
            decreases only.segments@.len() - i,
        {
            match only.segments[i] {
                Segment::Line(p) => { points.push(p); },
                Segment::Curve { .. } => {
                    assert(!(model.segments[i as int] is Line));
                    return false;
                },
            }
            i += 1;
            assert(points@ =~= all.take(i + 1));
        }
        assert(points@ =~= all);
        if points.len() == 5 && points[4].same(points[0]) {
            points.truncate(4);
            assert(points@ =~= all.take(4));
        }
        assert(points@ == model.corners());
        points.len() == 4 && corners_align(points[0], points[1]) && corners_align(
            points[1],
            points[2],
        ) && corners_align(points[2], points[3]) && corners_align(points[3], points[0])
    }
}

/// A region of vector artwork: a chart, a logo, a diagram.
#[derive(Debug)]
pub struct VectorBlock<S> {
    pub bbox: Rect<S>,
    /// The paths that went into it, in the order they were painted. Empty when
    /// the page carried more than `MAX_PATHS`.
    pub paths: Vec<VectorPath<S>>,
    /// How many painted paths went into it, retained or not.
    pub count: usize,
}

/// What a region of vector artwork says.
#[verifier::ext_equal]
pub struct BlockModel<S> {
    pub bbox: Rect<S>,
    pub paths: Seq<PathModel<S>>,
    pub count: nat,
}

impl<S> View for VectorBlock<S> {
    type V = BlockModel<S>;

    open spec fn view(&self) -> BlockModel<S> {
        BlockModel {
            bbox: self.bbox,
            paths: path_models(self.paths@),
            count: self.count as nat,
        }
    }
}

/// What a list of regions says.
pub open spec fn block_models<S>(v: Seq<VectorBlock<S>>) -> Seq<BlockModel<S>> {
    Seq::new(v.len(), |i: int| v[i]@)
}

/// Everything on a page that is not text.
#[derive(Debug)]
pub struct Graphics<S> {
    pub images: Vec<ImageBlock<S>>,
    pub vectors: Vec<VectorBlock<S>>,
    /// The page had more than `MAX_PATHS` painted paths, so geometry was not
    /// retained for any of them.
    pub geometry_truncated: bool,
}

/// The points that bound a segment.
pub open spec fn segment_points<S>(s: Segment<S>) -> Seq<Point<S>> {
    match s {
        Segment::Line(p) => seq![p],
        Segment::Curve { c1, c2, to } => seq![c1, c2, to],
    }
}

/// The points that bound the first `n` segments.
pub open spec fn segments_points<S>(s: Seq<Segment<S>>, n: int) -> Seq<Point<S>>
    decreases n,
{
    if n <= 0 {
        Seq::empty()
    } else {
        segments_points(s, n - 1) + segment_points(s[n - 1])
    }
}

/// The points that bound the first `n` subpaths.
pub open spec fn bounding_points<S>(s: Seq<SubPathModel<S>>, n: int) -> Seq<Point<S>>
    decreases n,
{
    if n <= 0 {
        Seq::empty()
    } else {
        bounding_points(s, n - 1).push(s[n - 1].start) + segments_points(
            s[n - 1].segments,
            s[n - 1].segments.len() as int,
        )
    }
}

/// The rectangle that is one point.
pub open spec fn point_rect<S>(p: Point<S>) -> Rect<S> {
    Rect { x0: p.x, y0: p.y, x1: p.x, y1: p.y }
}

/// The box around a list of points.
pub open spec fn hull<S: Scalar>(points: Seq<Point<S>>) -> Option<Rect<S>>
    decreases points.len(),
{
    if points.len() == 0 {
        None
    } else {
        match hull(points.drop_last()) {
            Some(r) => Some(r.spec_union(point_rect(points.last()))),
            None => Some(point_rect(points.last())),
        }
    }
}

/// The box around a constructed path, if it has any segment at all.
pub open spec fn path_bounds<S: Scalar>(s: Seq<SubPathModel<S>>) -> Option<Rect<S>> {
    if exists|i: int| 0 <= i < s.len() && (#[trigger] s[i]).segments.len() > 0 {
        hull(bounding_points(s, s.len() as int))
    } else {
        None
    }
}

fn extend_hull<S: Scalar>(out: Option<Rect<S>>, p: Point<S>, Ghost(points): Ghost<Seq<Point<S>>>) -> (r:
    Option<Rect<S>>)
    requires
        out == hull(points),
    ensures
        r == hull(points.push(p)),
{
    assert(points.push(p).drop_last() =~= points);
    let point = Rect { x0: p.x, y0: p.y, x1: p.x, y1: p.y };
    match out {
        Some(existing) => Some(existing.union(&point)),
        None => Some(point),
    }
}

/// Device-space bounds of a constructed path.
///
/// A curve lies within the hull of its control points, so taking the points
/// overstates the box slightly and never understates it. A path without
/// segments paints nothing measurable and has no bounds.
pub fn bounds_of<S: Scalar>(subpaths: &Vec<SubPath<S>>) -> (r: Option<Rect<S>>)
    ensures
        r == path_bounds(subpath_models(subpaths@)),
{
    let ghost model = subpath_models(subpaths@);
    let mut out: Option<Rect<S>> = None;
    let mut has_extent = false;
    let mut i: usize = 0;
    while i < subpaths.len()
        invariant
            i <= subpaths@.len(),
            model == subpath_models(subpaths@),
            out == hull(bounding_points(model, i as int)),
            has_extent == exists|k: int| 0 <= k < i && (#[trigger] model[k]).segments.len() > 0,
        decreases subpaths@.len() - i,
    {
        let sub = &subpaths[i];
        let ghost before = bounding_points(model, i as int).push(sub.start);
        assert(model[i as int] == sub@);
        out = extend_hull(out, sub.start, Ghost(bounding_points(model, i as int)));
        let mut j: usize = 0;
        assert(before + segments_points(sub.segments@, 0) =~= before);
        while j < sub.segments.len()
            invariant
                j <= sub.segments@.len(),
                out == hull(before + segments_points(sub.segments@, j as int)),
            decreases sub.segments@.len() - j,
        {
            let ghost so_far = before + segments_points(sub.segments@, j as int);
            match sub.segments[j] {
                Segment::Line(p) => {
                    out = extend_hull(out, p, Ghost(so_far));
                    assert(so_far.push(p) =~= before + segments_points(sub.segments@, j + 1));
                },
                Segment::Curve { c1, c2, to } => {
                    out = extend_hull(out, c1, Ghost(so_far));
                    out = extend_hull(out, c2, Ghost(so_far.push(c1)));
                    out = extend_hull(out, to, Ghost(so_far.push(c1).push(c2)));
                    assert(so_far.push(c1).push(c2).push(to) =~= before + segments_points(
                        sub.segments@,
                        j + 1,
                    ));
                },
            }
            j += 1;
        }
        if sub.segments.len() > 0 {
            has_extent = true;
            assert(model[i as int].segments.len() > 0);
        }
        i += 1;
    }
    if has_extent {
        out
    } else {
        None
    }
}

/// The box around the images of the corners of the unit square.
pub open spec fn spec_unit_square<S: Scalar>(ctm: Matrix<S>) -> Rect<S> {
    let (zero, one) = (scalar::zero::<S>(), scalar::one::<S>());
    let a = ctm.image(Point { x: zero, y: zero });
    let b = ctm.image(Point { x: one, y: zero });
    let c = ctm.image(Point { x: one, y: one });
    let d = ctm.image(Point { x: zero, y: one });
    Rect::<S>::spec_inverted().spec_extended(a.x, a.y).spec_extended(b.x, b.y).spec_extended(
        c.x,
        c.y,
    ).spec_extended(d.x, d.y)
}

/// The transform applied to the unit square, which is where every image is
/// drawn.
pub fn unit_square<S: Scalar>(ctm: &Matrix<S>) -> (r: Rect<S>)
    ensures
        r == spec_unit_square(*ctm),
{
    let zero = scalar::zero_of::<S>();
    let one = scalar::one_of::<S>();
    let a = ctm.apply(Point { x: zero, y: zero });
    let b = ctm.apply(Point { x: one, y: zero });
    let c = ctm.apply(Point { x: one, y: one });
    let d = ctm.apply(Point { x: zero, y: one });
    Rect::<S>::inverted().extended(a.x, a.y).extended(b.x, b.y).extended(c.x, c.y).extended(
        d.x,
        d.y,
    )
}

/// The operators that belong to a path itself: construction, closing, and the
/// painting operators that end it.
pub open spec fn path_op(kind: OpKind) -> bool {
    match kind {
        OpKind::Shading | OpKind::InlineImage | OpKind::InvokeXObject | OpKind::BeginMarkedProps
        | OpKind::Other => false,
        _ => true,
    }
}

/// Whether an operator belongs to the path itself.
pub fn is_path_op(kind: OpKind) -> (r: bool)
    ensures
        r == path_op(kind),
{
    match kind {
        OpKind::MoveTo | OpKind::LineTo | OpKind::CurveTo | OpKind::CurveToInitialReplicated
        | OpKind::CurveToFinalReplicated | OpKind::Rectangle | OpKind::ClosePath | OpKind::Stroke
        | OpKind::CloseStroke | OpKind::Fill | OpKind::FillObsolete | OpKind::FillEvenOdd
        | OpKind::FillStroke | OpKind::FillStrokeEvenOdd | OpKind::CloseFillStroke
        | OpKind::CloseFillStrokeEvenOdd | OpKind::EndPath => true,
        _ => false,
    }
}

/// What a pattern's type number says it is.
pub open spec fn pattern_kind<S>(object: Option<Object<S>>) -> PatternKind {
    match object {
        Some(Object::Stream(d)) | Some(Object::Dictionary(d)) => match d.value("PatternType"@) {
            Some(Object::Integer(1)) => PatternKind::Tiling,
            Some(Object::Integer(2)) => PatternKind::Shading,
            _ => PatternKind::Unknown,
        },
        _ => PatternKind::Unknown,
    }
}

/// The pattern that a colour names, for an operation that fills.
pub open spec fn spec_pattern_of<'a, S>(
    colour: Colour<S>,
    ctx: WalkContext<'a, S>,
    fills: bool,
) -> Option<PatternFill> {
    match colour {
        Colour::Unresolved { pattern: Some(name) } if fills => Some(
            PatternFill {
                name,
                kind: pattern_kind(ctx.resource("Pattern"@, name)),
                id: ctx.resource_id("Pattern"@, name),
            },
        ),
        _ => None,
    }
}

/// Resolve a pattern fill against the resources in scope.
fn pattern_of<'a, S: Scalar>(colour: &Colour<S>, ctx: &WalkContext<'a, S>, fills: bool) -> (r:
    Option<PatternFill>)
    ensures
        r == spec_pattern_of(*colour, *ctx, fills),
{
    if !fills {
        return None;
    }
    match colour {
        Colour::Unresolved { pattern: Some(name) } => {
            let number = match ctx.lookup("Pattern", name) {
                Some(Object::Stream(d)) => d.get("PatternType"),
                Some(Object::Dictionary(d)) => d.get("PatternType"),
                _ => None,
            };
            let kind = match number {
                Some(Object::Integer(n)) => if *n == 1 {
                    PatternKind::Tiling
                } else if *n == 2 {
                    PatternKind::Shading
                } else {
                    PatternKind::Unknown
                },
                _ => PatternKind::Unknown,
            };
            Some(PatternFill { name: name.copy(), kind, id: ctx.lookup_id("Pattern", name) })
        },
        _ => None,
    }
}

/// A pixel dimension read from an entry.
pub open spec fn dimension<S>(o: Option<Object<S>>) -> Option<u32> {
    match o {
        Some(Object::Integer(n)) if 0 <= n <= u32::MAX => Some(n as u32),
        _ => None,
    }
}

fn read_dimension<S>(o: Option<&Object<S>>) -> (r: Option<u32>)
    ensures
        r == match o {
            Some(o) => dimension(Some(*o)),
            None => None,
        },
{
    match o {
        Some(Object::Integer(n)) => if 0 <= *n && *n <= 0xFFFF_FFFF {
            Some(*n as u32)
        } else {
            None
        },
        _ => None,
    }
}

/// The value under the first of two keys that is there.
pub open spec fn either<S>(d: Dictionary<S>, first: Seq<char>, second: Seq<char>) -> Option<
    Object<S>,
> {
    match d.value(first) {
        Some(o) => Some(o),
        None => d.value(second),
    }
}

fn get_either<'a, S>(d: &'a Dictionary<S>, first: &str, second: &str) -> (r: Option<&'a Object<S>>)
    ensures
        match r {
            Some(o) => either(*d, first@, second@) == Some(*o),
            None => either(*d, first@, second@) is None,
        },
{
    match d.get(first) {
        Some(o) => Some(o),
        None => d.get(second),
    }
}

/// The pixel size that a dictionary gives under a pair of keys.
pub open spec fn pixel_size<S>(w: Option<Object<S>>, h: Option<Object<S>>) -> Option<(u32, u32)> {
    match (dimension(w), dimension(h)) {
        (Some(w), Some(h)) => Some((w, h)),
        _ => None,
    }
}

/// Whether an entry says true.
pub open spec fn truth<S>(o: Option<Object<S>>) -> bool {
    o matches Some(Object::Bool(true))
}

fn read_truth<S>(o: Option<&Object<S>>) -> (r: bool)
    ensures
        r == match o {
            Some(o) => truth(Some(*o)),
            None => false,
        },
{
    match o {
        Some(Object::Bool(b)) => *b,
        _ => false,
    }
}

/// An image drawn into the unit square under a graphics state.
pub open spec fn placed_image<'a, S: Scalar>(
    op: Op<S>,
    state: GraphicsState<S>,
    ctx: WalkContext<'a, S>,
    name: Option<Name>,
    id: Option<ObjId>,
    pixels: Option<(u32, u32)>,
    is_mask: bool,
    inline: bool,
) -> ImageBlock<S> {
    let whole = spec_unit_square(state.ctm);
    ImageBlock {
        bbox: match state.visible(whole) {
            Some(r) => r,
            None => Rect { x0: whole.x0, y0: whole.y0, x1: whole.x0, y1: whole.y0 },
        },
        unclipped_bbox: whole,
        clip: state.clip,
        ctm: state.ctm,
        name,
        id,
        pixels,
        is_mask,
        inline,
        span: op.span,
        source: ctx.source,
        depth: ctx.depth,
    }
}

fn place_image<'a, S: Scalar>(
    op: &Op<S>,
    state: &GraphicsState<S>,
    ctx: &WalkContext<'a, S>,
    name: Option<Name>,
    id: Option<ObjId>,
    pixels: Option<(u32, u32)>,
    is_mask: bool,
    inline: bool,
) -> (r: ImageBlock<S>)
    ensures
        r == placed_image(*op, *state, *ctx, name, id, pixels, is_mask, inline),
{
    let whole = unit_square(&state.ctm);
    let bbox = match state.clipped(whole) {
        Some(r) => r,
        None => Rect { x0: whole.x0, y0: whole.y0, x1: whole.x0, y1: whole.y0 },
    };
    ImageBlock {
        bbox,
        unclipped_bbox: whole,
        clip: state.clip,
        ctm: state.ctm,
        name,
        id,
        pixels,
        is_mask,
        inline,
        span: op.span,
        source: ctx.source,
        depth: ctx.depth,
    }
}

/// Gathers images and painted paths from the operators of a page, in order.
#[derive(Debug)]
pub struct Collector<S> {
    pub images: Vec<ImageBlock<S>>,
    /// Painted paths, in the order they were painted.
    pub paths: Vec<VectorPath<S>>,
    /// Subpaths of the path under construction.
    pub current: Vec<SubPath<S>>,
    /// The pen's last known position.
    pub start: Option<Point<S>>,
    /// Byte offset of the first construction operator of the path being built.
    pub path_start: Option<usize>,
    /// Whether only construction operators have been seen since it began.
    pub path_pure: bool,
}

/// What a collector has gathered.
#[verifier::ext_equal]
pub struct CollectorModel<S> {
    pub images: Seq<ImageBlock<S>>,
    pub paths: Seq<PathModel<S>>,
    pub current: Seq<SubPathModel<S>>,
    pub start: Option<Point<S>>,
    pub path_start: Option<usize>,
    pub path_pure: bool,
}

impl<S> View for Collector<S> {
    type V = CollectorModel<S>;

    open spec fn view(&self) -> CollectorModel<S> {
        CollectorModel {
            images: self.images@,
            paths: path_models(self.paths@),
            current: subpath_models(self.current@),
            start: self.start,
            path_start: self.path_start,
            path_pure: self.path_pure,
        }
    }
}

/// How a painting operator paints.
pub open spec fn paint_of(kind: OpKind) -> Paint {
    match kind {
        OpKind::Stroke | OpKind::CloseStroke => Paint::Stroke,
        OpKind::Fill | OpKind::FillObsolete => Paint::Fill { even_odd: false },
        OpKind::FillEvenOdd => Paint::Fill { even_odd: true },
        OpKind::FillStroke | OpKind::CloseFillStroke => Paint::FillStroke { even_odd: false },
        _ => Paint::FillStroke { even_odd: true },
    }
}

impl<S: Scalar> CollectorModel<S> {
    /// A collector that has seen nothing.
    pub open spec fn none() -> CollectorModel<S> {
        CollectorModel {
            images: Seq::empty(),
            paths: Seq::empty(),
            current: Seq::empty(),
            start: None,
            path_start: None,
            path_pure: true,
        }
    }

    /// A path under construction begins at the first of its operators.
    pub open spec fn began(self, at: usize) -> Self {
        if self.path_start is None {
            CollectorModel { path_start: Some(at), path_pure: true, ..self }
        } else {
            self
        }
    }

    /// A new subpath at a point.
    pub open spec fn opened(self, p: Point<S>) -> Self {
        CollectorModel {
            current: self.current.push(
                SubPathModel { start: p, segments: Seq::empty(), closed: false },
            ),
            start: Some(p),
            ..self
        }
    }

    /// One more segment, on a subpath at the pen's position or the origin where
    /// none is open.
    pub open spec fn extended(self, segment: Segment<S>) -> Self {
        let current = if self.current.len() == 0 {
            let origin = Point { x: scalar::zero::<S>(), y: scalar::zero::<S>() };
            seq![
                SubPathModel {
                    start: match self.start {
                        Some(p) => p,
                        None => origin,
                    },
                    segments: Seq::empty(),
                    closed: false,
                },
            ]
        } else {
            self.current
        };
        let last = current.last();
        CollectorModel {
            current: current.drop_last().push(
                SubPathModel { segments: last.segments.push(segment), ..last },
            ),
            ..self
        }
    }

    /// A closed rectangle, its corners taken through the transform.
    pub open spec fn boxed(self, ctm: Matrix<S>, x: S, y: S, w: S, h: S) -> Self {
        let zero = scalar::zero::<S>();
        let corner = |dx: S, dy: S| ctm.image(Point { x: x.spec_plus(dx), y: y.spec_plus(dy) });
        let start = corner(zero, zero);
        CollectorModel {
            current: self.current.push(
                SubPathModel {
                    start,
                    segments: seq![
                        Segment::Line(corner(w, zero)),
                        Segment::Line(corner(w, h)),
                        Segment::Line(corner(zero, h)),
                        Segment::Line(start),
                    ],
                    closed: true,
                },
            ),
            start: Some(start),
            ..self
        }
    }

    /// The open subpath closed.
    pub open spec fn closed(self) -> Self {
        if self.current.len() == 0 {
            self
        } else {
            CollectorModel {
                current: self.current.drop_last().push(
                    SubPathModel { closed: true, ..self.current.last() },
                ),
                ..self
            }
        }
    }

    /// No path under construction.
    pub open spec fn reset(self) -> Self {
        CollectorModel { start: None, path_start: None, path_pure: true, ..self }
    }

    /// The box that a painting operator shows: the clip for a shading, the
    /// visible part of the path otherwise.
    pub open spec fn shown(self, paint: Paint, state: GraphicsState<S>) -> Option<Rect<S>> {
        let r = if paint == Paint::Shading {
            state.clip
        } else {
            match path_bounds(self.current) {
                Some(b) => state.visible(b),
                None => None,
            }
        };
        match r {
            Some(b) if b.x0.spec_finite() && b.y0.spec_finite() => Some(b),
            _ => None,
        }
    }

    /// The path under construction recorded as painted, where anything of it
    /// shows.
    pub open spec fn painted(
        self,
        paint: Paint,
        state: GraphicsState<S>,
        span: Span,
        source: Option<ObjId>,
        depth: usize,
        shading: Option<Name>,
        pattern: Option<PatternFill>,
    ) -> Self {
        let rest = CollectorModel { current: Seq::empty(), ..self }.reset();
        match self.shown(paint, state) {
            None => rest,
            Some(bbox) => {
                let ctm = state.ctm;
                let scale = ctm.a.spec_times(ctm.d).spec_minus(
                    ctm.b.spec_times(ctm.c),
                ).spec_magnitude().spec_root();
                let path = PathModel {
                    subpaths: self.current,
                    bbox,
                    paint,
                    fill: if paint != Paint::Stroke {
                        Some(state.fill_colour)
                    } else {
                        None
                    },
                    stroke: if paint is Stroke || paint is FillStroke {
                        Some(state.stroke_colour)
                    } else {
                        None
                    },
                    line_width: state.line_width.spec_times(scale),
                    ctm,
                    clip: state.clip,
                    span,
                    path_span: Span {
                        start: match self.path_start {
                            Some(at) if paint != Paint::Shading => at,
                            _ => span.start,
                        },
                        end: span.end,
                    },
                    self_contained: self.path_pure,
                    pattern,
                    clip_exact: state.clip_exact,
                    source,
                    depth,
                    shading,
                };
                CollectorModel { paths: self.paths.push(path), ..rest }
            },
        }
    }

    /// The collector after one operator.
    pub open spec fn visited<'a>(
        self,
        op: Op<S>,
        state: GraphicsState<S>,
        ctx: WalkContext<'a, S>,
    ) -> Self {
        let ctm = state.ctm;
        let n = |i: int| op.operand(i);
        let p = |i: int| ctm.image(Point { x: op.operand(i), y: op.operand(i + 1) });
        let c = if self.path_start is Some && !path_op(op.kind) {
            CollectorModel { path_pure: false, ..self }
        } else {
            self
        };
        let b = c.began(op.span.start);
        match op.kind {
            OpKind::MoveTo => b.opened(p(0)),
            OpKind::LineTo => b.extended(Segment::Line(p(0))),
            OpKind::CurveTo => b.extended(Segment::Curve { c1: p(0), c2: p(2), to: p(4) }),
            OpKind::CurveToInitialReplicated => b.extended(
                Segment::Curve { c1: p(0), c2: p(0), to: p(2) },
            ),
            OpKind::CurveToFinalReplicated => b.extended(
                Segment::Curve { c1: p(0), c2: p(2), to: p(2) },
            ),
            OpKind::Rectangle => b.boxed(ctm, n(0), n(1), n(2), n(3)),
            OpKind::ClosePath => c.closed(),
            OpKind::Stroke | OpKind::Fill | OpKind::FillObsolete | OpKind::FillEvenOdd
            | OpKind::FillStroke | OpKind::FillStrokeEvenOdd | OpKind::CloseStroke
            | OpKind::CloseFillStroke | OpKind::CloseFillStrokeEvenOdd => {
                let closing = op.kind == OpKind::CloseStroke || op.kind == OpKind::CloseFillStroke
                    || op.kind == OpKind::CloseFillStrokeEvenOdd;
                let paint = paint_of(op.kind);
                (if closing {
                    c.closed()
                } else {
                    c
                }).painted(
                    paint,
                    state,
                    op.span,
                    ctx.source,
                    ctx.depth,
                    None,
                    spec_pattern_of(state.fill_colour, ctx, paint != Paint::Stroke),
                )
            },
            OpKind::EndPath => CollectorModel { current: Seq::empty(), ..c }.reset(),
            OpKind::Shading => c.painted(
                Paint::Shading,
                state,
                op.span,
                ctx.source,
                ctx.depth,
                if op.operands@.len() > 0 {
                    op.operands@[0].name()
                } else {
                    None
                },
                None,
            ),
            OpKind::InlineImage => {
                let (pixels, mask) = match op.inline_image {
                    Some(d) => (
                        pixel_size(either(d, "W"@, "Width"@), either(d, "H"@, "Height"@)),
                        truth(either(d, "IM"@, "ImageMask"@)),
                    ),
                    None => (None, false),
                };
                CollectorModel {
                    images: c.images.push(
                        placed_image(op, state, ctx, None, None, pixels, mask, true),
                    ),
                    ..c
                }
            },
            OpKind::InvokeXObject => match drawn_image(op, ctx) {
                Some((name, d)) => CollectorModel {
                    images: c.images.push(
                        placed_image(
                            op,
                            state,
                            ctx,
                            Some(name),
                            ctx.resource_id("XObject"@, name),
                            pixel_size(d.value("Width"@), d.value("Height"@)),
                            truth(d.value("ImageMask"@)),
                            false,
                        ),
                    ),
                    ..c
                },
                None => c,
            },
            _ => c,
        }
    }
}

/// The image that an operator draws by name, with its dictionary.
pub open spec fn drawn_image<'a, S>(op: Op<S>, ctx: WalkContext<'a, S>) -> Option<
    (Name, Dictionary<S>),
> {
    if op.operands@.len() == 0 {
        None
    } else {
        match op.operands@[0] {
            Object::Name(name) => match ctx.resource("XObject"@, name) {
                Some(Object::Stream(d)) if objects::name_text(d.value("Subtype"@)) == Some(
                    "Image"@,
                ) => Some((name, d)),
                _ => None,
            },
            _ => None,
        }
    }
}

fn number<S: Scalar>(op: &Op<S>, i: usize) -> (r: S)
    ensures
        r == op.operand(i as int),
{
    if i < op.operands.len() {
        match op.operands[i].as_number() {
            Some(v) => v,
            None => scalar::zero_of::<S>(),
        }
    } else {
        scalar::zero_of::<S>()
    }
}

fn operand_point<S: Scalar>(op: &Op<S>, ctm: &Matrix<S>, i: usize) -> (r: Point<S>)
    requires
        i < 10,
    ensures
        r == ctm.image(Point { x: op.operand(i as int), y: op.operand(i + 1) }),
{
    ctm.apply(Point { x: number(op, i), y: number(op, i + 1) })
}

impl<S: Scalar> Collector<S> {
    /// A collector that has seen nothing.
    pub fn new() -> (r: Self)
        ensures
            r@ == CollectorModel::<S>::none(),
    {
        let r = Collector {
            images: Vec::new(),
            paths: Vec::new(),
            current: Vec::new(),
            start: None,
            path_start: None,
            path_pure: true,
        };
        assert(r@ =~= CollectorModel::<S>::none());
        r
    }

    fn move_to(&mut self, p: Point<S>)
        ensures
            final(self)@ == old(self)@.opened(p),
    {
        self.current.push(SubPath { start: p, segments: Vec::new(), closed: false });
        self.start = Some(p);
        assert(self@ =~~= old(self)@.opened(p));
    }

    /// Append a segment, opening a subpath if the producer did not.
    ///
    /// A path may begin with a line when the pen is already somewhere, so a
    /// subpath is started at the pen's last known position, or at the origin if
    /// there is none.
    fn segment(&mut self, segment: Segment<S>)
        ensures
            final(self)@ == old(self)@.extended(segment),
    {
        if self.current.len() == 0 {
            let start = match self.start {
                Some(p) => p,
                None => Point { x: scalar::zero_of::<S>(), y: scalar::zero_of::<S>() },
            };
            self.current.push(SubPath { start, segments: Vec::new(), closed: false });
        }
        let last: usize = self.current.len() - 1;
        self.current[last].segments.push(segment);
        assert(self@ =~~= old(self)@.extended(segment));
    }

    fn rectangle(&mut self, ctm: &Matrix<S>, x: S, y: S, w: S, h: S)
        ensures
            final(self)@ == old(self)@.boxed(*ctm, x, y, w, h),
    {
        let zero = scalar::zero_of::<S>();
        let start = ctm.apply(Point { x: x.plus(zero), y: y.plus(zero) });
        let b = ctm.apply(Point { x: x.plus(w), y: y.plus(zero) });
        let c = ctm.apply(Point { x: x.plus(w), y: y.plus(h) });
        let d = ctm.apply(Point { x: x.plus(zero), y: y.plus(h) });
        let mut segments: Vec<Segment<S>> = Vec::new();
        segments.push(Segment::Line(b));
        segments.push(Segment::Line(c));
        segments.push(Segment::Line(d));
        segments.push(Segment::Line(start));
        self.current.push(SubPath { start, segments, closed: true });
        self.start = Some(start);
        assert(self@ =~~= old(self)@.boxed(*ctm, x, y, w, h));
    }

    fn close(&mut self)
        ensures
            final(self)@ == old(self)@.closed(),
    {
        if self.current.len() > 0 {
            let last: usize = self.current.len() - 1;
            self.current[last].closed = true;
        }
        assert(self@ =~~= old(self)@.closed());
    }

    /// Emit the constructed path as painted, and reset.
    fn paint(
        &mut self,
        paint: Paint,
        state: &GraphicsState<S>,
        span: Span,
        source: Option<ObjId>,
        depth: usize,
        shading: Option<Name>,
        pattern: Option<PatternFill>,
    )
        ensures
            final(self)@ == old(self)@.painted(
                paint,
                *state,
                span,
                source,
                depth,
                shading,
                pattern,
            ),
    {
        let mut subpaths: Vec<SubPath<S>> = Vec::new();
        std::mem::swap(&mut subpaths, &mut self.current);
        let bbox = if paint == Paint::Shading {
            // A shading paints the clip, not a path.
            state.clip
        } else {
            match bounds_of(&subpaths) {
                Some(bounds) => state.clipped(bounds),
                None => None,
            }
        };
        match bbox {
            Some(bbox) => {
                if bbox.x0.finite() && bbox.y0.finite() {
                    // A stroke's width is in user space; the geometric mean of
                    // the two axis scales carries it over.
                    let ctm = state.ctm;
                    let scale = ctm.a.times(ctm.d).minus(ctm.b.times(ctm.c)).magnitude().root();
                    let path_span = Span {
                        start: match self.path_start {
                            Some(at) => if paint != Paint::Shading {
                                at
                            } else {
                                span.start
                            },
                            None => span.start,
                        },
                        end: span.end,
                    };
                    self.paths.push(
                        VectorPath {
                            subpaths,
                            bbox,
                            paint,
                            fill: if paint.fills() {
                                Some(state.fill_colour.copy())
                            } else {
                                None
                            },
                            stroke: if paint.strokes() {
                                Some(state.stroke_colour.copy())
                            } else {
                                None
                            },
                            line_width: state.line_width.times(scale),
                            ctm,
                            clip: state.clip,
                            span,
                            path_span,
                            self_contained: self.path_pure,
                            pattern,
                            clip_exact: state.clip_exact,
                            source,
                            depth,
                            shading,
                        },
                    );
                }
            },
            None => {},
        }
        self.reset_path();
        assert(self@ =~~= old(self)@.painted(
            paint,
            *state,
            span,
            source,
            depth,
            shading,
            pattern,
        ));
    }

    fn reset_path(&mut self)
        ensures
            final(self)@ == old(self)@.reset(),
    {
        self.start = None;
        self.path_start = None;
        self.path_pure = true;
        assert(self@ =~= old(self)@.reset());
    }

    /// Note the byte offset a path began at.
    fn began(&mut self, at: usize)
        ensures
            final(self)@ == old(self)@.began(at),
    {
        if self.path_start.is_none() {
            self.path_start = Some(at);
            self.path_pure = true;
        }
        assert(self@ =~= old(self)@.began(at));
    }

    /// Take note of one operator, with the graphics state and resources in
    /// force.
    pub fn visit<'a>(&mut self, op: &Op<S>, state: &GraphicsState<S>, ctx: &WalkContext<'a, S>)
        ensures
            final(self)@ == old(self)@.visited(*op, *state, *ctx),
    {
        let ctm = state.ctm;
        // Anything that is not path construction or painting, arriving while a
        // path is being built, means the path's operator range is not just the
        // path. A clip is the case that matters: an edit that scopes the range
        // would undo it.
        if self.path_start.is_some() && !is_path_op(op.kind) {
            self.path_pure = false;
        }
        match op.kind {
            OpKind::MoveTo => {
                self.began(op.span.start);
                self.move_to(operand_point(op, &ctm, 0));
            },
            OpKind::LineTo => {
                self.began(op.span.start);
                self.segment(Segment::Line(operand_point(op, &ctm, 0)));
            },
            OpKind::CurveTo => {
                self.began(op.span.start);
                self.segment(
                    Segment::Curve {
                        c1: operand_point(op, &ctm, 0),
                        c2: operand_point(op, &ctm, 2),
                        to: operand_point(op, &ctm, 4),
                    },
                );
            },
            // One control point is not written down in the replicated forms.
            // The nearest point stands in, and the hull still contains the
            // curve.
            OpKind::CurveToInitialReplicated => {
                self.began(op.span.start);
                let c = operand_point(op, &ctm, 0);
                let to = operand_point(op, &ctm, 2);
                self.segment(Segment::Curve { c1: c, c2: c, to });
            },
            OpKind::CurveToFinalReplicated => {
                self.began(op.span.start);
                let c = operand_point(op, &ctm, 0);
                let to = operand_point(op, &ctm, 2);
                self.segment(Segment::Curve { c1: c, c2: to, to });
            },
            OpKind::Rectangle => {
                self.began(op.span.start);
                self.rectangle(&ctm, number(op, 0), number(op, 1), number(op, 2), number(op, 3));
            },
            OpKind::ClosePath => {
                self.close();
            },
            OpKind::Stroke | OpKind::CloseStroke | OpKind::Fill | OpKind::FillObsolete
            | OpKind::FillEvenOdd | OpKind::FillStroke | OpKind::FillStrokeEvenOdd
            | OpKind::CloseFillStroke | OpKind::CloseFillStrokeEvenOdd => {
                if op.kind == OpKind::CloseStroke || op.kind == OpKind::CloseFillStroke || op.kind
                    == OpKind::CloseFillStrokeEvenOdd {
                    self.close();
                }
                let paint = match op.kind {
                    OpKind::Stroke | OpKind::CloseStroke => Paint::Stroke,
                    OpKind::Fill | OpKind::FillObsolete => Paint::Fill { even_odd: false },
                    OpKind::FillEvenOdd => Paint::Fill { even_odd: true },
                    OpKind::FillStroke | OpKind::CloseFillStroke => Paint::FillStroke {
                        even_odd: false,
                    },
                    _ => Paint::FillStroke { even_odd: true },
                };
                let pattern = pattern_of(&state.fill_colour, ctx, paint.fills());
                self.paint(paint, state, op.span, ctx.source, ctx.depth, None, pattern);
            },
            OpKind::EndPath => {
                self.current = Vec::new();
                self.reset_path();
            },
            OpKind::Shading => {
                let name = if op.operands.len() > 0 {
                    match op.operands[0].as_name() {
                        Some(n) => Some(n.copy()),
                        None => None,
                    }
                } else {
                    None
                };
                self.paint(Paint::Shading, state, op.span, ctx.source, ctx.depth, name, None);
            },
            OpKind::InlineImage => {
                let (pixels, mask) = match &op.inline_image {
                    Some(d) => {
                        // Inline images use abbreviated keys; the long forms
                        // are permitted.
                        let w = read_dimension(get_either(d, "W", "Width"));
                        let h = read_dimension(get_either(d, "H", "Height"));
                        let pixels = match (w, h) {
                            (Some(w), Some(h)) => Some((w, h)),
                            _ => None,
                        };
                        (pixels, read_truth(get_either(d, "IM", "ImageMask")))
                    },
                    None => (None, false),
                };
                self.images.push(place_image(op, state, ctx, None, None, pixels, mask, true));
            },
            OpKind::InvokeXObject => {
                if op.operands.len() > 0 {
                    if let Some(name) = op.operands[0].as_name() {
                        if let Some(Object::Stream(d)) = ctx.lookup("XObject", name) {
                            let subtype = objects::name_of(d.get("Subtype"));
                            // Anything but an image is a form, whose own
                            // content arrives in due course.
                            let image = match subtype {
                                Some(s) => text::same(s, "Image"),
                                None => false,
                            };
                            if image {
                                let pixels = match (
                                    read_dimension(d.get("Width")),
                                    read_dimension(d.get("Height")),
                                ) {
                                    (Some(w), Some(h)) => Some((w, h)),
                                    _ => None,
                                };
                                let mask = read_truth(d.get("ImageMask"));
                                let id = ctx.lookup_id("XObject", name);
                                self.images.push(
                                    place_image(
                                        op,
                                        state,
                                        ctx,
                                        Some(name.copy()),
                                        id,
                                        pixels,
                                        mask,
                                        false,
                                    ),
                                );
                            }
                        }
                    }
                }
            },
            _ => {},
        }
        assert(self@ =~~= old(self)@.visited(*op, *state, *ctx));
    }
}

/// Whether two boxes come within a distance of each other.
pub open spec fn boxes_near<S: Scalar>(a: Rect<S>, b: Rect<S>, gap: S) -> bool {
    &&& a.x0.spec_minus(gap).spec_le(b.x1)
    &&& b.x0.spec_minus(gap).spec_le(a.x1)
    &&& a.y0.spec_minus(gap).spec_le(b.y1)
    &&& b.y0.spec_minus(gap).spec_le(a.y1)
}

fn near<S: Scalar>(a: &Rect<S>, b: &Rect<S>, gap: S) -> (r: bool)
    ensures
        r == boxes_near(*a, *b, gap),
{
    a.x0.minus(gap).le(b.x1) && b.x0.minus(gap).le(a.x1) && a.y0.minus(gap).le(b.y1)
        && b.y0.minus(gap).le(a.y1)
}

/// Whether two paths of a list come within a distance of each other.
pub open spec fn paths_near<S: Scalar>(paths: Seq<PathModel<S>>, gap: S) -> spec_fn(
    int,
    int,
) -> bool {
    |i: int, j: int| boxes_near(paths[i].bbox, paths[j].bbox, gap)
}

/// A drawing with one more path.
pub open spec fn with_path<S: Scalar>(block: Option<BlockModel<S>>, path: PathModel<S>) -> BlockModel<
    S,
> {
    match block {
        Some(b) => BlockModel {
            bbox: b.bbox.spec_union(path.bbox),
            paths: b.paths.push(path),
            count: b.count + 1,
        },
        None => BlockModel { bbox: path.bbox, paths: seq![path], count: 1 },
    }
}

/// The drawing made of those of the first `n` paths that carry a label.
pub open spec fn drawing<S: Scalar>(
    paths: Seq<PathModel<S>>,
    labels: Seq<usize>,
    label: int,
    n: int,
) -> Option<BlockModel<S>>
    decreases n,
{
    if n <= 0 {
        None
    } else if labels[n - 1] == label {
        Some(with_path(drawing(paths, labels, label, n - 1), paths[n - 1]))
    } else {
        drawing(paths, labels, label, n - 1)
    }
}

/// The drawings under the labels below a bound, by ascending label.
pub open spec fn drawings<S: Scalar>(
    paths: Seq<PathModel<S>>,
    labels: Seq<usize>,
    bound: int,
) -> Seq<BlockModel<S>>
    decreases bound,
{
    if bound <= 0 {
        Seq::empty()
    } else {
        match drawing(paths, labels, bound - 1, paths.len() as int) {
            Some(b) => drawings(paths, labels, bound - 1).push(b),
            None => drawings(paths, labels, bound - 1),
        }
    }
}

/// The box around the first `n` paths.
pub open spec fn paths_box<S: Scalar>(paths: Seq<PathModel<S>>, n: int) -> Rect<S>
    decreases n,
{
    if n <= 0 {
        paths[0].bbox
    } else {
        paths_box(paths, n - 1).spec_union(paths[n - 1].bbox)
    }
}

/// Painted paths grouped into drawings: nearby paths together, or everything
/// as one region where there are too many.
pub open spec fn clustered<S: Scalar>(paths: Seq<PathModel<S>>, gap: S) -> Seq<BlockModel<S>> {
    if paths.len() == 0 {
        Seq::empty()
    } else if paths.len() > MAX_PATHS {
        seq![
            BlockModel {
                bbox: paths_box(paths, paths.len() as int),
                paths: Seq::empty(),
                count: paths.len(),
            },
        ]
    } else {
        let labels = grouping::grouped(paths.len(), paths_near(paths, gap));
        drawings(paths, labels, paths.len() as int)
    }
}

/// What an optional region says.
pub open spec fn slot_model<S>(b: Option<VectorBlock<S>>) -> Option<BlockModel<S>> {
    match b {
        Some(b) => Some(b@),
        None => None,
    }
}

/// Group nearby paths into drawings.
pub fn cluster<S: Scalar>(paths: Vec<VectorPath<S>>, gap: S) -> (r: Vec<VectorBlock<S>>)
    ensures
        block_models(r@) == clustered(path_models(paths@), gap),
{
    let ghost all = path_models(paths@);
    let n: usize = paths.len();
    if n == 0 {
        let r: Vec<VectorBlock<S>> = Vec::new();
        assert(block_models(r@) =~= clustered(all, gap));
        return r;
    }
    if n > MAX_PATHS {
        let mut b = paths[0].bbox;
        let mut i: usize = 0;
        while i < n
            invariant
                i <= n,
                n == paths@.len(),
                n > 0,
                all == path_models(paths@),
                b == paths_box(all, i as int),
            decreases n - i,
        {
            b = b.union(&paths[i].bbox);
            i += 1;
        }
        let mut r: Vec<VectorBlock<S>> = Vec::new();
        r.push(VectorBlock { bbox: b, paths: Vec::new(), count: n });
        assert(r@[0]@.paths =~= Seq::<PathModel<S>>::empty());
        assert(block_models(r@) =~= clustered(all, gap));
        return r;
    }
    let ghost close = paths_near(all, gap);
    let is_close = |i: usize, j: usize| -> (r: bool)
        requires
            i < paths@.len(),
            j < paths@.len(),
        ensures
            r == boxes_near(paths@[i as int].bbox, paths@[j as int].bbox, gap),
        { near(&paths[i].bbox, &paths[j].bbox, gap) };
    let labels = grouping::group(n, is_close, Ghost(close));

    let mut slots: Vec<Option<VectorBlock<S>>> = Vec::new();
    let mut i: usize = 0;
    while i < n
        invariant
            i <= n,
            slots@.len() == i,
            forall|k: int| 0 <= k < i ==> #[trigger] slots@[k] is None,
        decreases n - i,
    {
        slots.push(None);
        i += 1;
    }
    let ghost list = paths@;
    let mut at: usize = 0;
    for path in it: paths
        invariant
            it.seq() == list,
            at == it.index(),
            n == list.len(),
            all == path_models(list),
            slots@.len() == n,
            grouping::labelled(labels@, n as nat),
            forall|k: int|
                0 <= k < n ==> slot_model(#[trigger] slots@[k]) == drawing(
                    all,
                    labels@,
                    k,
                    at as int,
                ),
    {
        let label: usize = labels[at];
        assert(path@ == all[at as int]);
        let mut slot: Option<VectorBlock<S>> = None;
        std::mem::swap(&mut slot, &mut slots[label]);
        let ghost before = slot_model(slot);
        let ghost model = path@;
        let block = match slot {
            Some(mut b) => {
                b.bbox = b.bbox.union(&path.bbox);
                proof {
                    lemma_drawing_count(all, labels@, label as int, at as int);
                }
                b.count = b.count + 1;
                b.paths.push(path);
                b
            },
            None => {
                let bbox = path.bbox;
                let mut one: Vec<VectorPath<S>> = Vec::new();
                one.push(path);
                VectorBlock { bbox, paths: one, count: 1 }
            },
        };
        assert(block@ =~~= with_path(before, model));
        slots.set(label, Some(block));
        at = at + 1;
    }
    let mut out: Vec<VectorBlock<S>> = Vec::new();
    let mut at: usize = 0;
    let ghost full = slots@;
    assert(block_models(out@) =~= drawings(all, labels@, 0));
    for slot in it: slots
        invariant
            it.seq() == full,
            at == it.index(),
            n == full.len(),
            n == all.len(),
            block_models(out@) == drawings(all, labels@, at as int),
            forall|k: int|
                0 <= k < n ==> slot_model(#[trigger] full[k]) == drawing(
                    all,
                    labels@,
                    k,
                    n as int,
                ),
    {
        assert(slot == full[at as int]);
        let ghost before = block_models(out@);
        if let Some(b) = slot {
            let ghost model = b@;
            out.push(b);
            assert(block_models(out@) =~= before.push(model));
        }
        at = at + 1;
    }
    out
}

proof fn lemma_drawing_count<S: Scalar>(
    paths: Seq<PathModel<S>>,
    labels: Seq<usize>,
    label: int,
    n: int,
)
    requires
        0 <= n,
    ensures
        drawing(paths, labels, label, n) matches Some(b) ==> b.count <= n && b.paths.len()
            == b.count,
    decreases n,
{
    if n > 0 {
        lemma_drawing_count(paths, labels, label, n - 1);
    }
}

/// The collector after the first `n` steps.
pub open spec fn collected<'a, S: Scalar>(steps: Seq<Step<'a, S>>, n: int) -> CollectorModel<S>
    decreases n,
{
    if n <= 0 {
        CollectorModel::none()
    } else {
        collected(steps, n - 1).visited(steps[n - 1].op, steps[n - 1].state, steps[n - 1].ctx)
    }
}

/// The distance within which paths count as one drawing: a fiftieth of the
/// page's smaller dimension.
pub open spec fn drawing_gap<S: Scalar>(media_box: Rect<S>) -> S {
    media_box.spec_width().spec_magnitude().spec_least(
        media_box.spec_height().spec_magnitude(),
    ).spec_greatest(scalar::one::<S>()).spec_times(S::spec_ratio(2, 100))
}

/// Collect images and vector artwork from the operators of a page.
pub fn collect<'a, S: Scalar>(steps: &Vec<Step<'a, S>>, media_box: &Rect<S>) -> (r: Graphics<S>)
    ensures
        r.images@ == collected(steps@, steps@.len() as int).images,
        block_models(r.vectors@) == clustered(
            collected(steps@, steps@.len() as int).paths,
            drawing_gap(*media_box),
        ),
        r.geometry_truncated == (collected(steps@, steps@.len() as int).paths.len() > MAX_PATHS),
{
    let mut visitor: Collector<S> = Collector::new();
    let mut i: usize = 0;
    while i < steps.len()
        invariant
            i <= steps@.len(),
            visitor@ == collected(steps@, i as int),
        decreases steps@.len() - i,
    {
        visitor.visit(&steps[i].op, &steps[i].state, &steps[i].ctx);
        i += 1;
    }
    let gap = media_box.width().magnitude().least(media_box.height().magnitude()).greatest(
        scalar::one_of::<S>(),
    ).times(S::ratio(2, 100));
    assert(visitor.paths@.len() == visitor@.paths.len());
    let geometry_truncated = visitor.paths.len() > MAX_PATHS;
    Graphics { images: visitor.images, vectors: cluster(visitor.paths, gap), geometry_truncated }
}

/// The paths of a drawing, as many times as each occurs.
pub open spec fn drawing_paths<S: Scalar>(b: Option<BlockModel<S>>) -> vstd::multiset::Multiset<
    PathModel<S>,
> {
    match b {
        Some(b) => b.paths.to_multiset(),
        None => vstd::multiset::Multiset::empty(),
    }
}

/// All paths of the drawings under the labels below a bound, when only the
/// first `n` paths have been entered.
pub open spec fn entered<S: Scalar>(
    paths: Seq<PathModel<S>>,
    labels: Seq<usize>,
    bound: int,
    n: int,
) -> vstd::multiset::Multiset<PathModel<S>>
    decreases bound,
{
    if bound <= 0 {
        vstd::multiset::Multiset::empty()
    } else {
        entered(paths, labels, bound - 1, n).add(
            drawing_paths(drawing(paths, labels, bound - 1, n)),
        )
    }
}

/// All paths of a list of drawings.
pub open spec fn all_paths<S: Scalar>(blocks: Seq<BlockModel<S>>) -> vstd::multiset::Multiset<
    PathModel<S>,
>
    decreases blocks.len(),
{
    if blocks.len() == 0 {
        vstd::multiset::Multiset::empty()
    } else {
        all_paths(blocks.drop_last()).add(blocks.last().paths.to_multiset())
    }
}

proof fn lemma_entered_step<S: Scalar>(
    paths: Seq<PathModel<S>>,
    labels: Seq<usize>,
    bound: int,
    n: int,
)
    requires
        0 < n <= paths.len(),
        0 <= bound,
    ensures
        entered(paths, labels, bound, n) == if labels[n - 1] < bound {
            entered(paths, labels, bound, n - 1).insert(paths[n - 1])
        } else {
            entered(paths, labels, bound, n - 1)
        },
    decreases bound,
{
    broadcast use vstd::seq_lib::group_to_multiset_ensures;

    if bound > 0 {
        lemma_entered_step(paths, labels, bound - 1, n);
        let before = drawing(paths, labels, bound - 1, n - 1);
        let after = drawing(paths, labels, bound - 1, n);
        let path = paths[n - 1];
        if labels[n - 1] == bound - 1 {
            assert(drawing_paths(after) =~= drawing_paths(before).insert(path)) by {
                match before {
                    Some(b) => {},
                    None => {
                        assert(seq![path] =~= Seq::empty().push(path));
                    },
                }
            }
            assert(entered(paths, labels, bound, n) =~= entered(paths, labels, bound, n - 1).insert(
                path,
            ));
        } else if labels[n - 1] < bound - 1 {
            assert(entered(paths, labels, bound, n) =~= entered(paths, labels, bound, n - 1).insert(
                path,
            ));
        }
    }
}

proof fn lemma_entered_all<S: Scalar>(paths: Seq<PathModel<S>>, labels: Seq<usize>, n: int)
    requires
        0 <= n <= paths.len(),
        grouping::labelled(labels, paths.len()),
    ensures
        entered(paths, labels, paths.len() as int, n) == paths.take(n).to_multiset(),
    decreases n,
{
    broadcast use vstd::seq_lib::group_to_multiset_ensures;

    if n == 0 {
        lemma_entered_none(paths, labels, paths.len() as int);
        assert(paths.take(0) =~= Seq::<PathModel<S>>::empty());
        assert(paths.take(0).to_multiset() =~= vstd::multiset::Multiset::<PathModel<S>>::empty());
    } else {
        lemma_entered_all(paths, labels, n - 1);
        lemma_entered_step(paths, labels, paths.len() as int, n);
        assert(labels[n - 1] < paths.len());
        assert(paths.take(n) =~= paths.take(n - 1).push(paths[n - 1]));
    }
}

proof fn lemma_entered_none<S: Scalar>(paths: Seq<PathModel<S>>, labels: Seq<usize>, bound: int)
    ensures
        entered(paths, labels, bound, 0) == vstd::multiset::Multiset::<PathModel<S>>::empty(),
    decreases bound,
{
    if bound > 0 {
        lemma_entered_none(paths, labels, bound - 1);
        assert(entered(paths, labels, bound, 0)
            =~= vstd::multiset::Multiset::<PathModel<S>>::empty());
    }
}

proof fn lemma_drawings_hold_entered<S: Scalar>(
    paths: Seq<PathModel<S>>,
    labels: Seq<usize>,
    bound: int,
)
    ensures
        all_paths(drawings(paths, labels, bound)) == entered(
            paths,
            labels,
            bound,
            paths.len() as int,
        ),
    decreases bound,
{
    if bound > 0 {
        lemma_drawings_hold_entered(paths, labels, bound - 1);
        let front = drawings(paths, labels, bound - 1);
        match drawing(paths, labels, bound - 1, paths.len() as int) {
            Some(b) => {
                assert(front.push(b).drop_last() =~= front);
            },
            None => {
                assert(entered(paths, labels, bound, paths.len() as int) =~= entered(
                    paths,
                    labels,
                    bound - 1,
                    paths.len() as int,
                ));
            },
        }
    }
}

proof fn lemma_grouped_labelled(n: nat, close: spec_fn(int, int) -> bool, upto: int)
    requires
        n <= usize::MAX,
        upto <= n,
    ensures
        grouping::labelled(grouping::joined_rows(n, close, upto), n),
    decreases upto,
{
    if upto > 0 {
        lemma_grouped_labelled(n, close, upto - 1);
        lemma_row_labelled(grouping::joined_rows(n, close, upto - 1), n, close, upto - 1, n as int);
    }
}

proof fn lemma_row_labelled(
    labels: Seq<usize>,
    n: nat,
    close: spec_fn(int, int) -> bool,
    i: int,
    upto: int,
)
    requires
        grouping::labelled(labels, n),
        0 <= i < n,
        upto <= n,
    ensures
        grouping::labelled(grouping::joined_row(labels, close, i, upto), n),
    decreases upto - i,
{
    if upto > i + 1 {
        lemma_row_labelled(labels, n, close, i, upto - 1);
    }
}

/// Clustering loses no path and repeats none: the drawings hold exactly the
/// painted paths, unless there are too many to keep.
pub proof fn law_drawings_partition_the_paths<S: Scalar>(paths: Seq<PathModel<S>>, gap: S)
    requires
        paths.len() <= MAX_PATHS,
    ensures
        all_paths(clustered(paths, gap)) == paths.to_multiset(),
{
    broadcast use vstd::seq_lib::group_to_multiset_ensures;

    if paths.len() > 0 {
        let labels = grouping::grouped(paths.len(), paths_near(paths, gap));
        lemma_grouped_labelled(paths.len(), paths_near(paths, gap), paths.len() as int);
        lemma_drawings_hold_entered(paths, labels, paths.len() as int);
        lemma_entered_all(paths, labels, paths.len() as int);
        assert(paths.take(paths.len() as int) =~= paths);
    } else {
        assert(paths =~= Seq::empty());
        assert(paths.to_multiset() =~= vstd::multiset::Multiset::<PathModel<S>>::empty());
    }
}

/// Paths near each other belong to one drawing.
pub proof fn law_nearby_paths_share_a_drawing<S: Scalar>(
    paths: Seq<PathModel<S>>,
    gap: S,
    i: int,
    j: int,
)
    requires
        0 <= i < j < paths.len(),
        boxes_near(paths[i].bbox, paths[j].bbox, gap),
    ensures
        ({
            let labels = grouping::grouped(paths.len(), paths_near(paths, gap));
            labels[i] == labels[j]
        }),
{
    grouping::lemma_close_items_share_a_group(paths.len(), paths_near(paths, gap), i, j);
}

/// Paths share a drawing only where a chain of nearby paths joins them.
pub proof fn law_a_drawing_is_connected<S: Scalar>(
    paths: Seq<PathModel<S>>,
    gap: S,
    i: int,
    j: int,
)
    requires
        0 <= i < paths.len() <= MAX_PATHS,
        0 <= j < paths.len(),
        ({
            let labels = grouping::grouped(paths.len(), paths_near(paths, gap));
            labels[i] == labels[j]
        }),
    ensures
        exists|chain: Seq<int>| #[trigger]
            grouping::chained(paths_near(paths, gap), chain, i, j),
{
    grouping::lemma_a_group_is_linked(paths.len(), paths_near(paths, gap), i, j);
}

/// The box around points holds each of them and lies in every rectangle that
/// does.
pub proof fn law_a_hull_holds_its_points<S: Scalar>(points: Seq<Point<S>>, outer: Rect<S>)
    requires
        scalar::orderly::<S>(),
        points.len() > 0,
    ensures
        hull(points) matches Some(r) && {
            &&& forall|i: int|
                0 <= i < points.len() ==> crate::geometry::encloses(
                    r,
                    point_rect(#[trigger] points[i]),
                )
            &&& (forall|i: int|
                0 <= i < points.len() ==> crate::geometry::encloses(
                    outer,
                    point_rect(#[trigger] points[i]),
                )) ==> crate::geometry::encloses(outer, r)
        },
    decreases points.len(),
{
    let front = points.drop_last();
    let last = point_rect(points.last());
    scalar::lemma_order(last.x0, last.x0, last.x0);
    scalar::lemma_order(last.y0, last.y0, last.y0);
    if front.len() > 0 {
        law_a_hull_holds_its_points(front, outer);
        let before = hull(front)->0;
        let r = before.spec_union(last);
        crate::geometry::law_a_union_is_the_smallest_around_both(before, last, outer);
        assert forall|i: int| 0 <= i < points.len() implies crate::geometry::encloses(
            r,
            point_rect(#[trigger] points[i]),
        ) by {
            if i < front.len() {
                let p = point_rect(points[i]);
                assert(front[i] == points[i]);
                scalar::lemma_order(r.x0, before.x0, p.x0);
                scalar::lemma_order(r.y0, before.y0, p.y0);
                scalar::lemma_order(p.x1, before.x1, r.x1);
                scalar::lemma_order(p.y1, before.y1, r.y1);
            }
        }
        if forall|i: int|
            0 <= i < points.len() ==> crate::geometry::encloses(
                outer,
                point_rect(#[trigger] points[i]),
            ) {
            assert forall|i: int| 0 <= i < front.len() implies crate::geometry::encloses(
                outer,
                point_rect(#[trigger] front[i]),
            ) by {
                assert(front[i] == points[i]);
            }
        }
    } else {
        assert(hull(front) is None);
    }
}

/// The points that bound a path are those that its subpaths start at and all
/// that their segments name. A path without segments has no bounds.
pub proof fn law_a_path_is_bounded_by_its_points<S: Scalar>(
    s: Seq<SubPathModel<S>>,
    i: int,
    j: int,
)
    requires
        0 <= i < s.len(),
    ensures
        ({
            let all = bounding_points(s, s.len() as int);
            &&& all.contains(s[i].start)
            &&& 0 <= j < s[i].segments.len() ==> match s[i].segments[j] {
                Segment::Line(p) => all.contains(p),
                Segment::Curve { c1, c2, to } => all.contains(c1) && all.contains(c2)
                    && all.contains(to),
            }
            &&& 0 <= j < s[i].segments.len() ==> path_bounds(s) == hull(all)
        }),
{
    lemma_bounding(s, s.len() as int, i, j);
    if 0 <= j < s[i].segments.len() {
        assert(s[i].segments.len() > 0);
    }
}

proof fn lemma_bounding<S>(s: Seq<SubPathModel<S>>, n: int, i: int, j: int)
    requires
        0 <= i < n <= s.len(),
    ensures
        ({
            let all = bounding_points(s, n);
            &&& all.contains(s[i].start)
            &&& 0 <= j < s[i].segments.len() ==> match s[i].segments[j] {
                Segment::Line(p) => all.contains(p),
                Segment::Curve { c1, c2, to } => all.contains(c1) && all.contains(c2)
                    && all.contains(to),
            }
        }),
    decreases n,
{
    let before = bounding_points(s, n - 1);
    let all = bounding_points(s, n);
    let own = segments_points(s[n - 1].segments, s[n - 1].segments.len() as int);
    if i < n - 1 {
        lemma_bounding(s, n - 1, i, j);
        assert forall|p: Point<S>| before.contains(p) implies #[trigger] all.contains(p) by {
            let q = choose|q: int| 0 <= q < before.len() && before[q] == p;
            assert(all[q] == p);
        }
    } else {
        assert(all[before.len() as int] == s[i].start);
        assert forall|p: Point<S>| own.contains(p) implies #[trigger] all.contains(p) by {
            let q = choose|q: int| 0 <= q < own.len() && own[q] == p;
            assert(all[before.len() + 1 + q] == p);
        }
        if 0 <= j < s[i].segments.len() {
            lemma_segments_points(s[i].segments, s[i].segments.len() as int, j);
        }
    }
}

proof fn lemma_segments_points<S>(s: Seq<Segment<S>>, n: int, j: int)
    requires
        0 <= j < n <= s.len(),
    ensures
        match s[j] {
            Segment::Line(p) => segments_points(s, n).contains(p),
            Segment::Curve { c1, c2, to } => segments_points(s, n).contains(c1) && segments_points(
                s,
                n,
            ).contains(c2) && segments_points(s, n).contains(to),
        },
    decreases n,
{
    let before = segments_points(s, n - 1);
    let all = segments_points(s, n);
    if j < n - 1 {
        lemma_segments_points(s, n - 1, j);
        assert forall|p: Point<S>| before.contains(p) implies #[trigger] all.contains(p) by {
            let q = choose|q: int| 0 <= q < before.len() && before[q] == p;
            assert(all[q] == p);
        }
    } else {
        let at = before.len() as int;
        match s[j] {
            Segment::Line(p) => {
                assert(all[at] == p);
            },
            Segment::Curve { c1, c2, to } => {
                assert(all[at] == c1 && all[at + 1] == c2 && all[at + 2] == to);
            },
        }
    }
}

/// A path moved to, drawn along and painted is recorded as it was drawn, in
/// device space: its points, the span of the painting operator, the span from
/// the first operator of the path, and the colours that the paint uses. It
/// stands alone where no other operator came between.
pub proof fn law_a_painted_path_is_what_was_drawn<'a, S: Scalar>(
    c: CollectorModel<S>,
    move_to: Op<S>,
    between: Op<S>,
    line_to: Op<S>,
    paint: Op<S>,
    state: GraphicsState<S>,
    ctx: WalkContext<'a, S>,
)
    requires
        c.current.len() == 0 && c.path_start is None,
        move_to.kind == OpKind::MoveTo,
        between.kind == OpKind::ClosePath || between.kind == OpKind::Other,
        line_to.kind == OpKind::LineTo,
        paint.kind == OpKind::Fill || paint.kind == OpKind::Stroke || paint.kind
            == OpKind::FillStroke,
    ensures
        ({
            let at = |op: Op<S>| state.ctm.image(Point { x: op.operand(0), y: op.operand(1) });
            let before = c.visited(move_to, state, ctx).visited(between, state, ctx).visited(
                line_to,
                state,
                ctx,
            );
            let after = before.visited(paint, state, ctx);
            let drawn = seq![
                SubPathModel {
                    start: at(move_to),
                    segments: seq![Segment::Line(at(line_to))],
                    closed: between.kind == OpKind::ClosePath,
                },
            ];
            &&& before.current == drawn
            &&& before.paths == c.paths && before.images == c.images
            &&& after.current.len() == 0 && after.path_start is None
            &&& after.paths.len() <= c.paths.len() + 1
            &&& after.paths.len() == c.paths.len() + 1 ==> {
                let p = after.paths.last();
                &&& p.subpaths == drawn
                &&& p.span == paint.span
                &&& p.path_span.start == move_to.span.start && p.path_span.end == paint.span.end
                &&& p.self_contained == (between.kind == OpKind::ClosePath)
                &&& p.fill == if paint.kind == OpKind::Stroke {
                    None
                } else {
                    Some(state.fill_colour)
                }
                &&& p.stroke == if paint.kind == OpKind::Fill {
                    None
                } else {
                    Some(state.stroke_colour)
                }
                &&& p.ctm == state.ctm && p.clip == state.clip
                &&& p.source == ctx.source && p.depth == ctx.depth
            }
        }),
{
    let at = |op: Op<S>| state.ctm.image(Point { x: op.operand(0), y: op.operand(1) });
    let a = c.visited(move_to, state, ctx);
    let b = a.visited(between, state, ctx);
    let before = b.visited(line_to, state, ctx);
    let closed = between.kind == OpKind::ClosePath;
    assert(a.current =~= seq![
        SubPathModel { start: at(move_to), segments: Seq::empty(), closed: false },
    ]);
    assert(b.current =~= seq![SubPathModel { start: at(move_to), segments: Seq::empty(), closed }]);
    assert(before.current =~= seq![
        SubPathModel { start: at(move_to), segments: seq![Segment::Line(at(line_to))], closed },
    ]) by {
        assert(Seq::<Segment<S>>::empty().push(Segment::Line(at(line_to))) =~= seq![
            Segment::Line(at(line_to)),
        ]);
    }
    assert(before.path_start == Some(move_to.span.start));
    assert(before.path_pure == closed);
}

/// A rectangle is a closed subpath through its four corners, each taken through
/// the transform, and back.
pub proof fn law_a_rectangle_is_closed<'a, S: Scalar>(
    c: CollectorModel<S>,
    op: Op<S>,
    state: GraphicsState<S>,
    ctx: WalkContext<'a, S>,
)
    requires
        op.kind == OpKind::Rectangle,
    ensures
        ({
            let none = S::spec_ratio(0, 1);
            let (x, y, w, h) = (op.operand(0), op.operand(1), op.operand(2), op.operand(3));
            let left = x.spec_plus(none);
            let low = y.spec_plus(none);
            let a = state.ctm.image(Point { x: left, y: low });
            let sub = c.visited(op, state, ctx).current.last();
            &&& c.visited(op, state, ctx).current.len() == c.current.len() + 1
            &&& sub.closed && sub.start == a
            &&& sub.segments.len() == 4
            &&& sub.segments[0] == Segment::Line(
                state.ctm.image(Point { x: x.spec_plus(w), y: low }),
            )
            &&& sub.segments[1] == Segment::Line(
                state.ctm.image(Point { x: x.spec_plus(w), y: y.spec_plus(h) }),
            )
            &&& sub.segments[2] == Segment::Line(
                state.ctm.image(Point { x: left, y: y.spec_plus(h) }),
            )
            &&& sub.segments[3] == Segment::Line(a)
        }),
{
}

/// The box of a painted path is the part of its bounds that the clip lets show,
/// and a path of which nothing shows is not recorded.
pub proof fn law_a_path_shows_within_its_clip<S: Scalar>(
    c: CollectorModel<S>,
    paint: Paint,
    state: GraphicsState<S>,
)
    requires
        scalar::orderly::<S>(),
        paint != Paint::Shading,
    ensures
        c.shown(paint, state) matches Some(r) ==> {
            &&& path_bounds(c.current) matches Some(b) && crate::geometry::encloses(b, r)
            &&& state.clip matches Some(clip) ==> crate::geometry::encloses(clip, r)
            &&& state.clip is None ==> path_bounds(c.current) == Some(r)
        },
{
    if let Some(b) = path_bounds(c.current) {
        scalar::lemma_order(b.x0, b.x0, b.x0);
        scalar::lemma_order(b.y0, b.y0, b.y0);
        scalar::lemma_order(b.x1, b.x1, b.x1);
        scalar::lemma_order(b.y1, b.y1, b.y1);
        if let Some(clip) = state.clip {
            crate::geometry::law_a_part_within_is_the_largest_in_both(b, clip, b);
        }
    }
}

/// An image fills the unit square, taken through the transform: its unclipped
/// box holds the images of the square's corners and no more than they need, and
/// its box is the part of that inside the clip.
pub proof fn law_an_image_fills_the_unit_square<'a, S: Scalar>(
    op: Op<S>,
    state: GraphicsState<S>,
    ctx: WalkContext<'a, S>,
    name: Option<Name>,
    id: Option<ObjId>,
    pixels: Option<(u32, u32)>,
    is_mask: bool,
    inline: bool,
    outer: Rect<S>,
)
    requires
        scalar::orderly::<S>(),
    ensures
        ({
            let image = placed_image(op, state, ctx, name, id, pixels, is_mask, inline);
            let (none, one) = (S::spec_ratio(0, 1), S::spec_ratio(1, 1));
            let a = point_rect(state.ctm.image(Point { x: none, y: none }));
            let b = point_rect(state.ctm.image(Point { x: one, y: none }));
            let c = point_rect(state.ctm.image(Point { x: one, y: one }));
            let d = point_rect(state.ctm.image(Point { x: none, y: one }));
            let holds = |r: Rect<S>|
                crate::geometry::encloses(r, a) && crate::geometry::encloses(r, b)
                    && crate::geometry::encloses(r, c) && crate::geometry::encloses(r, d);
            &&& holds(image.unclipped_bbox)
            &&& holds(outer) ==> crate::geometry::encloses(outer, image.unclipped_bbox)
            &&& image.unclipped_bbox.x0.spec_le(image.unclipped_bbox.x1)
            &&& image.unclipped_bbox.y0.spec_le(image.unclipped_bbox.y1)
            &&& state.clip is None ==> image.bbox == image.unclipped_bbox
            &&& crate::geometry::encloses(image.unclipped_bbox, image.bbox)
            &&& image.pixels == pixels && image.is_mask == is_mask && image.inline == inline
            &&& image.name == name && image.id == id && image.span == op.span
            &&& image.source == ctx.source && image.depth == ctx.depth && image.clip == state.clip
        }),
{
    let (none, one) = (S::spec_ratio(0, 1), S::spec_ratio(1, 1));
    let a = state.ctm.image(Point { x: none, y: none });
    let b = state.ctm.image(Point { x: one, y: none });
    let c = state.ctm.image(Point { x: one, y: one });
    let d = state.ctm.image(Point { x: none, y: one });
    let r0 = Rect::<S>::spec_inverted();
    let r1 = r0.spec_extended(a.x, a.y);
    let r2 = r1.spec_extended(b.x, b.y);
    let r3 = r2.spec_extended(c.x, c.y);
    let r4 = r3.spec_extended(d.x, d.y);
    crate::geometry::law_an_extended_rectangle_holds_the_point(r0, a.x, a.y, outer);
    crate::geometry::law_an_extended_rectangle_holds_the_point(r1, b.x, b.y, outer);
    crate::geometry::law_an_extended_rectangle_holds_the_point(r2, c.x, c.y, outer);
    crate::geometry::law_an_extended_rectangle_holds_the_point(r3, d.x, d.y, outer);
    let (p, q, s) = (point_rect(a), point_rect(b), point_rect(c));
    lemma_around(r2, r1, p);
    lemma_around(r3, r2, p);
    lemma_around(r4, r3, p);
    lemma_around(r3, r2, q);
    lemma_around(r4, r3, q);
    lemma_around(r4, r3, s);
    let whole = spec_unit_square(state.ctm);
    assert(whole == r4);
    scalar::lemma_order(whole.x0, a.x, whole.x1);
    scalar::lemma_order(whole.y0, a.y, whole.y1);
    scalar::lemma_order(whole.x0, whole.x0, whole.x0);
    scalar::lemma_order(whole.y0, whole.y0, whole.y0);
    scalar::lemma_order(whole.x1, whole.x1, whole.x1);
    scalar::lemma_order(whole.y1, whole.y1, whole.y1);
    if let Some(clip) = state.clip {
        crate::geometry::law_a_part_within_is_the_largest_in_both(whole, clip, whole);
    }
}

proof fn lemma_around<S: Scalar>(a: Rect<S>, b: Rect<S>, c: Rect<S>)
    requires
        scalar::orderly::<S>(),
        crate::geometry::encloses(a, b),
        crate::geometry::encloses(b, c),
    ensures
        crate::geometry::encloses(a, c),
{
    scalar::lemma_order(a.x0, b.x0, c.x0);
    scalar::lemma_order(a.y0, b.y0, c.y0);
    scalar::lemma_order(c.x1, b.x1, a.x1);
    scalar::lemma_order(c.y1, b.y1, a.y1);
}

/// The resolution of an image is the lower of those along its two sides, and an
/// image has one exactly where its pixels are known and it covers an area.
pub proof fn law_resolution_is_the_lower_one<S: Scalar>(image: ImageBlock<S>)
    requires
        scalar::orderly::<S>(),
    ensures
        ({
            let w = image.bbox.x1.spec_minus(image.bbox.x0);
            let h = image.bbox.y1.spec_minus(image.bbox.y0);
            let none = S::spec_ratio(0, 1);
            match image.pixels {
                Some((pw, ph)) if none.spec_lt(w) && none.spec_lt(h) => {
                    let across = S::spec_ratio(pw as i64, 1).spec_over(w);
                    let down = S::spec_ratio(ph as i64, 1).spec_over(h);
                    image.spec_resolution() matches Some(r) && r.spec_le(across) && r.spec_le(down)
                        && (r == across || r == down)
                },
                _ => image.spec_resolution() is None,
            }
        }),
{
    let w = image.bbox.x1.spec_minus(image.bbox.x0);
    let h = image.bbox.y1.spec_minus(image.bbox.y0);
    let none = S::spec_ratio(0, 1);
    scalar::lemma_order(none, w, none);
    scalar::lemma_order(none, h, none);
    scalar::lemma_order(w, none, w);
    scalar::lemma_order(h, none, h);
    if let Some((pw, ph)) = image.pixels {
        let across = S::spec_ratio(pw as i64, 1).spec_over(w);
        let down = S::spec_ratio(ph as i64, 1).spec_over(h);
        scalar::lemma_order(across, down, across);
        scalar::lemma_order(down, across, down);
    }
}

/// The box of a drawing encloses the boxes of its paths and lies in every
/// rectangle that does, and it counts its paths.
pub proof fn law_a_drawings_box_encloses_its_paths<S: Scalar>(
    paths: Seq<PathModel<S>>,
    gap: S,
    k: int,
    outer: Rect<S>,
)
    requires
        scalar::orderly::<S>(),
        paths.len() <= MAX_PATHS,
        0 <= k < clustered(paths, gap).len(),
    ensures
        ({
            let b = clustered(paths, gap)[k];
            &&& b.count == b.paths.len() && b.count > 0
            &&& forall|i: int|
                0 <= i < b.paths.len() ==> crate::geometry::encloses(
                    b.bbox,
                    (#[trigger] b.paths[i]).bbox,
                )
            &&& (forall|i: int|
                0 <= i < b.paths.len() ==> crate::geometry::encloses(
                    outer,
                    (#[trigger] b.paths[i]).bbox,
                )) ==> crate::geometry::encloses(outer, b.bbox)
        }),
{
    let labels = grouping::grouped(paths.len(), paths_near(paths, gap));
    lemma_drawings_right(paths, labels, paths.len() as int, k, outer);
}

spec fn drawing_right<S: Scalar>(b: BlockModel<S>, outer: Rect<S>) -> bool {
    &&& b.count == b.paths.len() && b.count > 0
    &&& forall|i: int|
        0 <= i < b.paths.len() ==> crate::geometry::encloses(b.bbox, (#[trigger] b.paths[i]).bbox)
    &&& (forall|i: int|
        0 <= i < b.paths.len() ==> crate::geometry::encloses(outer, (#[trigger] b.paths[i]).bbox))
        ==> crate::geometry::encloses(outer, b.bbox)
}

proof fn lemma_drawings_right<S: Scalar>(
    paths: Seq<PathModel<S>>,
    labels: Seq<usize>,
    bound: int,
    k: int,
    outer: Rect<S>,
)
    requires
        scalar::orderly::<S>(),
        0 <= k < drawings(paths, labels, bound).len(),
    ensures
        drawing_right(drawings(paths, labels, bound)[k], outer),
    decreases bound,
{
    if bound > 0 {
        let before = drawings(paths, labels, bound - 1);
        if k < before.len() {
            lemma_drawings_right(paths, labels, bound - 1, k, outer);
        } else {
            lemma_drawing_right(paths, labels, bound - 1, paths.len() as int, outer);
        }
    }
}

proof fn lemma_drawing_right<S: Scalar>(
    paths: Seq<PathModel<S>>,
    labels: Seq<usize>,
    label: int,
    n: int,
    outer: Rect<S>,
)
    requires
        scalar::orderly::<S>(),
        0 <= n <= paths.len(),
    ensures
        drawing(paths, labels, label, n) matches Some(b) ==> drawing_right(b, outer),
    decreases n,
{
    if n > 0 {
        lemma_drawing_right(paths, labels, label, n - 1, outer);
        if labels[n - 1] == label {
            let x = paths[n - 1];
            let b = with_path(drawing(paths, labels, label, n - 1), x);
            scalar::lemma_order(x.bbox.x0, x.bbox.x0, x.bbox.x0);
            scalar::lemma_order(x.bbox.y0, x.bbox.y0, x.bbox.y0);
            scalar::lemma_order(x.bbox.x1, x.bbox.x1, x.bbox.x1);
            scalar::lemma_order(x.bbox.y1, x.bbox.y1, x.bbox.y1);
            if let Some(a) = drawing(paths, labels, label, n - 1) {
                crate::geometry::law_a_union_is_the_smallest_around_both(a.bbox, x.bbox, outer);
                assert forall|i: int| 0 <= i < b.paths.len() implies crate::geometry::encloses(
                    b.bbox,
                    (#[trigger] b.paths[i]).bbox,
                ) by {
                    if i < a.paths.len() {
                        assert(b.paths[i] == a.paths[i]);
                        lemma_around(b.bbox, a.bbox, a.paths[i].bbox);
                    }
                }
                if forall|i: int|
                    0 <= i < b.paths.len() ==> crate::geometry::encloses(
                        outer,
                        (#[trigger] b.paths[i]).bbox,
                    ) {
                    assert forall|i: int| 0 <= i < a.paths.len() implies crate::geometry::encloses(
                        outer,
                        (#[trigger] a.paths[i]).bbox,
                    ) by {
                        assert(b.paths[i] == a.paths[i]);
                    }
                    assert(b.paths[a.paths.len() as int] == x);
                }
            } else {
                assert(b.paths[0] == x);
            }
        }
    }
}

/// Boxes are near where they overlap once one is let out by the gap, and neither
/// of two is preferred. The gap of a page is a fiftieth of its smaller side, of
/// one point at least.
pub proof fn law_nearness_is_mutual<S: Scalar>(a: Rect<S>, b: Rect<S>, gap: S, media: Rect<S>)
    requires
        scalar::orderly::<S>(),
    ensures
        boxes_near(a, b, gap) == boxes_near(b, a, gap),
        boxes_near(a, b, gap) <==> a.x0.spec_minus(gap).spec_le(b.x1) && b.x0.spec_minus(
            gap,
        ).spec_le(a.x1) && a.y0.spec_minus(gap).spec_le(b.y1) && b.y0.spec_minus(gap).spec_le(a.y1),
        ({
            let w = media.x1.spec_minus(media.x0).spec_magnitude();
            let h = media.y1.spec_minus(media.y0).spec_magnitude();
            let side = if w.spec_le(h) {
                w
            } else {
                h
            };
            let one = S::spec_ratio(1, 1);
            drawing_gap(media) == (if side.spec_le(one) {
                one
            } else {
                side
            }).spec_times(S::spec_ratio(2, 100))
        }),
{
    let w = media.x1.spec_minus(media.x0).spec_magnitude();
    let h = media.y1.spec_minus(media.y0).spec_magnitude();
    scalar::lemma_order(w, h, w);
    scalar::lemma_order(h, w, h);
}

/// The pixel size of an image is its width and its height where both are whole
/// numbers that a size can hold, and is not known otherwise.
pub proof fn law_pixels_are_the_width_and_the_height<S>(
    w: Option<Object<S>>,
    h: Option<Object<S>>,
    a: i64,
    b: i64,
)
    ensures
        w == Some(Object::<S>::Integer(a)) && h == Some(Object::<S>::Integer(b)) ==> {
            &&& 0 <= a <= u32::MAX && 0 <= b <= u32::MAX ==> pixel_size(w, h) == Some(
                (a as u32, b as u32),
            )
            &&& a < 0 || a > u32::MAX || b < 0 || b > u32::MAX ==> pixel_size(w, h) is None
        },
        !(w matches Some(Object::Integer(_))) || !(h matches Some(Object::Integer(_)))
            ==> pixel_size(w, h) is None,
{
}

/// A pattern is of the kind that its dictionary numbers.
pub proof fn law_a_pattern_is_of_its_kind<S>(d: Dictionary<S>, n: i64, stream: bool)
    requires
        d.value("PatternType"@) == Some(Object::<S>::Integer(n)),
    ensures
        ({
            let o = Some(
                if stream {
                    Object::Stream(d)
                } else {
                    Object::Dictionary(d)
                },
            );
            &&& pattern_kind(o) == PatternKind::Tiling <==> n == 1
            &&& pattern_kind(o) == PatternKind::Shading <==> n == 2
        }),
{
}

/// How each painting operator paints.
pub proof fn law_operators_paint_as_they_are_named(kind: OpKind)
    ensures
        kind == OpKind::Stroke || kind == OpKind::CloseStroke ==> paint_of(kind) == Paint::Stroke,
        kind == OpKind::Fill || kind == OpKind::FillObsolete ==> paint_of(kind) == (Paint::Fill {
            even_odd: false,
        }),
        kind == OpKind::FillEvenOdd ==> paint_of(kind) == (Paint::Fill { even_odd: true }),
        kind == OpKind::FillStroke || kind == OpKind::CloseFillStroke ==> paint_of(kind) == (
        Paint::FillStroke { even_odd: false }),
        kind == OpKind::FillStrokeEvenOdd || kind == OpKind::CloseFillStrokeEvenOdd ==> paint_of(
            kind,
        ) == (Paint::FillStroke { even_odd: true }),
{
}

/// Closing a path closes its last part and leaves the others as they were, and
/// what is shown has a place.
pub proof fn law_closing_closes_the_last_part<S: Scalar>(
    c: CollectorModel<S>,
    paint: Paint,
    state: GraphicsState<S>,
)
    requires
        c.current.len() > 0,
    ensures
        ({
            let after = c.closed().current;
            let last = c.current.len() - 1;
            &&& after.len() == c.current.len()
            &&& after[last].closed
            &&& after[last].start == c.current[last].start
            &&& after[last].segments == c.current[last].segments
            &&& forall|i: int| 0 <= i < last ==> #[trigger] after[i] == c.current[i]
        }),
        c.shown(paint, state) matches Some(b) ==> b.x0.spec_finite() && b.y0.spec_finite(),
{
}

} // verus!
