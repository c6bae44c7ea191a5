//! Region and column detection.
//!
//! Two stages. A recursive cut projects the glyph boxes onto both axes, cuts at
//! the widest valley that clears a threshold, and recurses; the traversal of the
//! resulting tree is reading order. A region that will not cut but is plainly
//! not one block goes to nearest-neighbour clustering instead.
//!
//! Ruling lines are consulted before cutting: a horizontal rule spanning the
//! region is a cut the geometry might not otherwise find.
//!
//! Glyphs are cut, not lines: line assembly joins every glyph sharing a
//! baseline, so on a two-column page the lines span the gutter and their
//! projection has no valley to cut at. Lines are assembled inside each leaf.

use vstd::multiset::Multiset;
use vstd::prelude::*;

use crate::geometry::Rect;
use crate::grouping;
use crate::lines;
use crate::lines::{Line, LineModel, PlacedGlyph};
use crate::partition;
use crate::rules;
use crate::rules::Rule;
use crate::scalar;
use crate::scalar::Scalar;
use crate::sorting;
use crate::stats;
use crate::text;
use crate::words;

verus! {

/// Recursion deeper than this is a pathological page, not a real structure.
pub const MAX_DEPTH: usize = 24;

/// Below this many glyphs there is nothing to cut.
pub const MIN_TO_CUT: usize = 2;

/// Below this many lines a region that will not cut is one block.
pub const MIN_TO_CLUSTER: usize = 4;

/// How a block was arrived at, which is worth knowing when the answer looks
/// wrong.
#[derive(Debug, Clone, Copy, PartialEq, Eq, Structural)]
pub enum Origin {
    /// A leaf of the tree of cuts.
    XyCut,
    /// Produced by nearest-neighbour clustering.
    Docstrum,
    /// The whole region, uncut.
    Whole,
}

/// A candidate block: lines that belong together, in reading order.
#[derive(Debug)]
pub struct Region<S> {
    pub lines: Vec<Line<S>>,
    pub bbox: Rect<S>,
    pub origin: Origin,
    /// Reading-order index, assigned by the tree traversal.
    pub order: usize,
}

/// What a region says.
#[verifier::ext_equal]
pub struct RegionModel<S> {
    pub lines: Seq<LineModel<S>>,
    pub bbox: Rect<S>,
    pub origin: Origin,
    pub order: int,
}

impl<S> View for Region<S> {
    type V = RegionModel<S>;

    open spec fn view(&self) -> RegionModel<S> {
        RegionModel {
            lines: lines::line_models(self.lines@),
            bbox: self.bbox,
            origin: self.origin,
            order: self.order as int,
        }
    }
}

/// What a list of regions says.
pub open spec fn region_models<S>(v: Seq<Region<S>>) -> Seq<RegionModel<S>> {
    Seq::new(v.len(), |i: int| v[i]@)
}

/// The texts of the first `n` lines, one to a row.
pub open spec fn rows_text<S: Scalar>(l: Seq<LineModel<S>>, n: int) -> Seq<char>
    decreases n,
{
    if n <= 0 {
        Seq::empty()
    } else if n == 1 {
        words::spaced_text(l[0].glyphs)
    } else {
        rows_text(l, n - 1).push('\n') + words::spaced_text(l[n - 1].glyphs)
    }
}

/// The sizes of lines.
pub open spec fn line_sizes<S>(l: Seq<LineModel<S>>) -> Seq<S> {
    Seq::new(l.len(), |i: int| l[i].size)
}

/// The texts of lines, one to a row.
pub fn text_of_lines<S: Scalar>(l: &Vec<Line<S>>) -> (r: String)
    ensures
        r@ == rows_text(lines::line_models(l@), l@.len() as int),
{
    let ghost models = lines::line_models(l@);
    let mut out = String::new();
    let mut i: usize = 0;
    while i < l.len()
        invariant
            i <= l@.len(),
            models == lines::line_models(l@),
            out@ == rows_text(models, i as int),
        decreases l@.len() - i,
    {
        if i > 0 {
            out.push('\n');
        }
        let t = words::line_text(&l[i]);
        assert(models[i as int].glyphs == l@[i as int].glyphs@);
        text::append(&mut out, &t);
        if i == 0 {
            assert(out@ =~= t@);
        }
        i += 1;
    }
    out
}

impl<S: Scalar> Region<S> {
    /// The text of the region, a line to a row.
    pub fn text(&self) -> (r: String)
        ensures
            r@ == rows_text(self@.lines, self@.lines.len() as int),
    {
        text_of_lines(&self.lines)
    }

    /// Whether the region holds no lines.
    pub fn is_empty(&self) -> (r: bool)
        ensures
            r == (self@.lines.len() == 0),
    {
        self.lines.len() == 0
    }

    /// Modal line height, the basis for most paragraph thresholds.
    pub fn line_height(&self) -> (r: S)
        ensures
            r == stats::mode_of(line_sizes(self@.lines), lines::size_tolerance::<S>()),
    {
        let mut v: Vec<S> = Vec::new();
        let mut i: usize = 0;
        while i < self.lines.len()
            invariant
                i <= self.lines@.len(),
                v@ == line_sizes(self@.lines).take(i as int),
            decreases self.lines@.len() - i,
        {
            v.push(self.lines[i].size);
            assert(v@ =~= line_sizes(self@.lines).take(i + 1));
            i += 1;
        }
        assert(v@ =~= line_sizes(self@.lines));
        stats::modal(v, S::ratio(5, 100))
    }
}

/// Which axis a cut divides.
#[derive(Debug, Clone, Copy, PartialEq, Eq, Structural)]
pub enum Axis {
    /// Left from right: a column boundary.
    Vertical,
    /// Top from bottom: a paragraph or section boundary.
    Horizontal,
}

/// The device-space box a glyph occupies.
pub open spec fn box_of<S: Scalar>(g: PlacedGlyph<S>) -> Rect<S> {
    lines::with_glyph(Rect::<S>::spec_inverted(), g)
}

/// Whether a glyph falls in the first half: above for a horizontal cut, left
/// for a vertical one. Device space grows downwards.
pub open spec fn first_side<S: Scalar>(g: PlacedGlyph<S>, axis: Axis, at: S) -> bool {
    let b = box_of(g);
    match axis {
        Axis::Horizontal => b.y0.spec_plus(b.y1).spec_over(S::spec_ratio(2, 1)).spec_lt(at),
        Axis::Vertical => b.x0.spec_plus(b.x1).spec_over(S::spec_ratio(2, 1)).spec_lt(at),
    }
}

/// The first `n` glyphs that fall on one side of a cut.
pub open spec fn on_side<S: Scalar>(
    g: Seq<PlacedGlyph<S>>,
    axis: Axis,
    at: S,
    first: bool,
    n: int,
) -> Seq<PlacedGlyph<S>>
    decreases n,
{
    if n <= 0 {
        Seq::empty()
    } else if first_side(g[n - 1], axis, at) == first {
        on_side(g, axis, at, first, n - 1).push(g[n - 1])
    } else {
        on_side(g, axis, at, first, n - 1)
    }
}

/// All the glyphs on one side of a cut.
pub open spec fn half<S: Scalar>(
    g: Seq<PlacedGlyph<S>>,
    axis: Axis,
    at: S,
    first: bool,
) -> Seq<PlacedGlyph<S>> {
    on_side(g, axis, at, first, g.len() as int)
}

/// Whether a cut divides the glyphs into two parts that are not empty.
pub open spec fn divides<S: Scalar>(g: Seq<PlacedGlyph<S>>, axis: Axis, at: S) -> bool {
    &&& exists|i: int| 0 <= i < g.len() && first_side(#[trigger] g[i], axis, at)
    &&& exists|i: int| 0 <= i < g.len() && !first_side(#[trigger] g[i], axis, at)
}

/// The first of some cuts, from `i` on, that divides the glyphs.
pub open spec fn first_dividing<S: Scalar>(
    g: Seq<PlacedGlyph<S>>,
    cuts: Seq<S>,
    i: int,
) -> Option<S>
    decreases cuts.len() - i,
{
    if i < 0 || i >= cuts.len() {
        None
    } else if divides(g, Axis::Horizontal, cuts[i]) {
        Some(cuts[i])
    } else {
        first_dividing(g, cuts, i + 1)
    }
}

/// A rectangle taken in by a bound, when it is a place at all.
pub open spec fn taken_in<S: Scalar>(bound: Option<Rect<S>>, b: Rect<S>) -> Option<Rect<S>> {
    if !b.x0.spec_finite() {
        bound
    } else {
        let r = match bound {
            Some(r) => r,
            None => Rect::<S>::spec_inverted(),
        };
        Some(r.spec_union(b))
    }
}

/// A bound, or no place where nothing was taken in.
pub open spec fn or_none<S: Scalar>(bound: Option<Rect<S>>) -> Rect<S> {
    match bound {
        Some(r) => r,
        None => Rect::<S>::spec_none(),
    }
}

/// The bound of the first `n` glyph boxes.
pub open spec fn glyph_bound<S: Scalar>(g: Seq<PlacedGlyph<S>>, n: int) -> Option<Rect<S>>
    decreases n,
{
    if n <= 0 {
        None
    } else {
        taken_in(glyph_bound(g, n - 1), box_of(g[n - 1]))
    }
}

/// The bound of the boxes of the first `n` lines.
pub open spec fn line_bound<S: Scalar>(l: Seq<LineModel<S>>, n: int) -> Option<Rect<S>>
    decreases n,
{
    if n <= 0 {
        None
    } else {
        taken_in(line_bound(l, n - 1), l[n - 1].bbox)
    }
}

/// The box around lines.
pub open spec fn bounds_of<S: Scalar>(l: Seq<LineModel<S>>) -> Rect<S> {
    or_none(line_bound(l, l.len() as int))
}

/// The intervals the first `n` glyphs occupy on the axis projected onto.
pub open spec fn intervals_of<S: Scalar>(g: Seq<PlacedGlyph<S>>, axis: Axis, n: int) -> Seq<(S, S)>
    decreases n,
{
    if n <= 0 {
        Seq::empty()
    } else {
        let b = box_of(g[n - 1]);
        let i = match axis {
            Axis::Horizontal => (b.y0, b.y1),
            Axis::Vertical => (b.x0, b.x1),
        };
        if i.0.spec_finite() && i.1.spec_finite() {
            intervals_of(g, axis, n - 1).push(i)
        } else {
            intervals_of(g, axis, n - 1)
        }
    }
}

/// Intervals by where they start.
pub open spec fn by_start<S: Scalar>() -> spec_fn((S, S), (S, S)) -> bool {
    |a: (S, S), b: (S, S)| a.0.spec_lt(b.0)
}

/// How far the first `n` sorted intervals reach.
pub open spec fn reach<S: Scalar>(s: Seq<(S, S)>, n: int) -> S
    decreases n,
{
    if n <= 1 {
        s[0].1
    } else {
        reach(s, n - 1).spec_greatest(s[n - 1].1)
    }
}

/// The widest gap between the first `n` sorted intervals, and its middle.
pub open spec fn gap_of<S: Scalar>(s: Seq<(S, S)>, n: int) -> Option<(S, S)>
    decreases n,
{
    if n <= 1 {
        None
    } else {
        let best = gap_of(s, n - 1);
        let edge = reach(s, n - 1);
        let gap = s[n - 1].0.spec_minus(edge);
        let wider = match best {
            Some(b) => b.0.spec_lt(gap),
            None => true,
        };
        if scalar::zero::<S>().spec_lt(gap) && wider {
            Some((gap, edge.spec_plus(gap.spec_over(S::spec_ratio(2, 1)))))
        } else {
            best
        }
    }
}

/// The widest empty band in the projection of glyphs onto an axis, as its width
/// and where to cut it.
pub open spec fn widest<S: Scalar>(g: Seq<PlacedGlyph<S>>, axis: Axis) -> Option<(S, S)> {
    let i = intervals_of(g, axis, g.len() as int);
    if i.len() < 2 {
        None
    } else {
        gap_of(sorting::sorted_by(i, by_start()), i.len() as int)
    }
}

/// The advances of the first `n` glyphs that have one.
pub open spec fn advances<S: Scalar>(g: Seq<PlacedGlyph<S>>, n: int) -> Seq<S>
    decreases n,
{
    if n <= 0 {
        Seq::empty()
    } else if g[n - 1].advance.spec_finite() && scalar::zero::<S>().spec_lt(g[n - 1].advance) {
        advances(g, n - 1).push(g[n - 1].advance)
    } else {
        advances(g, n - 1)
    }
}

/// The median size of glyphs, at least a point.
pub open spec fn usual_height<S: Scalar>(g: Seq<PlacedGlyph<S>>) -> S {
    stats::median_of(lines::sizes(g)).spec_greatest(scalar::one::<S>())
}

/// The median advance of glyphs, at least a quarter of their height.
pub open spec fn usual_width<S: Scalar>(g: Seq<PlacedGlyph<S>>) -> S {
    stats::median_of(advances(g, g.len() as int)).spec_greatest(
        usual_height(g).spec_times(S::spec_ratio(1, 4)),
    )
}

/// The gap that justifies a cut: over one and a half line heights between top
/// and bottom, four fifths of a character width between left and right.
pub open spec fn threshold<S: Scalar>(g: Seq<PlacedGlyph<S>>, axis: Axis) -> S {
    match axis {
        Axis::Horizontal => S::spec_ratio(3, 2).spec_times(usual_height(g)),
        Axis::Vertical => S::spec_ratio(8, 10).spec_times(usual_width(g)),
    }
}

/// The widest band of an axis, where it clears its threshold.
pub open spec fn valley<S: Scalar>(g: Seq<PlacedGlyph<S>>, axis: Axis) -> Option<(S, S)> {
    match widest(g, axis) {
        Some(w) => if threshold(g, axis).spec_lt(w.0) {
            Some(w)
        } else {
            None
        },
        None => None,
    }
}

/// The cut to make. Valleys on both axes are held against each other as
/// multiples of their own thresholds, and one between columns wins a near tie:
/// it is structurally more significant than a paragraph gap.
pub open spec fn cut_at<S: Scalar>(g: Seq<PlacedGlyph<S>>) -> Option<(Axis, S)> {
    match (valley(g, Axis::Horizontal), valley(g, Axis::Vertical)) {
        (Some(h), Some(v)) => {
            let h_score = h.0.spec_over(threshold(g, Axis::Horizontal));
            let v_score = v.0.spec_over(threshold(g, Axis::Vertical));
            if h_score.spec_le(v_score.spec_times(S::spec_ratio(3, 2))) {
                Some((Axis::Vertical, v.1))
            } else {
                Some((Axis::Horizontal, h.1))
            }
        },
        (Some(h), None) => Some((Axis::Horizontal, h.1)),
        (None, Some(v)) => Some((Axis::Vertical, v.1)),
        (None, None) => None,
    }
}

/// Where lines start from the left.
pub open spec fn lefts<S>(l: Seq<LineModel<S>>) -> Seq<S> {
    Seq::new(l.len(), |i: int| l[i].bbox.x0)
}

/// How wide lines are.
pub open spec fn widths<S: Scalar>(l: Seq<LineModel<S>>) -> Seq<S> {
    Seq::new(l.len(), |i: int| l[i].bbox.spec_width())
}

/// Whether lines look like several blocks rather than one: left edges scattered
/// over more than a third of the region, and lines well under its width.
pub open spec fn scattered<S: Scalar>(l: Seq<LineModel<S>>) -> bool {
    let width = bounds_of(l).spec_width();
    &&& !width.spec_le(scalar::zero::<S>())
    &&& width.spec_over(S::spec_ratio(3, 1)).spec_lt(stats::spread_of(lefts(l)))
    &&& stats::median_of(widths(l)).spec_lt(width.spec_times(S::spec_ratio(7, 10)))
}

/// The vertical distance between two boxes; none where they overlap.
pub open spec fn distance<S: Scalar>(a: Rect<S>, b: Rect<S>) -> S {
    if a.y1.spec_le(b.y0) {
        b.y0.spec_minus(a.y1)
    } else if b.y1.spec_le(a.y0) {
        a.y0.spec_minus(b.y1)
    } else {
        scalar::zero::<S>()
    }
}

/// Whether two lines belong together: they overlap horizontally and are within
/// one and a half line heights of each other.
pub open spec fn near<S: Scalar>(a: LineModel<S>, b: LineModel<S>) -> bool {
    &&& a.bbox.x0.spec_greatest(b.bbox.x0).spec_lt(a.bbox.x1.spec_least(b.bbox.x1))
    &&& distance(a.bbox, b.bbox).spec_le(
        a.size.spec_greatest(b.size).spec_times(S::spec_ratio(3, 2)),
    )
}

/// Which pairs of lines belong together.
pub open spec fn lines_near<S: Scalar>(l: Seq<LineModel<S>>) -> spec_fn(int, int) -> bool {
    |i: int, j: int| near(l[i], l[j])
}

/// Lines under one label.
#[verifier::ext_equal]
pub struct Group<S> {
    pub label: usize,
    pub lines: Seq<LineModel<S>>,
}

/// The first group with a label, from `from` on.
pub open spec fn group_for<S>(groups: Seq<Group<S>>, label: usize, from: int) -> int
    decreases groups.len() - from,
{
    if from < 0 || from >= groups.len() || groups[from].label == label {
        from
    } else {
        group_for(groups, label, from + 1)
    }
}

/// The first `n` lines gathered by label, groups in order of first appearance.
pub open spec fn gathered<S>(l: Seq<LineModel<S>>, labels: Seq<usize>, n: int) -> Seq<Group<S>>
    decreases n,
{
    if n <= 0 {
        Seq::empty()
    } else {
        let groups = gathered(l, labels, n - 1);
        let k = group_for(groups, labels[n - 1], 0);
        if 0 <= k < groups.len() {
            groups.update(
                k,
                Group { label: groups[k].label, lines: groups[k].lines.push(l[n - 1]) },
            )
        } else {
            groups.push(Group { label: labels[n - 1], lines: seq![l[n - 1]] })
        }
    }
}

/// Groups from top to bottom, then from left to right.
pub open spec fn group_above<S: Scalar>() -> spec_fn(Group<S>, Group<S>) -> bool {
    |a: Group<S>, b: Group<S>|
        {
            let p = bounds_of(a.lines);
            let q = bounds_of(b.lines);
            p.y0.spec_lt(q.y0) || (!q.y0.spec_lt(p.y0) && p.x0.spec_lt(q.x0))
        }
}

/// Lines clustered by nearness, the clusters in reading order.
pub open spec fn clusters<S: Scalar>(l: Seq<LineModel<S>>) -> Seq<Group<S>> {
    let labels = grouping::grouped(l.len(), lines_near(l));
    sorting::sorted_by(gathered(l, labels, l.len() as int), group_above())
}

/// Lines by baseline, then from left to right.
pub open spec fn line_above<S: Scalar>() -> spec_fn(LineModel<S>, LineModel<S>) -> bool {
    |a: LineModel<S>, b: LineModel<S>|
        a.baseline.spec_lt(b.baseline) || (!b.baseline.spec_lt(a.baseline) && a.bbox.x0.spec_lt(
            b.bbox.x0,
        ))
}

/// The block that lines make.
pub open spec fn block_of<S: Scalar>(l: Seq<LineModel<S>>, origin: Origin) -> RegionModel<S> {
    let sorted = sorting::sorted_by(l, line_above());
    RegionModel { lines: sorted, bbox: bounds_of(sorted), origin, order: 0 }
}

/// The blocks of the first `n` clusters.
pub open spec fn cluster_blocks<S: Scalar>(c: Seq<Group<S>>, n: int) -> Seq<RegionModel<S>>
    decreases n,
{
    if n <= 0 {
        Seq::empty()
    } else {
        cluster_blocks(c, n - 1).push(block_of(c[n - 1].lines, Origin::Docstrum))
    }
}

/// The blocks of a region that will not cut.
pub open spec fn uncut<S: Scalar>(g: Seq<PlacedGlyph<S>>) -> Seq<RegionModel<S>> {
    let l = lines::assembled(g);
    if l.len() >= MIN_TO_CLUSTER && scattered(l) {
        let c = clusters(l);
        cluster_blocks(c, c.len() as int)
    } else {
        seq![block_of(l, Origin::Whole)]
    }
}

/// The box around glyphs.
pub open spec fn glyphs_bounds<S: Scalar>(g: Seq<PlacedGlyph<S>>) -> Rect<S> {
    or_none(glyph_bound(g, g.len() as int))
}

/// Where a region is to be cut: at the first rule across three fifths of it
/// that divides its glyphs, else at its best valley.
pub open spec fn division<S: Scalar>(g: Seq<PlacedGlyph<S>>, r: Seq<Rule<S>>) -> Option<(Axis, S)> {
    let cuts = rules::cuts_of(r, glyphs_bounds(g), S::spec_ratio(6, 10));
    match first_dividing(g, cuts, 0) {
        Some(at) => Some((Axis::Horizontal, at)),
        None => cut_at(g),
    }
}

/// The blocks of glyphs in reading order: left before right, top before bottom.
pub open spec fn cut_tree<S: Scalar>(g: Seq<PlacedGlyph<S>>, r: Seq<Rule<S>>, depth: nat) -> Seq<
    RegionModel<S>,
>
    decreases MAX_DEPTH - depth,
{
    if g.len() == 0 {
        Seq::empty()
    } else if depth >= MAX_DEPTH || g.len() < MIN_TO_CUT {
        seq![block_of(lines::assembled(g), Origin::XyCut)]
    } else {
        match division(g, r) {
            Some((axis, at)) => cut_tree(half(g, axis, at, true), r, depth + 1) + cut_tree(
                half(g, axis, at, false),
                r,
                depth + 1,
            ),
            None => uncut(g),
        }
    }
}

/// Blocks numbered in the order given.
pub open spec fn numbered<S>(blocks: Seq<RegionModel<S>>) -> Seq<RegionModel<S>> {
    Seq::new(blocks.len(), |i: int| RegionModel { order: i, ..blocks[i] })
}

/// The blocks of a page.
pub open spec fn detected<S: Scalar>(g: Seq<PlacedGlyph<S>>, r: Seq<Rule<S>>) -> Seq<
    RegionModel<S>,
> {
    numbered(cut_tree(g, r, 0))
}

/// The device-space box a glyph occupies.
fn glyph_box<S: Scalar>(g: &PlacedGlyph<S>) -> (r: Rect<S>)
    ensures
        r == box_of(*g),
{
    lines::extend_to_glyph(Rect::<S>::inverted(), g)
}

/// True for the first half: above for a horizontal cut, left for a vertical one.
fn side<S: Scalar>(g: &PlacedGlyph<S>, axis: Axis, at: S) -> (r: bool)
    ensures
        r == first_side(*g, axis, at),
{
    let b = glyph_box(g);
    match axis {
        Axis::Horizontal => b.y0.plus(b.y1).over(S::ratio(2, 1)).lt(at),
        Axis::Vertical => b.x0.plus(b.x1).over(S::ratio(2, 1)).lt(at),
    }
}

/// Whether cutting at `at` actually divides the glyphs into two non-empty parts.
fn splits<S: Scalar>(glyphs: &Vec<PlacedGlyph<S>>, axis: Axis, at: S) -> (r: bool)
    ensures
        r == divides(glyphs@, axis, at),
{
    let ghost g = glyphs@;
    let mut first = false;
    let mut second = false;
    let mut i: usize = 0;
    while i < glyphs.len()
        invariant
            i <= glyphs@.len(),
            g == glyphs@,
            first == exists|k: int| 0 <= k < i && first_side(#[trigger] g[k], axis, at),
            second == exists|k: int| 0 <= k < i && !first_side(#[trigger] g[k], axis, at),
            !(first && second),
        decreases glyphs@.len() - i,
    {
        assert(g[i as int] == glyphs@[i as int]);
        if side(&glyphs[i], axis, at) {
            first = true;
        } else {
            second = true;
        }
        if first && second {
            return true;
        }
        i += 1;
    }
    false
}

/// Divide glyphs at a cut, each half in the order given.
fn split<S: Scalar>(glyphs: Vec<PlacedGlyph<S>>, axis: Axis, at: S) -> (r: (
    Vec<PlacedGlyph<S>>,
    Vec<PlacedGlyph<S>>,
))
    ensures
        r.0@ == half(glyphs@, axis, at, true),
        r.1@ == half(glyphs@, axis, at, false),
{
    let ghost g = glyphs@;
    let mut a: Vec<PlacedGlyph<S>> = Vec::new();
    let mut b: Vec<PlacedGlyph<S>> = Vec::new();
    for glyph in it: glyphs
        invariant
            it.seq() == g,
            a@ == on_side(g, axis, at, true, it.index() as int),
            b@ == on_side(g, axis, at, false, it.index() as int),
    {
        if side(&glyph, axis, at) {
            a.push(glyph);
        } else {
            b.push(glyph);
        }
    }
    (a, b)
}

fn take_in<S: Scalar>(bound: Option<Rect<S>>, b: &Rect<S>) -> (r: Option<Rect<S>>)
    ensures
        r == taken_in(bound, *b),
{
    if !b.x0.finite() {
        bound
    } else {
        let r = match bound {
            Some(r) => r,
            None => Rect::<S>::inverted(),
        };
        Some(r.union(b))
    }
}

fn glyph_bounds<S: Scalar>(glyphs: &Vec<PlacedGlyph<S>>) -> (r: Rect<S>)
    ensures
        r == glyphs_bounds(glyphs@),
{
    let mut bound: Option<Rect<S>> = None;
    let mut i: usize = 0;
    while i < glyphs.len()
        invariant
            i <= glyphs@.len(),
            bound == glyph_bound(glyphs@, i as int),
        decreases glyphs@.len() - i,
    {
        bound = take_in(bound, &glyph_box(&glyphs[i]));
        i += 1;
    }
    match bound {
        Some(r) => r,
        None => Rect::<S>::none(),
    }
}

/// The box around lines.
pub fn bounds<S: Scalar>(l: &Vec<Line<S>>) -> (r: Rect<S>)
    ensures
        r == bounds_of(lines::line_models(l@)),
{
    let ghost models = lines::line_models(l@);
    let mut bound: Option<Rect<S>> = None;
    let mut i: usize = 0;
    while i < l.len()
        invariant
            i <= l@.len(),
            models == lines::line_models(l@),
            bound == line_bound(models, i as int),
        decreases l@.len() - i,
    {
        assert(models[i as int].bbox == l@[i as int].bbox);
        bound = take_in(bound, &l[i].bbox);
        i += 1;
    }
    match bound {
        Some(r) => r,
        None => Rect::<S>::none(),
    }
}

/// The widest empty band in the projection profile, and where to cut it.
fn widest_gap<S: Scalar>(glyphs: &Vec<PlacedGlyph<S>>, axis: Axis) -> (r: Option<(S, S)>)
    ensures
        r == widest(glyphs@, axis),
{
    let mut intervals: Vec<(S, S)> = Vec::new();
    let mut i: usize = 0;
    while i < glyphs.len()
        invariant
            i <= glyphs@.len(),
            intervals@ == intervals_of(glyphs@, axis, i as int),
        decreases glyphs@.len() - i,
    {
        let b = glyph_box(&glyphs[i]);
        let interval = match axis {
            Axis::Horizontal => (b.y0, b.y1),
            Axis::Vertical => (b.x0, b.x1),
        };
        if interval.0.finite() && interval.1.finite() {
            intervals.push(interval);
        }
        i += 1;
    }
    let n: usize = intervals.len();
    if n < 2 {
        return None;
    }
    let ghost given = intervals@;
    let before = |a: &(S, S), b: &(S, S)| -> (r: bool)
        ensures
            r == a.0.spec_lt(b.0),
        { a.0.lt(b.0) };
    let sorted = sorting::stable_sort(intervals, before, Ghost(by_start::<S>()));
    proof {
        sorting::lemma_sorted_keeps_elements(given, by_start::<S>());
    }
    let mut best: Option<(S, S)> = None;
    let mut edge: S = sorted[0].1;
    let mut k: usize = 1;
    while k < n
        invariant
            1 <= k <= n,
            n == sorted@.len(),
            best == gap_of(sorted@, k as int),
            edge == reach(sorted@, k as int),
        decreases n - k,
    {
        let gap = sorted[k].0.minus(edge);
        let wider = match best {
            Some(b) => b.0.lt(gap),
            None => true,
        };
        if scalar::zero_of::<S>().lt(gap) && wider {
            best = Some((gap, edge.plus(gap.over(S::ratio(2, 1)))));
        }
        edge = edge.greatest(sorted[k].1);
        k += 1;
    }
    best
}

fn advances_of<S: Scalar>(glyphs: &Vec<PlacedGlyph<S>>) -> (r: Vec<S>)
    ensures
        r@ == advances(glyphs@, glyphs@.len() as int),
{
    let mut v: Vec<S> = Vec::new();
    let mut i: usize = 0;
    while i < glyphs.len()
        invariant
            i <= glyphs@.len(),
            v@ == advances(glyphs@, i as int),
        decreases glyphs@.len() - i,
    {
        let a = glyphs[i].advance;
        if a.finite() && scalar::zero_of::<S>().lt(a) {
            v.push(a);
        }
        i += 1;
    }
    v
}

fn sizes_of<S: Scalar>(glyphs: &Vec<PlacedGlyph<S>>) -> (r: Vec<S>)
    ensures
        r@ == lines::sizes(glyphs@),
{
    let mut v: Vec<S> = Vec::new();
    let mut i: usize = 0;
    while i < glyphs.len()
        invariant
            i <= glyphs@.len(),
            v@ == lines::sizes(glyphs@).take(i as int),
        decreases glyphs@.len() - i,
    {
        v.push(glyphs[i].size);
        assert(v@ =~= lines::sizes(glyphs@).take(i + 1));
        i += 1;
    }
    assert(v@ =~= lines::sizes(glyphs@));
    v
}

/// The widest valley on either axis that clears its threshold.
fn best_cut<S: Scalar>(glyphs: &Vec<PlacedGlyph<S>>) -> (r: Option<(Axis, S)>)
    ensures
        r == cut_at(glyphs@),
{
    let line_height = stats::median(sizes_of(glyphs)).greatest(scalar::one_of::<S>());
    let char_width = stats::median(advances_of(glyphs)).greatest(
        line_height.times(S::ratio(1, 4)),
    );
    let v_threshold = S::ratio(3, 2).times(line_height);
    let h_threshold = S::ratio(8, 10).times(char_width);
    let horizontal = match widest_gap(glyphs, Axis::Horizontal) {
        Some(w) => if v_threshold.lt(w.0) {
            Some(w)
        } else {
            None
        },
        None => None,
    };
    let vertical = match widest_gap(glyphs, Axis::Vertical) {
        Some(w) => if h_threshold.lt(w.0) {
            Some(w)
        } else {
            None
        },
        None => None,
    };
    match (horizontal, vertical) {
        (Some(h), Some(v)) => {
            // A full-width heading cannot be cut vertically: it spans the
            // gutter, which is what makes preferring columns safe.
            let h_score = h.0.over(v_threshold);
            let v_score = v.0.over(h_threshold);
            if h_score.le(v_score.times(S::ratio(3, 2))) {
                Some((Axis::Vertical, v.1))
            } else {
                Some((Axis::Horizontal, h.1))
            }
        },
        (Some(h), None) => Some((Axis::Horizontal, h.1)),
        (None, Some(v)) => Some((Axis::Vertical, v.1)),
        (None, None) => None,
    }
}

/// Whether an undividable region looks like several blocks rather than one.
///
/// A single paragraph is a stack of lines starting in the same place, while a
/// magazine layout is not.
fn variance_is_high<S: Scalar>(l: &Vec<Line<S>>) -> (r: bool)
    ensures
        r == scattered(lines::line_models(l@)),
{
    let ghost models = lines::line_models(l@);
    let width = bounds(l).width();
    if width.le(scalar::zero_of::<S>()) {
        return false;
    }
    let mut left: Vec<S> = Vec::new();
    let mut wide: Vec<S> = Vec::new();
    let mut i: usize = 0;
    while i < l.len()
        invariant
            i <= l@.len(),
            models == lines::line_models(l@),
            left@ == lefts(models).take(i as int),
            wide@ == widths(models).take(i as int),
        decreases l@.len() - i,
    {
        assert(models[i as int].bbox == l@[i as int].bbox);
        left.push(l[i].bbox.x0);
        wide.push(l[i].bbox.width());
        assert(left@ =~= lefts(models).take(i + 1));
        assert(wide@ =~= widths(models).take(i + 1));
        i += 1;
    }
    assert(left@ =~= lefts(models));
    assert(wide@ =~= widths(models));
    width.over(S::ratio(3, 1)).lt(stats::spread(&left)) && stats::median(wide).lt(
        width.times(S::ratio(7, 10)),
    )
}

fn neighbours<S: Scalar>(a: &Line<S>, b: &Line<S>) -> (r: bool)
    ensures
        r == near(a@, b@),
{
    let p = &a.bbox;
    let q = &b.bbox;
    if !p.x0.greatest(q.x0).lt(p.x1.least(q.x1)) {
        return false;
    }
    let gap = if p.y1.le(q.y0) {
        q.y0.minus(p.y1)
    } else if q.y1.le(p.y0) {
        p.y0.minus(q.y1)
    } else {
        // Overlapping both ways: the same line split into pieces.
        scalar::zero_of::<S>()
    };
    gap.le(a.size.greatest(b.size).times(S::ratio(3, 2)))
}

spec fn group_model<S>(g: (usize, Vec<Line<S>>)) -> Group<S> {
    Group { label: g.0, lines: lines::line_models(g.1@) }
}

spec fn to_group<S>() -> spec_fn((usize, Vec<Line<S>>)) -> Group<S> {
    |g: (usize, Vec<Line<S>>)| group_model(g)
}

fn find_group<S: Scalar>(groups: &Vec<(usize, Vec<Line<S>>)>, label: usize) -> (r: usize)
    ensures
        r == group_for(groups@.map_values(to_group::<S>()), label, 0),
        r <= groups@.len(),
{
    let ghost models = groups@.map_values(to_group::<S>());
    let mut i: usize = 0;
    while i < groups.len() && groups[i].0 != label
        invariant
            i <= groups@.len(),
            models == groups@.map_values(to_group::<S>()),
            group_for(models, label, 0) == group_for(models, label, i as int),
        decreases groups@.len() - i,
    {
        assert(models[i as int].label == groups@[i as int].0);
        i += 1;
    }
    if i < groups.len() {
        assert(models[i as int].label == groups@[i as int].0);
    }
    i
}

/// Nearest-neighbour clustering of lines: two lines join when they overlap
/// horizontally and their vertical gap is within one and a half line heights.
fn docstrum<S: Scalar>(l: Vec<Line<S>>) -> (r: Vec<(usize, Vec<Line<S>>)>)
    ensures
        r@.map_values(to_group::<S>()) == clusters(lines::line_models(l@)),
{
    let ghost models = lines::line_models(l@);
    let n: usize = l.len();
    let ghost close = lines_near(models);
    let is_close = |i: usize, j: usize| -> (r: bool)
        requires
            i < l@.len(),
            j < l@.len(),
        ensures
            r == near(l@[i as int]@, l@[j as int]@),
        { neighbours(&l[i], &l[j]) };
    let labels = grouping::group(n, is_close, Ghost(close));

    let ghost list = l@;
    let mut groups: Vec<(usize, Vec<Line<S>>)> = Vec::new();
    let mut at: usize = 0;
    assert(groups@.map_values(to_group::<S>()) =~= gathered(models, labels@, 0));
    for line in it: l
        invariant
            it.seq() == list,
            at == it.index(),
            n == list.len(),
            labels@.len() == n,
            models == lines::line_models(list),
            groups@.map_values(to_group::<S>()) == gathered(models, labels@, at as int),
    {
        let label: usize = labels[at];
        assert(line@ == models[at as int]);
        let ghost model = line@;
        let ghost before = groups@;
        let k: usize = find_group(&groups, label);
        if k < groups.len() {
            groups[k].1.push(line);
            assert(lines::line_models(groups@[k as int].1@) =~= lines::line_models(
                before[k as int].1@,
            ).push(model));
        } else {
            let mut one: Vec<Line<S>> = Vec::new();
            one.push(line);
            assert(lines::line_models(one@) =~= seq![model]);
            groups.push((label, one));
        }
        assert(groups@.map_values(to_group::<S>()) =~= gathered(models, labels@, at + 1));
        at = at + 1;
    }
    let ghost given = groups@;
    let before = |a: &(usize, Vec<Line<S>>), b: &(usize, Vec<Line<S>>)| -> (r: bool)
        ensures
            r == group_above::<S>()(group_model(*a), group_model(*b)),
        {
            let p = bounds(&a.1);
            let q = bounds(&b.1);
            p.y0.lt(q.y0) || (!q.y0.lt(p.y0) && p.x0.lt(q.x0))
        };
    let ghost less = |a: (usize, Vec<Line<S>>), b: (usize, Vec<Line<S>>)|
        group_above::<S>()(group_model(a), group_model(b));
    let sorted = sorting::stable_sort(groups, before, Ghost(less));
    proof {
        sorting::lemma_sorted_by_mapped(given, less, group_above::<S>(), to_group::<S>());
    }
    sorted
}

spec fn to_line_model<S>() -> spec_fn(Line<S>) -> LineModel<S> {
    |l: Line<S>| l@
}

fn make_block<S: Scalar>(l: Vec<Line<S>>, origin: Origin) -> (r: Region<S>)
    ensures
        r@ == block_of(lines::line_models(l@), origin),
{
    let ghost given = l@;
    let before = |a: &Line<S>, b: &Line<S>| -> (r: bool)
        ensures
            r == line_above::<S>()(a@, b@),
        {
            a.baseline.lt(b.baseline) || (!b.baseline.lt(a.baseline) && a.bbox.x0.lt(b.bbox.x0))
        };
    let ghost less = |a: Line<S>, b: Line<S>| line_above::<S>()(a@, b@);
    let sorted = sorting::stable_sort(l, before, Ghost(less));
    proof {
        sorting::lemma_sorted_by_mapped(given, less, line_above::<S>(), to_line_model::<S>());
        assert(given.map_values(to_line_model::<S>()) =~= lines::line_models(given));
        assert(sorted@.map_values(to_line_model::<S>()) =~= lines::line_models(sorted@));
    }
    let bbox = bounds(&sorted);
    Region { lines: sorted, bbox, origin, order: 0 }
}

/// Assemble a leaf's glyphs into lines and make it a block.
fn leaf<S: Scalar>(glyphs: Vec<PlacedGlyph<S>>, origin: Origin) -> (r: Region<S>)
    ensures
        r@ == block_of(lines::assembled(glyphs@), origin),
{
    make_block(lines::assemble(glyphs), origin)
}

/// The blocks of a region that will not cut.
fn whole<S: Scalar>(glyphs: Vec<PlacedGlyph<S>>) -> (r: Vec<Region<S>>)
    ensures
        region_models(r@) == uncut(glyphs@),
{
    let ghost g = glyphs@;
    // Lines are assembled first so that clustering runs over tens of items
    // rather than thousands of glyphs.
    let l = lines::assemble(glyphs);
    let mut out: Vec<Region<S>> = Vec::new();
    if l.len() >= MIN_TO_CLUSTER && variance_is_high(&l) {
        let groups = docstrum(l);
        let ghost list = groups@;
        let ghost c = list.map_values(to_group::<S>());
        assert(region_models(out@) =~= cluster_blocks(c, 0));
        for group in it: groups
            invariant
                it.seq() == list,
                c == list.map_values(to_group::<S>()),
                region_models(out@) == cluster_blocks(c, it.index() as int),
        {
            let ghost before = out@;
            assert(group_model(group) == c[it.index() as int]);
            let block = make_block(group.1, Origin::Docstrum);
            out.push(block);
            assert(region_models(out@) =~= region_models(before).push(block@));
        }
    } else {
        out.push(make_block(l, Origin::Whole));
        assert(region_models(out@) =~= uncut(g));
    }
    out
}

/// Recursive cut. Gives the leaves in reading order.
fn cut<S: Scalar>(glyphs: Vec<PlacedGlyph<S>>, hints: &Vec<Rule<S>>, depth: usize) -> (r: Vec<
    Region<S>,
>)
    ensures
        region_models(r@) == cut_tree(glyphs@, hints@, depth as nat),
    decreases MAX_DEPTH - depth,
{
    let ghost g = glyphs@;
    let mut out: Vec<Region<S>> = Vec::new();
    if glyphs.len() == 0 {
        assert(region_models(out@) =~= cut_tree(g, hints@, depth as nat));
        return out;
    }
    if depth >= MAX_DEPTH || glyphs.len() < MIN_TO_CUT {
        out.push(leaf(glyphs, Origin::XyCut));
        assert(region_models(out@) =~= cut_tree(g, hints@, depth as nat));
        return out;
    }
    // A rule spanning the region is a cut the profile may be too coarse to see.
    let region = glyph_bounds(&glyphs);
    let cuts = rules::horizontal_cuts(hints, &region, S::ratio(6, 10));
    let mut i: usize = 0;
    while i < cuts.len() && !splits(&glyphs, Axis::Horizontal, cuts[i])
        invariant
            i <= cuts@.len(),
            g == glyphs@,
            first_dividing(g, cuts@, 0) == first_dividing(g, cuts@, i as int),
        ensures
            i <= cuts@.len(),
            first_dividing(g, cuts@, 0) == first_dividing(g, cuts@, i as int),
            i < cuts@.len() ==> divides(g, Axis::Horizontal, cuts@[i as int]),
        decreases cuts@.len() - i,
    {
        i += 1;
    }
    let place = if i < cuts.len() {
        Some((Axis::Horizontal, cuts[i]))
    } else {
        best_cut(&glyphs)
    };
    assert(place == division(g, hints@));
    match place {
        Some((axis, at)) => {
            // The halves come in reading order, so recursing in sequence is
            // reading order.
            let (a, b) = split(glyphs, axis, at);
            out = cut(a, hints, depth + 1);
            let ghost first = out@;
            let mut rest = cut(b, hints, depth + 1);
            let ghost second = rest@;
            out.append(&mut rest);
            assert(region_models(out@) =~= region_models(first) + region_models(second));
            out
        },
        None => whole(glyphs),
    }
}

/// Detect blocks on a page from its placed glyphs.
pub fn detect<S: Scalar>(glyphs: Vec<PlacedGlyph<S>>, hints: &Vec<Rule<S>>) -> (r: Vec<Region<S>>)
    ensures
        region_models(r@) == detected(glyphs@, hints@),
{
    let ghost g = glyphs@;
    let blocks = cut(glyphs, hints, 0);
    let ghost given = blocks@;
    let n: usize = blocks.len();
    let mut out: Vec<Region<S>> = Vec::new();
    let mut order: usize = 0;
    for block in it: blocks
        invariant
            it.seq() == given,
            n == given.len(),
            order == it.index(),
            out@.len() == order,
            forall|k: int|
                0 <= k < order ==> (#[trigger] out@[k])@ == (RegionModel {
                    order: k,
                    ..region_models(given)[k]
                }),
    {
        let mut block = block;
        block.order = order;
        out.push(block);
        order = order + 1;
    }
    assert(region_models(out@) =~= detected(g, hints@));
    out
}

/// The glyphs of lines, line by line.
pub open spec fn spread_glyphs<S>(l: Seq<LineModel<S>>) -> Seq<PlacedGlyph<S>>
    decreases l.len(),
{
    if l.len() == 0 {
        Seq::empty()
    } else {
        spread_glyphs(l.drop_last()) + l.last().glyphs
    }
}

/// The glyphs of a region.
pub open spec fn region_glyphs<S>() -> spec_fn(RegionModel<S>) -> Seq<PlacedGlyph<S>> {
    |r: RegionModel<S>| spread_glyphs(r.lines)
}

spec fn group_glyphs<S>() -> spec_fn(Group<S>) -> Seq<PlacedGlyph<S>> {
    |g: Group<S>| spread_glyphs(g.lines)
}

/// Spreading glyphs keeps them all.
pub proof fn lemma_spread<S>(l: Seq<LineModel<S>>)
    ensures
        spread_glyphs(l).to_multiset() == lines::glyphs_in(l),
    decreases l.len(),
{
    if l.len() == 0 {
        partition::lemma_empty_multiset::<PlacedGlyph<S>>();
    } else {
        lemma_spread(l.drop_last());
        partition::lemma_joined_multiset(spread_glyphs(l.drop_last()), l.last().glyphs);
        partition::lemma_pooled_push(l.drop_last(), l.last(), lines::line_glyphs::<S>());
        assert(l.drop_last().push(l.last()) =~= l);
    }
}

/// The glyphs of lines up to one are those of the lines before another and those
/// between.
pub proof fn lemma_spread_parts<S>(l: Seq<LineModel<S>>, from: int, to: int)
    requires
        0 <= from <= to <= l.len(),
    ensures
        spread_glyphs(l.take(to)) == spread_glyphs(l.take(from))
            + spread_glyphs(l.subrange(from, to)),
    decreases to - from,
{
    let a = spread_glyphs(l.take(from));
    if from == to {
        assert(l.subrange(from, to) =~= Seq::empty());
        assert(a + Seq::empty() =~= a);
    } else {
        lemma_spread_parts(l, from, to - 1);
        assert(l.take(to).drop_last() =~= l.take(to - 1));
        assert(l.subrange(from, to).drop_last() =~= l.subrange(from, to - 1));
        let b = spread_glyphs(l.subrange(from, to - 1));
        assert((a + b) + l[to - 1].glyphs =~= a + (b + l[to - 1].glyphs));
    }
}

proof fn lemma_block_keeps_glyphs<S: Scalar>(l: Seq<LineModel<S>>, origin: Origin)
    ensures
        region_glyphs::<S>()(block_of(l, origin)).to_multiset() == lines::glyphs_in(l),
{
    lemma_spread(sorting::sorted_by(l, line_above()));
    partition::lemma_pooled_sorted(l, line_above::<S>(), lines::line_glyphs::<S>());
}

proof fn lemma_group_for<S>(groups: Seq<Group<S>>, label: usize, from: int)
    requires
        0 <= from <= groups.len(),
    ensures
        from <= group_for(groups, label, from) <= groups.len(),
    decreases groups.len() - from,
{
    if from < groups.len() && groups[from].label != label {
        lemma_group_for(groups, label, from + 1);
    }
}

proof fn lemma_gathered_keeps_glyphs<S>(l: Seq<LineModel<S>>, labels: Seq<usize>, n: int)
    requires
        0 <= n <= l.len(),
    ensures
        partition::pooled(gathered(l, labels, n), group_glyphs()) == lines::glyphs_in(l.take(n)),
        forall|k: int|
            0 <= k < gathered(l, labels, n).len() ==> (#[trigger] gathered(l, labels, n)[k]).lines.len()
                > 0,
    decreases n,
{
    if n == 0 {
        assert(l.take(0) =~= Seq::empty());
    } else {
        lemma_gathered_keeps_glyphs(l, labels, n - 1);
        let groups = gathered(l, labels, n - 1);
        let k = group_for(groups, labels[n - 1], 0);
        let line = l[n - 1];
        let f = group_glyphs::<S>();
        assert(l.take(n) =~= l.take(n - 1).push(line));
        partition::lemma_pooled_push(l.take(n - 1), line, lines::line_glyphs::<S>());
        lemma_group_for(groups, labels[n - 1], 0);
        if k < groups.len() {
            let more = Group { label: groups[k].label, lines: groups[k].lines.push(line) };
            partition::lemma_pooled_update(groups, k, more, f);
            assert(more.lines.drop_last() =~= groups[k].lines);
            partition::lemma_joined_multiset(spread_glyphs(groups[k].lines), line.glyphs);
            let a = partition::pooled(groups.update(k, more), f);
            let b = partition::pooled(groups, f);
            let held = f(groups[k]).to_multiset();
            let new = line.glyphs.to_multiset();
            assert(a.add(held) == b.add(held.add(new)));
            assert forall|x: PlacedGlyph<S>| #[trigger] a.count(x) == b.add(new).count(x) by {
                assert(a.add(held).count(x) == b.add(held.add(new)).count(x));
            }
            assert(a =~= b.add(new));
        } else {
            let one = Group { label: labels[n - 1], lines: seq![line] };
            partition::lemma_pooled_push(groups, one, f);
            assert(one.lines.drop_last() =~= Seq::empty());
            assert(spread_glyphs(one.lines.drop_last()) =~= Seq::empty());
            assert(spread_glyphs(one.lines) =~= line.glyphs);
        }
    }
}

proof fn lemma_cluster_blocks_keep_glyphs<S: Scalar>(c: Seq<Group<S>>, n: int)
    requires
        0 <= n <= c.len(),
    ensures
        partition::pooled(cluster_blocks(c, n), region_glyphs()) == partition::pooled(
            c.take(n),
            group_glyphs(),
        ),
    decreases n,
{
    if n == 0 {
        assert(c.take(0) =~= Seq::empty());
    } else {
        lemma_cluster_blocks_keep_glyphs(c, n - 1);
        let block = block_of(c[n - 1].lines, Origin::Docstrum);
        assert(c.take(n) =~= c.take(n - 1).push(c[n - 1]));
        partition::lemma_pooled_push(c.take(n - 1), c[n - 1], group_glyphs::<S>());
        partition::lemma_pooled_push(cluster_blocks(c, n - 1), block, region_glyphs::<S>());
        lemma_block_keeps_glyphs(c[n - 1].lines, Origin::Docstrum);
        lemma_spread(c[n - 1].lines);
    }
}

proof fn lemma_one_block<S: Scalar>(l: Seq<LineModel<S>>, origin: Origin)
    ensures
        partition::pooled(seq![block_of(l, origin)], region_glyphs()) == lines::glyphs_in(l),
{
    let b = block_of(l, origin);
    lemma_block_keeps_glyphs(l, origin);
    assert(seq![b].drop_last() =~= Seq::empty());
    partition::lemma_pooled_push(Seq::empty(), b, region_glyphs::<S>());
    assert(Seq::empty().push(b) =~= seq![b]);
    assert(Multiset::<PlacedGlyph<S>>::empty().add(lines::glyphs_in(l)) =~= lines::glyphs_in(l));
}

proof fn lemma_uncut_keeps_glyphs<S: Scalar>(g: Seq<PlacedGlyph<S>>)
    ensures
        partition::pooled(uncut(g), region_glyphs()) == g.to_multiset(),
{
    let l = lines::assembled(g);
    lines::law_lines_partition_the_glyphs(g);
    if l.len() >= MIN_TO_CLUSTER && scattered(l) {
        let labels = grouping::grouped(l.len(), lines_near(l));
        let groups = gathered(l, labels, l.len() as int);
        lemma_gathered_keeps_glyphs(l, labels, l.len() as int);
        assert(l.take(l.len() as int) =~= l);
        partition::lemma_pooled_sorted(groups, group_above::<S>(), group_glyphs::<S>());
        let c = clusters(l);
        lemma_cluster_blocks_keep_glyphs(c, c.len() as int);
        assert(c.take(c.len() as int) =~= c);
    } else {
        lemma_one_block(l, Origin::Whole);
    }
}

proof fn lemma_halves<S: Scalar>(g: Seq<PlacedGlyph<S>>, axis: Axis, at: S, n: int)
    requires
        0 <= n <= g.len(),
    ensures
        on_side(g, axis, at, true, n).to_multiset().add(
            on_side(g, axis, at, false, n).to_multiset(),
        ) == g.take(n).to_multiset(),
    decreases n,
{
    broadcast use vstd::seq_lib::group_to_multiset_ensures;

    if n == 0 {
        partition::lemma_empty_multiset::<PlacedGlyph<S>>();
        assert(g.take(0) =~= Seq::empty());
        assert(Multiset::<PlacedGlyph<S>>::empty().add(Multiset::empty()) =~= Multiset::empty());
    } else {
        lemma_halves(g, axis, at, n - 1);
        assert(g.take(n) =~= g.take(n - 1).push(g[n - 1]));
        let a = on_side(g, axis, at, true, n - 1).to_multiset();
        let b = on_side(g, axis, at, false, n - 1).to_multiset();
        assert(a.insert(g[n - 1]).add(b) =~= a.add(b).insert(g[n - 1]));
        assert(a.add(b.insert(g[n - 1])) =~= a.add(b).insert(g[n - 1]));
    }
}

proof fn lemma_cut_tree_keeps_glyphs<S: Scalar>(
    g: Seq<PlacedGlyph<S>>,
    r: Seq<Rule<S>>,
    depth: nat,
)
    ensures
        partition::pooled(cut_tree(g, r, depth), region_glyphs()) == g.to_multiset(),
    decreases MAX_DEPTH - depth,
{
    if g.len() == 0 {
        partition::lemma_empty_multiset::<PlacedGlyph<S>>();
        assert(g =~= Seq::empty());
    } else if depth >= MAX_DEPTH || g.len() < MIN_TO_CUT {
        lines::law_lines_partition_the_glyphs(g);
        lemma_one_block(lines::assembled(g), Origin::XyCut);
    } else {
        match division(g, r) {
            Some((axis, at)) => {
                let a = half(g, axis, at, true);
                let b = half(g, axis, at, false);
                lemma_cut_tree_keeps_glyphs(a, r, depth + 1);
                lemma_cut_tree_keeps_glyphs(b, r, depth + 1);
                lemma_halves(g, axis, at, g.len() as int);
                assert(g.take(g.len() as int) =~= g);
                partition::lemma_pooled_join(
                    cut_tree(a, r, depth + 1),
                    cut_tree(b, r, depth + 1),
                    region_glyphs::<S>(),
                );
            },
            None => {
                lemma_uncut_keeps_glyphs(g);
            },
        }
    }
}

/// Region detection partitions the glyphs of a page: every glyph ends up in
/// exactly one region, however the page was cut.
pub proof fn law_regions_partition_the_glyphs<S: Scalar>(
    g: Seq<PlacedGlyph<S>>,
    r: Seq<Rule<S>>,
)
    ensures
        partition::pooled(detected(g, r), region_glyphs()) == g.to_multiset(),
{
    lemma_cut_tree_keeps_glyphs(g, r, 0);
    partition::lemma_pooled_same(
        detected(g, r),
        region_glyphs::<S>(),
        cut_tree(g, r, 0),
        region_glyphs::<S>(),
    );
}

proof fn lemma_assembled_filled<S: Scalar>(g: Seq<PlacedGlyph<S>>)
    requires
        g.len() > 0,
    ensures
        lines::assembled(g).len() > 0,
{
    broadcast use vstd::seq_lib::group_to_multiset_ensures;

    lines::law_lines_partition_the_glyphs(g);
    assert(g.to_multiset().count(g[0]) > 0) by {
        assert(g.contains(g[0]));
    }
}

proof fn lemma_cut_tree_filled<S: Scalar>(
    g: Seq<PlacedGlyph<S>>,
    r: Seq<Rule<S>>,
    depth: nat,
    i: int,
)
    requires
        0 <= i < cut_tree(g, r, depth).len(),
    ensures
        cut_tree(g, r, depth)[i].lines.len() > 0,
    decreases MAX_DEPTH - depth,
{
    let l = lines::assembled(g);
    lemma_assembled_filled(g);
    sorting::lemma_sorted_keeps_elements(l, line_above::<S>());
    if depth >= MAX_DEPTH || g.len() < MIN_TO_CUT {
    } else {
        match division(g, r) {
            Some((axis, at)) => {
                let a = cut_tree(half(g, axis, at, true), r, depth + 1);
                if i < a.len() {
                    lemma_cut_tree_filled(half(g, axis, at, true), r, depth + 1, i);
                } else {
                    lemma_cut_tree_filled(half(g, axis, at, false), r, depth + 1, i - a.len());
                }
            },
            None => {
                if l.len() >= MIN_TO_CLUSTER && scattered(l) {
                    let labels = grouping::grouped(l.len(), lines_near(l));
                    let c = clusters(l);
                    lemma_gathered_keeps_glyphs(l, labels, l.len() as int);
                    lemma_cluster_blocks(c, c.len() as int);
                    sorting::lemma_sorted_keeps_elements(
                        gathered(l, labels, l.len() as int),
                        group_above::<S>(),
                    );
                    lemma_sorted_filled(gathered(l, labels, l.len() as int), i);
                    sorting::lemma_sorted_keeps_elements(c[i].lines, line_above::<S>());
                }
            },
        }
    }
}

proof fn lemma_cluster_blocks<S: Scalar>(c: Seq<Group<S>>, n: int)
    requires
        0 <= n <= c.len(),
    ensures
        cluster_blocks(c, n).len() == n,
        forall|i: int|
            0 <= i < n ==> #[trigger] cluster_blocks(c, n)[i] == block_of(
                c[i].lines,
                Origin::Docstrum,
            ),
    decreases n,
{
    if n > 0 {
        lemma_cluster_blocks(c, n - 1);
    }
}

proof fn lemma_sorted_filled<S: Scalar>(groups: Seq<Group<S>>, i: int)
    requires
        forall|k: int| 0 <= k < groups.len() ==> (#[trigger] groups[k]).lines.len() > 0,
        0 <= i < groups.len(),
    ensures
        sorting::sorted_by(groups, group_above())[i].lines.len() > 0,
{
    broadcast use vstd::seq_lib::group_to_multiset_ensures;

    let s = sorting::sorted_by(groups, group_above::<S>());
    sorting::lemma_sorted_keeps_elements(groups, group_above::<S>());
    assert(s.contains(s[i]));
    assert(s.to_multiset().count(s[i]) > 0);
    assert(groups.contains(s[i]));
}

/// Whether every line holds a glyph.
spec fn lines_filled<S>(l: Seq<LineModel<S>>) -> bool {
    forall|j: int| 0 <= j < l.len() ==> (#[trigger] l[j]).glyphs.len() > 0
}

proof fn lemma_block_lines_filled<S: Scalar>(l: Seq<LineModel<S>>, origin: Origin)
    requires
        lines_filled(l),
    ensures
        lines_filled(block_of(l, origin).lines),
{
    broadcast use vstd::seq_lib::group_to_multiset_ensures;

    let s = block_of(l, origin).lines;
    sorting::lemma_sorted_keeps_elements(l, line_above::<S>());
    assert forall|j: int| 0 <= j < s.len() implies (#[trigger] s[j]).glyphs.len() > 0 by {
        assert(s.contains(s[j]));
        assert(s.to_multiset().count(s[j]) > 0);
        assert(l.contains(s[j]));
    }
}

proof fn lemma_gathered_lines_filled<S: Scalar>(
    l: Seq<LineModel<S>>,
    labels: Seq<usize>,
    n: int,
)
    requires
        lines_filled(l),
        0 <= n <= l.len(),
    ensures
        forall|k: int|
            0 <= k < gathered(l, labels, n).len() ==> lines_filled(
                (#[trigger] gathered(l, labels, n)[k]).lines,
            ),
    decreases n,
{
    if n > 0 {
        lemma_gathered_lines_filled(l, labels, n - 1);
        let before = gathered(l, labels, n - 1);
        let now = gathered(l, labels, n);
        let at = group_for(before, labels[n - 1], 0);
        assert forall|k: int| 0 <= k < now.len() implies lines_filled((#[trigger] now[k]).lines) by {
            if 0 <= at < before.len() && k == at {
                let was = before[k].lines;
                assert(lines_filled(was));
                assert(now[k].lines == was.push(l[n - 1]));
            } else if k < before.len() {
                assert(now[k] == before[k]);
            }
        }
    }
}

proof fn lemma_sorted_groups_filled<S: Scalar>(groups: Seq<Group<S>>, i: int)
    requires
        forall|k: int| 0 <= k < groups.len() ==> lines_filled((#[trigger] groups[k]).lines),
        0 <= i < groups.len(),
    ensures
        lines_filled(sorting::sorted_by(groups, group_above())[i].lines),
{
    broadcast use vstd::seq_lib::group_to_multiset_ensures;

    let s = sorting::sorted_by(groups, group_above::<S>());
    sorting::lemma_sorted_keeps_elements(groups, group_above::<S>());
    assert(s.contains(s[i]));
    assert(s.to_multiset().count(s[i]) > 0);
    assert(groups.contains(s[i]));
}

proof fn lemma_cut_tree_lines_filled<S: Scalar>(
    g: Seq<PlacedGlyph<S>>,
    r: Seq<Rule<S>>,
    depth: nat,
    i: int,
)
    requires
        0 <= i < cut_tree(g, r, depth).len(),
    ensures
        lines_filled(cut_tree(g, r, depth)[i].lines),
    decreases MAX_DEPTH - depth,
{
    let l = lines::assembled(g);
    assert(lines_filled(l)) by {
        assert forall|j: int| 0 <= j < l.len() implies (#[trigger] l[j]).glyphs.len() > 0 by {
            lines::law_no_line_is_empty(g, j);
        }
    }
    if depth >= MAX_DEPTH || g.len() < MIN_TO_CUT {
        lemma_block_lines_filled(l, Origin::XyCut);
    } else {
        match division(g, r) {
            Some((axis, at)) => {
                let a = cut_tree(half(g, axis, at, true), r, depth + 1);
                if i < a.len() {
                    lemma_cut_tree_lines_filled(half(g, axis, at, true), r, depth + 1, i);
                } else {
                    lemma_cut_tree_lines_filled(
                        half(g, axis, at, false),
                        r,
                        depth + 1,
                        i - a.len(),
                    );
                }
            },
            None => {
                if l.len() >= MIN_TO_CLUSTER && scattered(l) {
                    let labels = grouping::grouped(l.len(), lines_near(l));
                    let groups = gathered(l, labels, l.len() as int);
                    let c = clusters(l);
                    lemma_gathered_lines_filled(l, labels, l.len() as int);
                    lemma_cluster_blocks(c, c.len() as int);
                    sorting::lemma_sorted_keeps_elements(groups, group_above::<S>());
                    lemma_sorted_groups_filled(groups, i);
                    lemma_block_lines_filled(c[i].lines, Origin::Docstrum);
                } else {
                    lemma_block_lines_filled(l, Origin::Whole);
                }
            },
        }
    }
}

/// No line of a region is empty.
pub proof fn law_no_region_line_is_empty<S: Scalar>(
    g: Seq<PlacedGlyph<S>>,
    r: Seq<Rule<S>>,
    i: int,
    j: int,
)
    requires
        0 <= i < detected(g, r).len(),
        0 <= j < detected(g, r)[i].lines.len(),
    ensures
        detected(g, r)[i].lines[j].glyphs.len() > 0,
{
    lemma_cut_tree_lines_filled(g, r, 0, i);
}

/// No region is empty, and regions are numbered in reading order.
pub proof fn law_regions_are_filled_and_numbered<S: Scalar>(
    g: Seq<PlacedGlyph<S>>,
    r: Seq<Rule<S>>,
    i: int,
)
    requires
        0 <= i < detected(g, r).len(),
    ensures
        detected(g, r)[i].lines.len() > 0,
        detected(g, r)[i].order == i,
{
    lemma_cut_tree_filled(g, r, 0, i);
}

/// The text of lines after which others come is the text of the first, a line
/// feed, and the text of the others.
pub proof fn law_rows_stand_on_lines_of_their_own<S: Scalar>(
    a: Seq<LineModel<S>>,
    b: Seq<LineModel<S>>,
)
    requires
        a.len() > 0,
        b.len() > 0,
    ensures
        rows_text(a + b, (a.len() + b.len()) as int) == rows_text(a, a.len() as int) + seq!['\n']
            + rows_text(b, b.len() as int),
    decreases b.len(),
{
    let all = a + b;
    let n = all.len() as int;
    let start = rows_text(a, a.len() as int);
    if b.len() == 1 {
        lemma_rows_prefix(all, a, a.len() as int);
        assert(all[n - 1] == b[0]);
        assert(start.push('\n') + words::spaced_text(b[0].glyphs) =~= start + seq!['\n']
            + words::spaced_text(b[0].glyphs));
    } else {
        let front = b.drop_last();
        law_rows_stand_on_lines_of_their_own(a, front);
        lemma_rows_prefix(all, a + front, n - 1);
        lemma_rows_prefix(b, front, b.len() - 1);
        assert(all[n - 1] == b[b.len() - 1]);
        let t = words::spaced_text(b[b.len() - 1].glyphs);
        let r = rows_text(front, front.len() as int);
        assert((start + seq!['\n'] + r).push('\n') + t =~= start + seq!['\n'] + (r.push('\n') + t));
    }
}

/// The text of one line is the line's own.
pub proof fn law_one_row_is_its_line<S: Scalar>(l: LineModel<S>)
    ensures
        rows_text(seq![l], 1) == words::spaced_text(l.glyphs),
{
}

proof fn lemma_rows_prefix<S: Scalar>(l: Seq<LineModel<S>>, m: Seq<LineModel<S>>, n: int)
    requires
        0 <= n <= l.len(),
        n <= m.len(),
        forall|i: int| 0 <= i < n ==> l[i] == #[trigger] m[i],
    ensures
        rows_text(l, n) == rows_text(m, n),
    decreases n,
{
    if n > 0 {
        lemma_rows_prefix(l, m, n - 1);
        assert(l[n - 1] == m[n - 1]);
        assert(l[0] == m[0]);
    }
}

proof fn lemma_block_form<S: Scalar>(
    g: Seq<PlacedGlyph<S>>,
    r: Seq<Rule<S>>,
    depth: nat,
    i: int,
) -> (l: Seq<LineModel<S>>)
    requires
        0 <= i < cut_tree(g, r, depth).len(),
    ensures
        cut_tree(g, r, depth)[i] == block_of(l, cut_tree(g, r, depth)[i].origin),
    decreases MAX_DEPTH - depth,
{
    if depth >= MAX_DEPTH || g.len() < MIN_TO_CUT {
        lines::assembled(g)
    } else {
        match division(g, r) {
            Some((axis, at)) => {
                let a = cut_tree(half(g, axis, at, true), r, depth + 1);
                if i < a.len() {
                    lemma_block_form(half(g, axis, at, true), r, depth + 1, i)
                } else {
                    lemma_block_form(half(g, axis, at, false), r, depth + 1, i - a.len())
                }
            },
            None => {
                let l = lines::assembled(g);
                if l.len() >= MIN_TO_CLUSTER && scattered(l) {
                    let c = clusters(l);
                    lemma_cluster_blocks(c, c.len() as int);
                    c[i].lines
                } else {
                    l
                }
            },
        }
    }
}

/// The lines of a region are read down the page: no line's baseline is before
/// that of an earlier one, and on one baseline the line further left comes
/// first.
pub proof fn law_region_lines_go_down_the_page<S: Scalar>(
    g: Seq<PlacedGlyph<S>>,
    r: Seq<Rule<S>>,
    k: int,
    i: int,
    j: int,
)
    requires
        scalar::orderly::<S>(),
        0 <= k < detected(g, r).len(),
        0 <= i < j < detected(g, r)[k].lines.len(),
    ensures
        ({
            let l = detected(g, r)[k].lines;
            &&& l[i].baseline.spec_le(l[j].baseline)
            &&& l[i].baseline == l[j].baseline ==> l[i].bbox.x0.spec_le(l[j].bbox.x0)
        }),
{
    let source = lemma_block_form(g, r, 0, k);
    lemma_line_above_orders::<S>();
    sorting::lemma_sorted_is_in_order(source, line_above::<S>());
    let l = detected(g, r)[k].lines;
    assert(l == sorting::sorted_by(source, line_above::<S>()));
    let less = line_above::<S>();
    assert(!less(l[j], l[i]));
    scalar::lemma_order(l[j].baseline, l[i].baseline, l[j].baseline);
    scalar::lemma_order(l[i].baseline, l[j].baseline, l[i].baseline);
    scalar::lemma_order(l[j].bbox.x0, l[i].bbox.x0, l[j].bbox.x0);
}

proof fn lemma_line_above_orders<S: Scalar>()
    requires
        scalar::orderly::<S>(),
    ensures
        sorting::strict_weak_order(line_above::<S>()),
{
    let less = line_above::<S>();
    assert forall|a: LineModel<S>| !#[trigger] less(a, a) by {
        scalar::lemma_order(a.baseline, a.baseline, a.baseline);
        scalar::lemma_order(a.bbox.x0, a.bbox.x0, a.bbox.x0);
    }
    assert forall|a: LineModel<S>, b: LineModel<S>, c: LineModel<S>| #[trigger]
        less(a, b) && #[trigger] less(b, c) implies less(a, c) by {
        scalar::lemma_order(a.baseline, b.baseline, c.baseline);
        scalar::lemma_order(b.baseline, a.baseline, a.baseline);
        scalar::lemma_order(c.baseline, b.baseline, b.baseline);
        scalar::lemma_order(c.baseline, a.baseline, b.baseline);
        scalar::lemma_order(a.bbox.x0, b.bbox.x0, c.bbox.x0);
    }
    assert forall|a: LineModel<S>, b: LineModel<S>, c: LineModel<S>| !#[trigger] less(a, b)
        && !#[trigger] less(b, c) implies !less(a, c) by {
        scalar::lemma_order(a.baseline, b.baseline, c.baseline);
        scalar::lemma_order(c.baseline, b.baseline, a.baseline);
        scalar::lemma_order(b.baseline, a.baseline, c.baseline);
        scalar::lemma_order(b.baseline, c.baseline, a.baseline);
        scalar::lemma_order(a.baseline, c.baseline, b.baseline);
        scalar::lemma_order(c.baseline, a.baseline, b.baseline);
        scalar::lemma_order(c.bbox.x0, b.bbox.x0, a.bbox.x0);
        scalar::lemma_order(a.bbox.x0, b.bbox.x0, c.bbox.x0);
        scalar::lemma_order(b.bbox.x0, c.bbox.x0, a.bbox.x0);
        scalar::lemma_order(a.bbox.x0, c.bbox.x0, b.bbox.x0);
    }
}

/// A region's box encloses the boxes of its lines, as far as they are places,
/// and lies in every rectangle that does.
pub proof fn law_a_regions_box_encloses_its_lines<S: Scalar>(
    g: Seq<PlacedGlyph<S>>,
    r: Seq<Rule<S>>,
    k: int,
    outer: Rect<S>,
)
    requires
        scalar::orderly::<S>(),
        0 <= k < detected(g, r).len(),
    ensures
        ({
            let region = detected(g, r)[k];
            let placed = |i: int|
                0 <= i < region.lines.len() && region.lines[i].bbox.x0.spec_finite();
            &&& forall|i: int| #[trigger]
                placed(i) ==> crate::geometry::encloses(region.bbox, region.lines[i].bbox)
            &&& (exists|i: int| #[trigger] placed(i)) && (forall|i: int| #[trigger]
                placed(i) ==> crate::geometry::encloses(outer, region.lines[i].bbox))
                ==> crate::geometry::encloses(outer, region.bbox)
        }),
{
    let source = lemma_block_form(g, r, 0, k);
    let region = detected(g, r)[k];
    assert(region.bbox == bounds_of(region.lines));
    let placed = |i: int| 0 <= i < region.lines.len() && region.lines[i].bbox.x0.spec_finite();
    lemma_line_bound(region.lines, region.lines.len() as int, outer);
    assert forall|i: int| #[trigger] placed(i) implies crate::geometry::encloses(
        region.bbox,
        region.lines[i].bbox,
    ) by {}
    if (exists|i: int| #[trigger] placed(i)) && (forall|i: int| #[trigger]
        placed(i) ==> crate::geometry::encloses(outer, region.lines[i].bbox)) {
        let i = choose|i: int| #[trigger] placed(i);
        assert(line_bound(region.lines, region.lines.len() as int) is Some);
        assert forall|i: int|
            0 <= i < region.lines.len() && (#[trigger] region.lines[i]).bbox.x0.spec_finite()
            implies crate::geometry::encloses(outer, region.lines[i].bbox) by {
            assert(placed(i));
        }
    }
}

proof fn lemma_line_bound<S: Scalar>(l: Seq<LineModel<S>>, n: int, outer: Rect<S>)
    requires
        scalar::orderly::<S>(),
        0 <= n <= l.len(),
    ensures
        forall|i: int|
            0 <= i < n && (#[trigger] l[i]).bbox.x0.spec_finite() ==> (line_bound(l, n) matches Some(
                b,
            ) && crate::geometry::encloses(b, l[i].bbox)),
        line_bound(l, n) matches Some(b) ==> ((forall|i: int|
            0 <= i < n && (#[trigger] l[i]).bbox.x0.spec_finite() ==> crate::geometry::encloses(
                outer,
                l[i].bbox,
            )) ==> crate::geometry::encloses(outer, b)),
    decreases n,
{
    if n > 0 {
        lemma_line_bound(l, n - 1, outer);
        let x = l[n - 1].bbox;
        let none = Rect::<S>::spec_inverted();
        if x.x0.spec_finite() {
            let before = match line_bound(l, n - 1) {
                Some(b) => b,
                None => none,
            };
            crate::geometry::law_a_union_is_the_smallest_around_both(before, x, outer);
            let after = before.spec_union(x);
            assert(line_bound(l, n) == Some(after));
            assert(crate::geometry::encloses(outer, none));
            assert forall|i: int| 0 <= i < n && (#[trigger] l[i]).bbox.x0.spec_finite() implies
                crate::geometry::encloses(after, l[i].bbox) by {
                if i < n - 1 {
                    scalar::lemma_order(after.x0, before.x0, l[i].bbox.x0);
                    scalar::lemma_order(after.y0, before.y0, l[i].bbox.y0);
                    scalar::lemma_order(l[i].bbox.x1, before.x1, after.x1);
                    scalar::lemma_order(l[i].bbox.y1, before.y1, after.y1);
                }
            }
        }
    }
}

/// Where a page is cut, the blocks on the first side all come before those on
/// the second: every glyph of an earlier block has its middle before the cut,
/// and none of a later one has.
pub proof fn law_a_cut_reads_the_first_side_first<S: Scalar>(
    g: Seq<PlacedGlyph<S>>,
    r: Seq<Rule<S>>,
    axis: Axis,
    at: S,
)
    requires
        g.len() >= 2,
        division(g, r) == Some((axis, at)),
    ensures
        exists|m: int|
            0 <= m <= detected(g, r).len() && #[trigger] parted(detected(g, r), axis, at, m),
{
    let a = cut_tree(half(g, axis, at, true), r, 1);
    let b = cut_tree(half(g, axis, at, false), r, 1);
    let all = detected(g, r);
    assert(cut_tree(g, r, 0) == a + b);
    let m = a.len() as int;
    assert forall|k: int, i: int, j: int|
        0 <= k < all.len() && 0 <= i < all[k].lines.len() && 0 <= j
            < all[k].lines[i].glyphs.len() implies middle_before(
        #[trigger] all[k].lines[i].glyphs[j],
        axis,
        at,
    ) == (k < m) by {
        let x = all[k].lines[i].glyphs[j];
        if k < m {
            lemma_block_glyph(half(g, axis, at, true), r, 1, k, i, j);
            lemma_half_member(g, axis, at, true, g.len() as int, x);
        } else {
            lemma_block_glyph(half(g, axis, at, false), r, 1, k - m, i, j);
            lemma_half_member(g, axis, at, false, g.len() as int, x);
        }
    }
    assert(parted(all, axis, at, m));
}

/// Whether the middle of a glyph's box is before a cut.
pub open spec fn middle_before<S: Scalar>(g: PlacedGlyph<S>, axis: Axis, at: S) -> bool {
    let b = lines::with_glyph(Rect::<S>::spec_inverted(), g);
    let two = S::spec_ratio(2, 1);
    match axis {
        Axis::Horizontal => b.y0.spec_plus(b.y1).spec_over(two).spec_lt(at),
        Axis::Vertical => b.x0.spec_plus(b.x1).spec_over(two).spec_lt(at),
    }
}

/// Whether the first `m` blocks lie before a cut and the others do not.
pub open spec fn parted<S: Scalar>(
    blocks: Seq<RegionModel<S>>,
    axis: Axis,
    at: S,
    m: int,
) -> bool {
    forall|k: int, i: int, j: int|
        0 <= k < blocks.len() && 0 <= i < blocks[k].lines.len() && 0 <= j
            < blocks[k].lines[i].glyphs.len() ==> middle_before(
            #[trigger] blocks[k].lines[i].glyphs[j],
            axis,
            at,
        ) == (k < m)
}

proof fn lemma_half_member<S: Scalar>(
    g: Seq<PlacedGlyph<S>>,
    axis: Axis,
    at: S,
    first: bool,
    n: int,
    x: PlacedGlyph<S>,
)
    requires
        0 <= n <= g.len(),
        on_side(g, axis, at, first, n).contains(x),
    ensures
        first_side(x, axis, at) == first,
        g.contains(x),
    decreases n,
{
    let own = on_side(g, axis, at, first, n);
    let q = choose|q: int| 0 <= q < own.len() && own[q] == x;
    if n > 0 {
        let before = on_side(g, axis, at, first, n - 1);
        if q < before.len() {
            assert(before[q] == x);
            lemma_half_member(g, axis, at, first, n - 1, x);
        } else {
            assert(g[n - 1] == x);
        }
    }
}

/// The glyphs of a line are among those of all lines.
pub proof fn lemma_spread_member<S>(l: Seq<LineModel<S>>, i: int, j: int)
    requires
        0 <= i < l.len(),
        0 <= j < l[i].glyphs.len(),
    ensures
        spread_glyphs(l).contains(l[i].glyphs[j]),
    decreases l.len(),
{
    let front = spread_glyphs(l.drop_last());
    if i < l.len() - 1 {
        lemma_spread_member(l.drop_last(), i, j);
        let q = choose|q: int| 0 <= q < front.len() && front[q] == l[i].glyphs[j];
        assert(spread_glyphs(l)[q] == l[i].glyphs[j]);
    } else {
        assert(spread_glyphs(l)[front.len() + j] == l[i].glyphs[j]);
    }
}

proof fn lemma_block_glyph<S: Scalar>(
    g: Seq<PlacedGlyph<S>>,
    r: Seq<Rule<S>>,
    depth: nat,
    k: int,
    i: int,
    j: int,
)
    requires
        0 <= k < cut_tree(g, r, depth).len(),
        0 <= i < cut_tree(g, r, depth)[k].lines.len(),
        0 <= j < cut_tree(g, r, depth)[k].lines[i].glyphs.len(),
    ensures
        g.contains(cut_tree(g, r, depth)[k].lines[i].glyphs[j]),
{
    broadcast use vstd::seq_lib::group_to_multiset_ensures;

    let b = cut_tree(g, r, depth);
    let x = b[k].lines[i].glyphs[j];
    lemma_cut_tree_keeps_glyphs(g, r, depth);
    lemma_spread_member(b[k].lines, i, j);
    partition::lemma_pooled_member(b, region_glyphs::<S>(), k, x);
    assert(g.to_multiset().count(x) > 0);
}

/// The cut that no rule suggests: it needs an empty band over one and a half
/// line heights between top and bottom, or four fifths of a character width
/// between left and right. Where there are both, the one between columns is
/// taken unless the other is more than half again as wide for its kind.
pub proof fn law_a_cut_needs_a_wide_band<S: Scalar>(g: Seq<PlacedGlyph<S>>)
    ensures
        ({
            let height = stats::median_of(lines::sizes(g)).spec_greatest(S::spec_ratio(1, 1));
            let width = stats::median_of(advances(g, g.len() as int)).spec_greatest(
                height.spec_times(S::spec_ratio(1, 4)),
            );
            let tall = S::spec_ratio(3, 2).spec_times(height);
            let wide = S::spec_ratio(8, 10).spec_times(width);
            let rows = widest(g, Axis::Horizontal);
            let columns = widest(g, Axis::Vertical);
            let by_rows = rows matches Some(w) && tall.spec_lt(w.0);
            let by_columns = columns matches Some(w) && wide.spec_lt(w.0);
            let columns_win = (rows->0).0.spec_over(tall).spec_le(
                (columns->0).0.spec_over(wide).spec_times(S::spec_ratio(3, 2)),
            );
            cut_at(g) == if by_columns && (!by_rows || columns_win) {
                Some((Axis::Vertical, (columns->0).1))
            } else if by_rows {
                Some((Axis::Horizontal, (rows->0).1))
            } else {
                None
            }
        }),
{
}

/// Whether a number is how far some intervals reach.
pub open spec fn is_reach<S: Scalar>(s: Seq<(S, S)>, n: int, edge: S) -> bool {
    &&& forall|i: int| 0 <= i < n ==> (#[trigger] s[i]).1.spec_le(edge)
    &&& exists|i: int| 0 <= i < n && (#[trigger] s[i]).1 == edge
}

/// The band found is an empty one, from where the intervals before it end to
/// where the next begins, it is cut in its middle, and none is wider.
pub proof fn law_the_widest_band_is_found<S: Scalar>(s: Seq<(S, S)>, n: int)
    requires
        scalar::orderly::<S>(),
        1 <= n <= s.len(),
    ensures
        match gap_of(s, n) {
            Some((gap, at)) => {
                &&& S::spec_ratio(0, 1).spec_lt(gap)
                &&& exists|k: int, edge: S|
                    0 < k < n && #[trigger] is_reach(s, k, edge) && gap == s[k].0.spec_minus(edge)
                        && at == edge.spec_plus(gap.spec_over(S::spec_ratio(2, 1)))
                &&& forall|k: int, edge: S|
                    0 < k < n && #[trigger] is_reach(s, k, edge) ==> s[k].0.spec_minus(
                        edge,
                    ).spec_le(gap)
            },
            None => forall|k: int, edge: S|
                0 < k < n && #[trigger] is_reach(s, k, edge) ==> s[k].0.spec_minus(edge).spec_le(
                    S::spec_ratio(0, 1),
                ),
        },
    decreases n,
{
    if n > 1 {
        law_the_widest_band_is_found(s, n - 1);
        lemma_reach(s, n - 1);
        let edge = reach(s, n - 1);
        let gap = s[n - 1].0.spec_minus(edge);
        let none = S::spec_ratio(0, 1);
        scalar::lemma_order(none, gap, none);
        scalar::lemma_order(gap, none, gap);
        if let Some(best) = gap_of(s, n - 1) {
            scalar::lemma_order(best.0, gap, best.0);
            scalar::lemma_order(none, best.0, gap);
            let (k, e) = choose|k: int, e: S|
                0 < k < n - 1 && #[trigger] is_reach(s, k, e) && best.0 == s[k].0.spec_minus(e)
                    && best.1 == e.spec_plus(best.0.spec_over(S::spec_ratio(2, 1)));
            assert(is_reach(s, k, e));
            scalar::lemma_order(gap, best.0, gap);
            scalar::lemma_order(gap, none, best.0);
        }
        assert(is_reach(s, n - 1, edge));
        assert forall|k: int, e: S| 0 < k < n && #[trigger] is_reach(s, k, e) implies match gap_of(
            s,
            n,
        ) {
            Some(best) => s[k].0.spec_minus(e).spec_le(best.0),
            None => s[k].0.spec_minus(e).spec_le(none),
        } by {
            if k == n - 1 {
                lemma_reach_is_one(s, k, e, edge);
                scalar::lemma_order(gap, gap, gap);
            } else {
                if let Some(before) = gap_of(s, n - 1) {
                    scalar::lemma_order(s[k].0.spec_minus(e), before.0, gap);
                } else {
                    scalar::lemma_order(s[k].0.spec_minus(e), none, gap);
                }
            }
        }
    }
}

proof fn lemma_reach<S: Scalar>(s: Seq<(S, S)>, n: int)
    requires
        scalar::orderly::<S>(),
        1 <= n <= s.len(),
    ensures
        is_reach(s, n, reach(s, n)),
    decreases n,
{
    if n > 1 {
        lemma_reach(s, n - 1);
        let before = reach(s, n - 1);
        let x = s[n - 1].1;
        scalar::lemma_order(before, x, before);
        scalar::lemma_order(x, before, x);
        assert forall|i: int| 0 <= i < n implies (#[trigger] s[i]).1.spec_le(reach(s, n)) by {
            if i < n - 1 {
                scalar::lemma_order(s[i].1, before, x);
            }
        }
        let i = choose|i: int| 0 <= i < n - 1 && (#[trigger] s[i]).1 == before;
        assert(s[i].1 == reach(s, n) || s[n - 1].1 == reach(s, n));
    } else {
        scalar::lemma_order(s[0].1, s[0].1, s[0].1);
        assert(s[0].1 == reach(s, n));
    }
}

proof fn lemma_reach_is_one<S: Scalar>(s: Seq<(S, S)>, n: int, a: S, b: S)
    requires
        scalar::orderly::<S>(),
        is_reach(s, n, a),
        is_reach(s, n, b),
    ensures
        a == b,
{
    let i = choose|i: int| 0 <= i < n && (#[trigger] s[i]).1 == a;
    let j = choose|j: int| 0 <= j < n && (#[trigger] s[j]).1 == b;
    assert(s[i].1.spec_le(b) && s[j].1.spec_le(a));
    scalar::lemma_order(a, b, a);
}

/// Whether two lines belong together does not depend on which is looked at
/// first, and lines that do share a block.
pub proof fn law_near_lines_share_a_cluster<S: Scalar>(l: Seq<LineModel<S>>, i: int, j: int)
    requires
        scalar::orderly::<S>(),
        0 <= i < j < l.len(),
    ensures
        near(l[i], l[j]) == near(l[j], l[i]) || distance(l[i].bbox, l[j].bbox) != distance(
            l[j].bbox,
            l[i].bbox,
        ),
        near(l[i], l[j]) ==> grouping::grouped(l.len(), lines_near(l))[i] == grouping::grouped(
            l.len(),
            lines_near(l),
        )[j],
{
    let a = l[i];
    let b = l[j];
    scalar::lemma_order(a.bbox.x0, b.bbox.x0, a.bbox.x0);
    scalar::lemma_order(b.bbox.x0, a.bbox.x0, b.bbox.x0);
    scalar::lemma_order(a.bbox.x1, b.bbox.x1, a.bbox.x1);
    scalar::lemma_order(b.bbox.x1, a.bbox.x1, b.bbox.x1);
    scalar::lemma_order(a.size, b.size, a.size);
    scalar::lemma_order(b.size, a.size, b.size);
    if near(a, b) {
        grouping::lemma_close_items_share_a_group(l.len(), lines_near(l), i, j);
    }
}

/// The box around glyphs encloses the boxes of those that have a place, and lies
/// in every rectangle that does.
pub proof fn law_a_box_around_glyphs_encloses_theirs<S: Scalar>(
    g: Seq<PlacedGlyph<S>>,
    n: int,
    outer: Rect<S>,
)
    requires
        scalar::orderly::<S>(),
        0 <= n <= g.len(),
    ensures
        match glyph_bound(g, n) {
            Some(b) => {
                &&& forall|i: int|
                    0 <= i < n && box_of(#[trigger] g[i]).x0.spec_finite()
                        ==> crate::geometry::encloses(b, box_of(g[i]))
                &&& (forall|i: int|
                    0 <= i < n && box_of(#[trigger] g[i]).x0.spec_finite()
                        ==> crate::geometry::encloses(outer, box_of(g[i])))
                    ==> crate::geometry::encloses(outer, b)
            },
            None => forall|i: int|
                0 <= i < n ==> !box_of(#[trigger] g[i]).x0.spec_finite(),
        },
    decreases n,
{
    if n > 0 {
        law_a_box_around_glyphs_encloses_theirs(g, n - 1, outer);
        let b = box_of(g[n - 1]);
        let before = match glyph_bound(g, n - 1) {
            Some(r) => r,
            None => Rect::<S>::spec_inverted(),
        };
        crate::geometry::law_a_union_is_the_smallest_around_both(before, b, outer);
        if let Some(after) = glyph_bound(g, n) {
            assert forall|i: int|
                0 <= i < n && box_of(#[trigger] g[i]).x0.spec_finite()
                implies crate::geometry::encloses(after, box_of(g[i])) by {
                if i < n - 1 {
                    let own = box_of(g[i]);
                    scalar::lemma_order(after.x0, before.x0, own.x0);
                    scalar::lemma_order(after.y0, before.y0, own.y0);
                    scalar::lemma_order(own.x1, before.x1, after.x1);
                    scalar::lemma_order(own.y1, before.y1, after.y1);
                }
            }
        }
        assert(crate::geometry::encloses(outer, Rect::<S>::spec_inverted()));
    }
}

/// A region is cut at the first rule across it that has glyphs on both sides,
/// before any band of white is looked for.
pub proof fn law_a_rule_cuts_before_a_band<S: Scalar>(
    g: Seq<PlacedGlyph<S>>,
    r: Seq<Rule<S>>,
    k: int,
)
    requires
        ({
            let cuts = rules::cuts_of(r, glyphs_bounds(g), S::spec_ratio(6, 10));
            &&& 0 <= k < cuts.len()
            &&& cuts_glyphs(g, cuts[k])
            &&& forall|i: int| 0 <= i < k ==> !cuts_glyphs(g, #[trigger] cuts[i])
        }),
    ensures
        division(g, r) == Some(
            (
                Axis::Horizontal,
                rules::cuts_of(r, glyphs_bounds(g), S::spec_ratio(6, 10))[k],
            ),
        ),
{
    let cuts = rules::cuts_of(r, glyphs_bounds(g), S::spec_ratio(6, 10));
    lemma_first_cut(g, cuts, 0, k);
}

/// Whether glyphs stand on both sides of a height, by the middles of their
/// boxes.
pub open spec fn cuts_glyphs<S: Scalar>(g: Seq<PlacedGlyph<S>>, at: S) -> bool {
    &&& exists|i: int| 0 <= i < g.len() && stands_above(#[trigger] g[i], at)
    &&& exists|i: int| 0 <= i < g.len() && !stands_above(#[trigger] g[i], at)
}

/// Whether the middle of a glyph's box is above a height.
pub open spec fn stands_above<S: Scalar>(g: PlacedGlyph<S>, at: S) -> bool {
    box_of(g).y0.spec_plus(box_of(g).y1).spec_over(S::spec_ratio(2, 1)).spec_lt(at)
}

proof fn lemma_first_cut<S: Scalar>(g: Seq<PlacedGlyph<S>>, cuts: Seq<S>, from: int, k: int)
    requires
        0 <= from <= k < cuts.len(),
        cuts_glyphs(g, cuts[k]),
        forall|i: int| from <= i < k ==> !cuts_glyphs(g, #[trigger] cuts[i]),
    ensures
        first_dividing(g, cuts, from) == Some(cuts[k]),
    decreases k - from,
{
    lemma_cuts_glyphs(g, cuts[from]);
    if from < k {
        lemma_first_cut(g, cuts, from + 1, k);
    }
}

proof fn lemma_cuts_glyphs<S: Scalar>(g: Seq<PlacedGlyph<S>>, at: S)
    ensures
        divides(g, Axis::Horizontal, at) == cuts_glyphs(g, at),
{
    assert forall|i: int| 0 <= i < g.len() implies first_side(
        #[trigger] g[i],
        Axis::Horizontal,
        at,
    ) == stands_above(g[i], at) by {}
}

/// One glyph is one block, of its one line.
pub proof fn law_one_glyph_is_one_block<S: Scalar>(
    g: Seq<PlacedGlyph<S>>,
    r: Seq<Rule<S>>,
    depth: nat,
)
    requires
        g.len() == 1,
    ensures
        cut_tree(g, r, depth) == seq![block_of(lines::assembled(g), Origin::XyCut)],
{
}

} // verus!
