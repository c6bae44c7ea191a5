//! Line assembly.
//!
//! Glyphs are clustered into lines by baseline in device space, not in text
//! space: rotated and skewed text must still form lines. Each glyph is described
//! by two numbers: `tangent`, how far along its own baseline it sits, and
//! `normal`, its perpendicular offset, which is constant along a baseline.

use vstd::multiset::Multiset;
use vstd::prelude::*;

use crate::content::Span;
use crate::extract::ResolvedRun;
use crate::geometry::{Point, Rect};
use crate::partition;
use crate::scalar;
use crate::scalar::Scalar;
use crate::sorting;
use crate::stats;
use crate::text;
use crate::unicode::Strategy;

verus! {

/// One glyph, placed in device space and traceable back to its operator.
#[derive(Debug)]
pub struct PlacedGlyph<S> {
    /// Resolved text. `None` means the derivation chain could not map it.
    pub text: Option<String>,
    pub code: u32,
    pub strategy: Strategy,
    /// Device-space origin.
    pub origin: Point<S>,
    /// Advance along the baseline, in device space.
    pub advance: S,
    /// Effective font size in device space.
    pub size: S,
    /// Baseline direction, radians.
    pub direction: S,
    /// Distance along the baseline. Orders glyphs within a line.
    pub tangent: S,
    /// Perpendicular offset. Constant along a baseline.
    pub normal: S,
    /// Non-zero for an explicitly raised or lowered glyph.
    pub rise: S,
    /// Which run this came from, and where in it.
    pub run: usize,
    pub index: usize,
    /// Byte range within the showing operator's string.
    pub span: Span,
}

/// Baselines closer than this fraction of the font size are the same line.
pub open spec fn baseline_tolerance<S: Scalar>() -> S {
    S::spec_ratio(3, 10)
}

/// Baseline directions within this many radians are the same direction.
pub open spec fn direction_tolerance<S: Scalar>() -> S {
    S::spec_ratio(1, 100)
}

/// A size below this fraction of the line's reads as a super- or subscript.
pub open spec fn script_size<S: Scalar>() -> S {
    S::spec_ratio(8, 10)
}

/// How far off the baseline, in font sizes, a super- or subscript may sit.
pub open spec fn script_offset<S: Scalar>() -> S {
    S::spec_ratio(6, 10)
}

/// Sizes within this distance are the same size.
pub open spec fn size_tolerance<S: Scalar>() -> S {
    S::spec_ratio(5, 100)
}

impl<S: Scalar> PlacedGlyph<S> {
    /// Whether the glyph has text.
    pub fn is_mapped(&self) -> (r: bool)
        ensures
            r == (self.text is Some),
    {
        self.text.is_some()
    }

    /// Whether `Ts` raises or lowers the glyph.
    pub open spec fn shifted(self) -> bool {
        scalar::epsilon::<S>().spec_lt(self.rise.spec_magnitude())
    }

    /// True when this glyph sits off its line's baseline because `Ts` says so. That
    /// one sits off it because it is small and offset, its line tells: see
    /// [`Line::is_shifted`].
    pub fn is_shifted(&self) -> (r: bool)
        ensures
            r == self.shifted(),
    {
        scalar::epsilon_of::<S>().lt(self.rise.magnitude())
    }

    /// A glyph equal to this one.
    pub fn copy(&self) -> (r: PlacedGlyph<S>)
        ensures
            r == *self,
    {
        PlacedGlyph {
            text: match &self.text {
                Some(t) => Some(t.clone()),
                None => None,
            },
            code: self.code,
            strategy: self.strategy,
            origin: self.origin,
            advance: self.advance,
            size: self.size,
            direction: self.direction,
            tangent: self.tangent,
            normal: self.normal,
            rise: self.rise,
            run: self.run,
            index: self.index,
            span: self.span,
        }
    }
}

/// A visual line: glyphs sharing a baseline, in reading order along it.
#[derive(Debug)]
pub struct Line<S> {
    pub glyphs: Vec<PlacedGlyph<S>>,
    /// Perpendicular position of the baseline in device space.
    pub baseline: S,
    /// Baseline direction in radians. Zero for ordinary horizontal text.
    pub direction: S,
    /// Modal font size of the line's glyphs.
    pub size: S,
    pub bbox: Rect<S>,
}

/// What a line says.
#[verifier::ext_equal]
pub struct LineModel<S> {
    pub glyphs: Seq<PlacedGlyph<S>>,
    pub baseline: S,
    pub direction: S,
    pub size: S,
    pub bbox: Rect<S>,
}

impl<S> View for Line<S> {
    type V = LineModel<S>;

    open spec fn view(&self) -> LineModel<S> {
        LineModel {
            glyphs: self.glyphs@,
            baseline: self.baseline,
            direction: self.direction,
            size: self.size,
            bbox: self.bbox,
        }
    }
}

/// What a list of lines says.
pub open spec fn line_models<S>(v: Seq<Line<S>>) -> Seq<LineModel<S>> {
    Seq::new(v.len(), |i: int| v[i]@)
}

/// The text of the first `n` glyphs, unresolved ones left out.
pub open spec fn glyphs_text<S>(g: Seq<PlacedGlyph<S>>, n: int) -> Seq<char>
    decreases n,
{
    if n <= 0 {
        Seq::empty()
    } else {
        glyphs_text(g, n - 1) + match g[n - 1].text {
            Some(t) => t@,
            None => Seq::empty(),
        }
    }
}

impl<S: Scalar> LineModel<S> {
    /// Where the line starts along its own baseline.
    pub open spec fn start(self) -> S {
        if self.glyphs.len() > 0 {
            self.glyphs[0].tangent
        } else {
            scalar::zero::<S>()
        }
    }

    /// Where the line starts and ends along its own baseline.
    pub open spec fn spec_extent(self) -> (S, S) {
        (
            self.start(),
            if self.glyphs.len() > 0 {
                self.glyphs.last().tangent.spec_plus(self.glyphs.last().advance)
            } else {
                self.start()
            },
        )
    }

    /// Whether a glyph sits off the line's baseline: `Ts` says so, or it is small
    /// beside the line and offset.
    pub open spec fn shifts(self, g: PlacedGlyph<S>) -> bool {
        g.shifted() || (g.size.spec_lt(self.size.spec_times(script_size::<S>()))
            && scalar::epsilon::<S>().spec_lt(
            g.normal.spec_minus(self.baseline).spec_magnitude(),
        ))
    }

    /// The order of lines: down the page, then along.
    pub open spec fn above(self, other: LineModel<S>) -> bool {
        self.baseline.spec_lt(other.baseline) || (!other.baseline.spec_lt(self.baseline)
            && self.start().spec_lt(other.start()))
    }
}

impl<S: Scalar> Line<S> {
    /// The line's text, unresolved glyphs omitted.
    pub fn text(&self) -> (r: String)
        ensures
            r@ == glyphs_text(self.glyphs@, self.glyphs@.len() as int),
    {
        let mut out = String::new();
        let mut i: usize = 0;
        while i < self.glyphs.len()
            invariant
                i <= self.glyphs@.len(),
                out@ == glyphs_text(self.glyphs@, i as int),
            decreases self.glyphs@.len() - i,
        {
            let ghost before = out@;
            match &self.glyphs[i].text {
                Some(t) => {
                    text::append(&mut out, t.as_str());
                },
                None => {
                    assert(before + Seq::<char>::empty() =~= before);
                },
            }
            i += 1;
        }
        out
    }

    /// True when a glyph sits off the line's baseline, either because `Ts` says so
    /// or because it is small and offset.
    pub fn is_shifted(&self, glyph: &PlacedGlyph<S>) -> (r: bool)
        ensures
            r == self@.shifts(*glyph),
    {
        glyph.is_shifted() || (glyph.size.lt(self.size.times(S::ratio(8, 10)))
            && scalar::epsilon_of::<S>().lt(glyph.normal.minus(self.baseline).magnitude()))
    }

    /// Whether the line has no glyphs.
    pub fn is_empty(&self) -> (r: bool)
        ensures
            r == (self.glyphs@.len() == 0),
    {
        self.glyphs.len() == 0
    }

    /// Where the line starts and ends along its own baseline.
    pub fn extent(&self) -> (r: (S, S))
        ensures
            r == self@.spec_extent(),
    {
        let n: usize = self.glyphs.len();
        if n == 0 {
            (scalar::zero_of::<S>(), scalar::zero_of::<S>())
        } else {
            (self.glyphs[0].tangent, self.glyphs[n - 1].tangent.plus(self.glyphs[n - 1].advance))
        }
    }

    /// True when the line is horizontal in device space.
    pub fn is_horizontal(&self) -> (r: bool)
        ensures
            r == self.direction.spec_magnitude().spec_lt(direction_tolerance::<S>()),
    {
        self.direction.magnitude().lt(S::ratio(1, 100))
    }

    /// A line equal to this one.
    pub fn copy(&self) -> (r: Line<S>)
        ensures
            r@ == self@,
    {
        Line {
            glyphs: copy_glyphs(&self.glyphs),
            baseline: self.baseline,
            direction: self.direction,
            size: self.size,
            bbox: self.bbox,
        }
    }
}

/// Glyphs equal to these.
pub fn copy_glyphs<S: Scalar>(glyphs: &Vec<PlacedGlyph<S>>) -> (r: Vec<PlacedGlyph<S>>)
    ensures
        r@ == glyphs@,
{
    let mut out: Vec<PlacedGlyph<S>> = Vec::new();
    let mut i: usize = 0;
    while i < glyphs.len()
        invariant
            i <= glyphs@.len(),
            out@ == glyphs@.take(i as int),
        decreases glyphs@.len() - i,
    {
        out.push(glyphs[i].copy());
        i += 1;
        assert(out@ =~= glyphs@.take(i as int));
    }
    assert(out@ =~= glyphs@);
    out
}

/// The direction of a run's baseline. In vertical writing it runs down the
/// page, a quarter turn from what the rendering matrix says.
pub open spec fn run_direction<S: Scalar>(r: ResolvedRun<S>) -> S {
    if r.run.vertical {
        r.run.rotation.spec_plus(scalar::pi::<S>().spec_over(S::spec_ratio(2, 1)))
    } else {
        r.run.rotation
    }
}

/// A run's font size as it appears on the page.
pub open spec fn run_size<S: Scalar>(r: ResolvedRun<S>) -> S {
    if r.run.scale_y.spec_finite() && scalar::zero::<S>().spec_lt(r.run.scale_y) {
        r.run.scale_y
    } else {
        r.run.size
    }
}

/// The factor from text-space to device-space advances: the rendering matrix
/// with the font size and, for horizontal writing, the horizontal scale divided
/// back out.
pub open spec fn advance_ratio<S: Scalar>(r: ResolvedRun<S>) -> S {
    let params = if r.run.vertical {
        r.run.size
    } else {
        r.run.size.spec_times(r.run.horizontal_scale.spec_over(S::spec_ratio(100, 1)))
    };
    let scale = if r.run.vertical {
        r.run.scale_y
    } else {
        r.run.scale_x
    };
    if scalar::epsilon::<S>().spec_lt(params.spec_magnitude()) && scale.spec_finite() {
        scale.spec_over(params)
    } else {
        scalar::one::<S>()
    }
}

/// A glyph of a run, placed.
pub open spec fn placed_glyph<S: Scalar>(r: ResolvedRun<S>, run: usize, i: int) -> PlacedGlyph<S> {
    let g = r.run.glyphs@[i];
    let p = g.origin;
    let direction = run_direction(r);
    let (sin, cos) = (direction.spec_sine(), direction.spec_cosine());
    PlacedGlyph {
        text: if i < r.text@.len() {
            r.text@[i]
        } else {
            None
        },
        code: g.code,
        strategy: if i < r.strategies@.len() {
            r.strategies@[i]
        } else {
            Strategy::Failed
        },
        origin: p,
        advance: g.advance.spec_times(advance_ratio(r)),
        size: run_size(r),
        direction,
        tangent: p.x.spec_times(cos).spec_plus(p.y.spec_times(sin)),
        normal: p.x.spec_neg().spec_times(sin).spec_plus(p.y.spec_times(cos)),
        rise: r.run.rise,
        run,
        index: i as usize,
        span: g.span,
    }
}

/// The glyphs of a run, placed.
pub open spec fn placed_run<S: Scalar>(r: ResolvedRun<S>, run: usize) -> Seq<PlacedGlyph<S>> {
    Seq::new(r.run.glyphs@.len(), |i: int| placed_glyph(r, run, i))
}

/// The glyphs of the first `n` runs, placed.
pub open spec fn placed_runs<S: Scalar>(runs: Seq<ResolvedRun<S>>, n: int) -> Seq<PlacedGlyph<S>>
    decreases n,
{
    if n <= 0 {
        Seq::empty()
    } else {
        placed_runs(runs, n - 1) + placed_run(runs[n - 1], (n - 1) as usize)
    }
}

/// Flatten resolved runs into device-space glyphs.
///
/// Device advances are derived from the rendering matrix, never measured from
/// the distance between consecutive origins: an adjustment between two glyphs
/// would inflate that distance, and the gap that it created would vanish.
pub fn place<S: Scalar>(runs: &Vec<ResolvedRun<S>>) -> (r: Vec<PlacedGlyph<S>>)
    ensures
        r@ == placed_runs(runs@, runs@.len() as int),
{
    let mut out: Vec<PlacedGlyph<S>> = Vec::new();
    let mut k: usize = 0;
    while k < runs.len()
        invariant
            k <= runs@.len(),
            out@ == placed_runs(runs@, k as int),
        decreases runs@.len() - k,
    {
        let resolved = &runs[k];
        let run = &resolved.run;
        let direction = if run.vertical {
            run.rotation.plus(scalar::pi_of::<S>().over(S::ratio(2, 1)))
        } else {
            run.rotation
        };
        let sin = direction.sine();
        let cos = direction.cosine();
        let device_size = if run.scale_y.finite() && scalar::zero_of::<S>().lt(run.scale_y) {
            run.scale_y
        } else {
            run.size
        };
        let params = if run.vertical {
            run.size
        } else {
            run.size.times(run.horizontal_scale.over(S::ratio(100, 1)))
        };
        let scale = if run.vertical {
            run.scale_y
        } else {
            run.scale_x
        };
        let ratio = if scalar::epsilon_of::<S>().lt(params.magnitude()) && scale.finite() {
            scale.over(params)
        } else {
            scalar::one_of::<S>()
        };
        let ghost before = out@;
        let ghost whole = placed_run(*resolved, k);
        let mut i: usize = 0;
        assert(before + whole.take(0) =~= before);
        while i < run.glyphs.len()
            invariant
                i <= run.glyphs@.len(),
                k < runs@.len(),
                *resolved == runs@[k as int],
                *run == resolved.run,
                whole == placed_run(*resolved, k),
                direction == run_direction(*resolved),
                sin == direction.spec_sine(),
                cos == direction.spec_cosine(),
                device_size == run_size(*resolved),
                ratio == advance_ratio(*resolved),
                out@ == before + whole.take(i as int),
            decreases run.glyphs@.len() - i,
        {
            let glyph = &run.glyphs[i];
            let p = glyph.origin;
            let placed = PlacedGlyph {
                text: if i < resolved.text.len() {
                    match &resolved.text[i] {
                        Some(t) => Some(t.clone()),
                        None => None,
                    }
                } else {
                    None
                },
                code: glyph.code,
                strategy: if i < resolved.strategies.len() {
                    resolved.strategies[i]
                } else {
                    Strategy::Failed
                },
                origin: p,
                advance: glyph.advance.times(ratio),
                size: device_size,
                direction,
                tangent: p.x.times(cos).plus(p.y.times(sin)),
                normal: p.x.neg().times(sin).plus(p.y.times(cos)),
                rise: run.rise,
                run: k,
                index: i,
                span: glyph.span,
            };
            assert(placed == placed_glyph(*resolved, k, i as int));
            out.push(placed);
            i += 1;
            assert(out@ =~= before + whole.take(i as int));
        }
        assert(whole.take(i as int) =~= whole);
        k += 1;
    }
    out
}

/// Whether two angles are the same direction.
pub open spec fn same_direction<S: Scalar>(a: S, b: S) -> bool {
    let d = a.spec_minus(b).spec_magnitude().spec_rem(scalar::tau::<S>());
    let d = if scalar::pi::<S>().spec_lt(d) {
        scalar::tau::<S>().spec_minus(d)
    } else {
        d
    };
    d.spec_lt(direction_tolerance::<S>())
}

fn angle_close<S: Scalar>(a: S, b: S) -> (r: bool)
    ensures
        r == same_direction(a, b),
{
    let mut d = a.minus(b).magnitude().rem(scalar::tau_of::<S>());
    if scalar::pi_of::<S>().lt(d) {
        d = scalar::tau_of::<S>().minus(d);
    }
    d.lt(S::ratio(1, 100))
}

/// The sizes of glyphs.
pub open spec fn sizes<S>(g: Seq<PlacedGlyph<S>>) -> Seq<S> {
    Seq::new(g.len(), |i: int| g[i].size)
}

/// The normals of glyphs.
pub open spec fn normals<S>(g: Seq<PlacedGlyph<S>>) -> Seq<S> {
    Seq::new(g.len(), |i: int| g[i].normal)
}

/// The most common size of glyphs.
pub open spec fn modal_size_of<S: Scalar>(g: Seq<PlacedGlyph<S>>) -> S {
    stats::mode_of(sizes(g), size_tolerance::<S>())
}

/// The middle normal of glyphs.
pub open spec fn median_normal_of<S: Scalar>(g: Seq<PlacedGlyph<S>>) -> S {
    stats::median_of(normals(g))
}

/// The most common size, falling back to the median. Modal rather than mean
/// because one large drop-cap should not redefine the line's size.
pub fn modal_size<S: Scalar>(glyphs: &Vec<PlacedGlyph<S>>) -> (r: S)
    ensures
        r == modal_size_of(glyphs@),
{
    let mut v: Vec<S> = Vec::new();
    let mut i: usize = 0;
    while i < glyphs.len()
        invariant
            i <= glyphs@.len(),
            v@ == sizes(glyphs@).take(i as int),
        decreases glyphs@.len() - i,
    {
        v.push(glyphs[i].size);
        i += 1;
        assert(v@ =~= sizes(glyphs@).take(i as int));
    }
    assert(v@ =~= sizes(glyphs@));
    stats::modal(v, S::ratio(5, 100))
}

fn median_normal<S: Scalar>(glyphs: &Vec<PlacedGlyph<S>>) -> (r: S)
    ensures
        r == median_normal_of(glyphs@),
{
    let mut v: Vec<S> = Vec::new();
    let mut i: usize = 0;
    while i < glyphs.len()
        invariant
            i <= glyphs@.len(),
            v@ == normals(glyphs@).take(i as int),
        decreases glyphs@.len() - i,
    {
        v.push(glyphs[i].normal);
        i += 1;
        assert(v@ =~= normals(glyphs@).take(i as int));
    }
    assert(v@ =~= normals(glyphs@));
    stats::median(v)
}

/// The earliest start along the baseline of a run's glyphs among the first `n`,
/// if there are any.
pub open spec fn run_start<S: Scalar>(g: Seq<PlacedGlyph<S>>, run: usize, n: int) -> Option<S>
    decreases n,
{
    if n <= 0 {
        None
    } else if g[n - 1].run == run {
        match run_start(g, run, n - 1) {
            Some(at) => Some(at.spec_least(g[n - 1].tangent)),
            None => Some(g[n - 1].tangent),
        }
    } else {
        run_start(g, run, n - 1)
    }
}

/// The place of a run's first glyph from one on, or the glyph count.
pub open spec fn first_seen<S>(g: Seq<PlacedGlyph<S>>, run: usize, from: int) -> int
    decreases g.len() - from,
{
    if from < 0 || from >= g.len() {
        g.len() as int
    } else if g[from].run == run {
        from
    } else {
        first_seen(g, run, from + 1)
    }
}

/// What orders a run within a line: where it starts, then where it was first
/// seen.
pub open spec fn run_key<S: Scalar>(all: Seq<PlacedGlyph<S>>, run: usize) -> (S, int) {
    (
        match run_start(all, run, all.len() as int) {
            Some(at) => at,
            None => scalar::zero::<S>(),
        },
        first_seen(all, run, 0),
    )
}

/// The reading order of a line's glyphs: runs by where they start, glyphs of a
/// run as the producer showed them.
pub open spec fn reads_before<S: Scalar>(all: Seq<PlacedGlyph<S>>) -> spec_fn(
    PlacedGlyph<S>,
    PlacedGlyph<S>,
) -> bool {
    |a: PlacedGlyph<S>, b: PlacedGlyph<S>|
        {
            let (at_a, seen_a) = run_key(all, a.run);
            let (at_b, seen_b) = run_key(all, b.run);
            at_a.spec_lt(at_b) || (!at_b.spec_lt(at_a) && (seen_a < seen_b || (seen_a == seen_b
                && a.index < b.index)))
        }
}

/// A line's glyphs in reading order.
pub open spec fn read_order<S: Scalar>(g: Seq<PlacedGlyph<S>>) -> Seq<PlacedGlyph<S>> {
    sorting::sorted_by(g, reads_before(g))
}

/// The key of each run that occurs in a list of glyphs.
struct RunStart<S> {
    run: usize,
    at: S,
    seen: usize,
}

spec fn starts_right<S: Scalar>(starts: Seq<RunStart<S>>, g: Seq<PlacedGlyph<S>>, n: int) -> bool {
    &&& forall|k: int|
        0 <= k < starts.len() ==> {
            let r = #[trigger] starts[k];
            run_start(g, r.run, n) == Some(r.at) && first_seen(g, r.run, 0) == r.seen && r.seen < n
        }
    &&& forall|run: usize|
        (forall|k: int| 0 <= k < starts.len() ==> (#[trigger] starts[k]).run != run)
            ==> #[trigger] run_start(g, run, n) is None && first_seen(g, run, 0) >= n
}

proof fn lemma_first_seen<S>(g: Seq<PlacedGlyph<S>>, run: usize, from: int)
    requires
        0 <= from <= g.len(),
    ensures
        from <= first_seen(g, run, from) <= g.len(),
        first_seen(g, run, from) < g.len() ==> g[first_seen(g, run, from)].run == run,
        forall|i: int| from <= i < first_seen(g, run, from) ==> (#[trigger] g[i]).run != run,
    decreases g.len() - from,
{
    if from < g.len() && g[from].run != run {
        lemma_first_seen(g, run, from + 1);
    }
}

fn find_start<S>(starts: &Vec<RunStart<S>>, run: usize) -> (r: usize)
    ensures
        r <= starts@.len(),
        r < starts@.len() ==> starts@[r as int].run == run,
        r == starts@.len() ==> forall|k: int|
            0 <= k < starts@.len() ==> (#[trigger] starts@[k]).run != run,
{
    let mut k: usize = 0;
    while k < starts.len()
        invariant
            k <= starts@.len(),
            forall|j: int| 0 <= j < k ==> (#[trigger] starts@[j]).run != run,
        decreases starts@.len() - k,
    {
        if starts[k].run == run {
            return k;
        }
        k += 1;
    }
    k
}

fn run_starts<S: Scalar>(glyphs: &Vec<PlacedGlyph<S>>) -> (r: Vec<RunStart<S>>)
    ensures
        starts_right(r@, glyphs@, glyphs@.len() as int),
{
    let ghost g = glyphs@;
    let mut starts: Vec<RunStart<S>> = Vec::new();
    let mut i: usize = 0;
    proof {
        assert forall|run: usize| first_seen(g, run, 0) >= 0 by {
            lemma_first_seen(g, run, 0);
        }
    }
    while i < glyphs.len()
        invariant
            i <= glyphs@.len(),
            g == glyphs@,
            starts_right(starts@, g, i as int),
            forall|a: int, b: int|
                0 <= a < b < starts@.len() ==> (#[trigger] starts@[a]).run != (
                #[trigger] starts@[b]).run,
        decreases glyphs@.len() - i,
    {
        let run: usize = glyphs[i].run;
        let tangent = glyphs[i].tangent;
        let ghost before = starts@;
        let k: usize = find_start(&starts, run);
        if k < starts.len() {
            let at = starts[k].at.least(tangent);
            let seen: usize = starts[k].seen;
            starts.set(k, RunStart { run, at, seen });
        } else {
            proof {
                lemma_first_seen(g, run, 0);
                assert(run_start(g, run, i as int) is None);
            }
            starts.push(RunStart { run, at: tangent, seen: i });
        }
        proof {
            assert forall|q: int| 0 <= q < starts@.len() implies ({
                let r = #[trigger] starts@[q];
                run_start(g, r.run, i + 1) == Some(r.at) && first_seen(g, r.run, 0) == r.seen
                    && r.seen < i + 1
            }) by {
                if q < before.len() {
                    let r = before[q];
                    assert(run_start(g, r.run, i as int) == Some(r.at));
                    assert(first_seen(g, r.run, 0) == r.seen);
                    if q != k && k < before.len() {
                        assert(before[q].run != before[k as int].run) by {
                            if q < k {
                                assert(before[q].run != before[k as int].run);
                            } else {
                                assert(before[k as int].run != before[q].run);
                            }
                        }
                    }
                }
            }
            assert forall|other: usize|
                (forall|q: int| 0 <= q < starts@.len() ==> (#[trigger] starts@[q]).run != other)
                implies #[trigger] run_start(g, other, i + 1) is None && first_seen(g, other, 0)
                >= i + 1 by {
                let w = if k < before.len() {
                    k as int
                } else {
                    before.len() as int
                };
                assert(starts@[w].run == run);
                assert forall|q: int| 0 <= q < before.len() implies (#[trigger] before[q]).run
                    != other by {
                    assert(starts@[q].run == before[q].run);
                }
                assert(run_start(g, other, i as int) is None);
                lemma_first_seen(g, other, 0);
                assert(first_seen(g, other, 0) >= i);
            }
        }
        i += 1;
    }
    starts
}

/// Order one line's glyphs for reading, keeping each show operation whole.
///
/// The unit of reading order is the run, not the character: one show operation
/// lays its glyphs out itself, and sorting glyphs across run boundaries would
/// interleave runs that overlap.
pub fn in_reading_order<S: Scalar>(glyphs: Vec<PlacedGlyph<S>>) -> (r: Vec<PlacedGlyph<S>>)
    ensures
        r@ == read_order(glyphs@),
{
    let ghost g = glyphs@;
    let starts = run_starts(&glyphs);
    // Pair every glyph with its run's key, which is the same for every glyph of
    // the run, and sort by it.
    let mut keyed: Vec<(S, usize, PlacedGlyph<S>)> = Vec::new();
    for x in it: glyphs
        invariant
            it.seq() == g,
            starts_right(starts@, g, g.len() as int),
            keyed@.len() == it.index(),
            forall|k: int|
                0 <= k < keyed@.len() ==> (#[trigger] keyed@[k]).2 == g[k] && (keyed@[k].0, keyed@[k].1
                    as int) == run_key(g, g[k].run),
    {
        let ghost at = it.index() as int;
        let k: usize = find_start(&starts, x.run);
        let key: (S, usize) = if k < starts.len() {
            (starts[k].at, starts[k].seen)
        } else {
            proof {
                lemma_run_occurs(g, at, g.len() as int);
                assert(run_start(g, x.run, g.len() as int) is None);
                assert(false);
            }
            (scalar::zero_of::<S>(), 0)
        };
        keyed.push((key.0, key.1, x));
    }
    let ghost pairs = keyed@;
    let ghost less = |a: (S, usize, PlacedGlyph<S>), b: (S, usize, PlacedGlyph<S>)|
        a.0.spec_lt(b.0) || (!b.0.spec_lt(a.0) && (a.1 < b.1 || (a.1 == b.1 && a.2.index
            < b.2.index)));
    let before = |a: &(S, usize, PlacedGlyph<S>), b: &(S, usize, PlacedGlyph<S>)| -> (r: bool)
        ensures
            r == (a.0.spec_lt(b.0) || (!b.0.spec_lt(a.0) && (a.1 < b.1 || (a.1 == b.1 && a.2.index
                < b.2.index)))),
        { a.0.lt(b.0) || (!b.0.lt(a.0) && (a.1 < b.1 || (a.1 == b.1 && a.2.index < b.2.index))) };
    let sorted = sorting::stable_sort(keyed, before, Ghost(less));
    let ghost ordered = sorted@;
    proof {
        let third = |p: (S, usize, PlacedGlyph<S>)| p.2;
        assert(pairs.map_values(third) =~= g);
        assert forall|a: (S, usize, PlacedGlyph<S>), b: (S, usize, PlacedGlyph<S>)|
            pairs.contains(a) && pairs.contains(b) implies #[trigger] less(a, b) == reads_before(
            g,
        )(third(a), third(b)) by {
            let i = choose|i: int| 0 <= i < pairs.len() && pairs[i] == a;
            let j = choose|j: int| 0 <= j < pairs.len() && pairs[j] == b;
            assert(pairs[i].2 == g[i]);
            assert(pairs[j].2 == g[j]);
        }
        sorting::lemma_sorted_by_mapped(pairs, less, reads_before(g), third);
        assert(ordered.map_values(third) == read_order(g));
    }
    let mut out: Vec<PlacedGlyph<S>> = Vec::new();
    for x in it: sorted
        invariant
            it.seq() == ordered,
            out@ == ordered.map_values(|p: (S, usize, PlacedGlyph<S>)| p.2).take(
                it.index() as int,
            ),
    {
        let ghost at = it.index() as int;
        out.push(x.2);
        assert(out@ =~= ordered.map_values(|p: (S, usize, PlacedGlyph<S>)| p.2).take(at + 1));
    }
    assert(out@ =~= ordered.map_values(|p: (S, usize, PlacedGlyph<S>)| p.2));
    out
}

proof fn lemma_run_occurs<S: Scalar>(g: Seq<PlacedGlyph<S>>, i: int, n: int)
    requires
        0 <= i < n <= g.len(),
    ensures
        run_start(g, g[i].run, n) is Some,
    decreases n,
{
    if i < n - 1 {
        lemma_run_occurs(g, i, n - 1);
    }
}

/// A corner of a glyph's box: a distance along the baseline and one across it
/// from the origin.
pub open spec fn glyph_corner<S: Scalar>(g: PlacedGlyph<S>, along: S, across: S) -> Point<S> {
    let (sin, cos) = (g.direction.spec_sine(), g.direction.spec_cosine());
    Point {
        x: g.origin.x.spec_plus(along.spec_times(cos)).spec_minus(across.spec_times(sin)),
        y: g.origin.y.spec_plus(along.spec_times(sin)).spec_plus(across.spec_times(cos)),
    }
}

/// A rectangle extended to a glyph's box: the advance along the baseline, three
/// quarters of the size above it and a quarter below.
pub open spec fn with_glyph<S: Scalar>(r: Rect<S>, g: PlacedGlyph<S>) -> Rect<S> {
    let zero = scalar::zero::<S>();
    let up = g.size.spec_times(S::spec_ratio(75, 100)).spec_neg();
    let down = g.size.spec_times(S::spec_ratio(25, 100));
    let a = glyph_corner(g, zero, up);
    let b = glyph_corner(g, g.advance, up);
    let c = glyph_corner(g, zero, down);
    let d = glyph_corner(g, g.advance, down);
    r.spec_extended(a.x, a.y).spec_extended(b.x, b.y).spec_extended(c.x, c.y).spec_extended(
        d.x,
        d.y,
    )
}

/// The box around the first `n` glyphs.
pub open spec fn glyphs_box<S: Scalar>(g: Seq<PlacedGlyph<S>>, n: int) -> Rect<S>
    decreases n,
{
    if n <= 0 {
        Rect::<S>::spec_inverted()
    } else {
        with_glyph(glyphs_box(g, n - 1), g[n - 1])
    }
}

/// The line that glyphs make, in the order given.
pub open spec fn line_of<S: Scalar>(g: Seq<PlacedGlyph<S>>) -> LineModel<S> {
    LineModel {
        glyphs: g,
        baseline: median_normal_of(g),
        direction: if g.len() > 0 {
            g[0].direction
        } else {
            scalar::zero::<S>()
        },
        size: modal_size_of(g),
        bbox: if g.len() > 0 {
            glyphs_box(g, g.len() as int)
        } else {
            Rect::<S>::spec_none()
        },
    }
}

fn corner<S: Scalar>(g: &PlacedGlyph<S>, along: S, across: S) -> (r: Point<S>)
    ensures
        r == glyph_corner(*g, along, across),
{
    let sin = g.direction.sine();
    let cos = g.direction.cosine();
    Point {
        x: g.origin.x.plus(along.times(cos)).minus(across.times(sin)),
        y: g.origin.y.plus(along.times(sin)).plus(across.times(cos)),
    }
}

/// A rectangle extended to a glyph's box.
pub fn extend_to_glyph<S: Scalar>(r: Rect<S>, g: &PlacedGlyph<S>) -> (out: Rect<S>)
    ensures
        out == with_glyph(r, *g),
{
    let zero = scalar::zero_of::<S>();
    let up = g.size.times(S::ratio(75, 100)).neg();
    let down = g.size.times(S::ratio(25, 100));
    let a = corner(g, zero, up);
    let b = corner(g, g.advance, up);
    let c = corner(g, zero, down);
    let d = corner(g, g.advance, down);
    r.extended(a.x, a.y).extended(b.x, b.y).extended(c.x, c.y).extended(d.x, d.y)
}

fn build_line<S: Scalar>(glyphs: Vec<PlacedGlyph<S>>) -> (r: Line<S>)
    ensures
        r@ == line_of(glyphs@),
{
    let size = modal_size(&glyphs);
    let baseline = median_normal(&glyphs);
    let direction = if glyphs.len() > 0 {
        glyphs[0].direction
    } else {
        scalar::zero_of::<S>()
    };
    let mut bbox = Rect::<S>::inverted();
    let mut i: usize = 0;
    while i < glyphs.len()
        invariant
            i <= glyphs@.len(),
            bbox == glyphs_box(glyphs@, i as int),
        decreases glyphs@.len() - i,
    {
        bbox = extend_to_glyph(bbox, &glyphs[i]);
        i += 1;
    }
    if glyphs.len() == 0 {
        bbox = Rect::<S>::none();
    }
    Line { glyphs, baseline, direction, size, bbox }
}

/// Whether two neighbouring glyphs, sorted by normal, lie on one baseline. The
/// tolerance scales with the larger of the two sizes.
pub open spec fn on_baseline<S: Scalar>(prev: PlacedGlyph<S>, g: PlacedGlyph<S>) -> bool {
    g.normal.spec_minus(prev.normal).spec_magnitude().spec_le(
        baseline_tolerance::<S>().spec_times(
            prev.size.spec_greatest(g.size).spec_greatest(scalar::one::<S>()),
        ),
    )
}

/// The first `n` glyphs, sorted by normal, split wherever neighbours lie on
/// different baselines.
pub open spec fn clusters_of<S: Scalar>(g: Seq<PlacedGlyph<S>>, n: int) -> Seq<Seq<PlacedGlyph<S>>>
    decreases n,
{
    if n <= 0 {
        Seq::empty()
    } else {
        let before = clusters_of(g, n - 1);
        if n > 1 && on_baseline(g[n - 2], g[n - 1]) {
            before.drop_last().push(before.last().push(g[n - 1]))
        } else {
            before.push(seq![g[n - 1]])
        }
    }
}

/// What a list of glyph lists holds.
pub open spec fn glyph_lists<S>(v: Seq<Vec<PlacedGlyph<S>>>) -> Seq<Seq<PlacedGlyph<S>>> {
    Seq::new(v.len(), |i: int| v[i]@)
}

proof fn lemma_clusters_last<S: Scalar>(g: Seq<PlacedGlyph<S>>, n: int)
    requires
        0 < n <= g.len(),
    ensures
        clusters_of(g, n).len() > 0,
        clusters_of(g, n).last().len() > 0,
        clusters_of(g, n).last().last() == g[n - 1],
    decreases n,
{
    if n > 1 {
        lemma_clusters_last(g, n - 1);
    }
}

fn split_baselines<S: Scalar>(glyphs: Vec<PlacedGlyph<S>>) -> (r: Vec<Vec<PlacedGlyph<S>>>)
    ensures
        glyph_lists(r@) == clusters_of(glyphs@, glyphs@.len() as int),
{
    let ghost all = glyphs@;
    let mut clusters: Vec<Vec<PlacedGlyph<S>>> = Vec::new();
    assert(glyph_lists(clusters@) =~= clusters_of(all, 0));
    for g in it: glyphs
        invariant
            it.seq() == all,
            glyph_lists(clusters@) == clusters_of(all, it.index() as int),
    {
        let ghost at = it.index() as int;
        let ghost before = glyph_lists(clusters@);
        let ghost this = g;
        let n: usize = clusters.len();
        let mut joins = false;
        if n > 0 {
            assert(at > 0);
            proof {
                lemma_clusters_last(all, at);
            }
            let last = &clusters[n - 1];
            assert(last@ == before.last());
            let prev = &last[last.len() - 1];
            let tolerance = S::ratio(3, 10).times(
                prev.size.greatest(g.size).greatest(scalar::one_of::<S>()),
            );
            joins = g.normal.minus(prev.normal).magnitude().le(tolerance);
        } else {
            assert(at == 0) by {
                if at > 0 {
                    lemma_clusters_last(all, at);
                }
            }
        }
        if joins {
            clusters[n - 1].push(g);
            assert(glyph_lists(clusters@) =~= before.drop_last().push(before.last().push(this)));
        } else {
            let mut one: Vec<PlacedGlyph<S>> = Vec::new();
            one.push(g);
            assert(one@ =~= seq![this]);
            clusters.push(one);
            assert(glyph_lists(clusters@) =~= before.push(seq![this]));
        }
    }
    clusters
}

/// Whether a cluster is a super- or subscript of a line with a given size and
/// normal: close to it, and either smaller or explicitly shifted throughout.
pub open spec fn is_script<S: Scalar>(c: Seq<PlacedGlyph<S>>, size: S, normal: S) -> bool {
    &&& median_normal_of(c).spec_minus(normal).spec_magnitude().spec_lt(
        script_offset::<S>().spec_times(size),
    )
    &&& (modal_size_of(c).spec_lt(size.spec_times(script_size::<S>())) || forall|i: int|
        0 <= i < c.len() ==> (#[trigger] c[i]).shifted())
}

/// The clusters after the one at `i` has taken in its scripts among those below
/// `upto`.
pub open spec fn absorbed<S: Scalar>(
    c: Seq<Seq<PlacedGlyph<S>>>,
    i: int,
    size: S,
    normal: S,
    upto: int,
) -> Seq<Seq<PlacedGlyph<S>>>
    decreases upto,
{
    if upto <= 0 {
        c
    } else {
        let before = absorbed(c, i, size, normal, upto - 1);
        let j = upto - 1;
        if i != j && before[j].len() > 0 && is_script(before[j], size, normal) {
            before.update(i, before[i] + before[j]).update(j, Seq::empty())
        } else {
            before
        }
    }
}

/// The clusters after each one below `upto`, in turn, has taken in its scripts.
pub open spec fn merged<S: Scalar>(c: Seq<Seq<PlacedGlyph<S>>>, upto: int) -> Seq<
    Seq<PlacedGlyph<S>>,
>
    decreases upto,
{
    if upto <= 0 {
        c
    } else {
        let before = merged(c, upto - 1);
        let i = upto - 1;
        if before[i].len() == 0 {
            before
        } else {
            absorbed(
                before,
                i,
                modal_size_of(before[i]),
                median_normal_of(before[i]),
                c.len() as int,
            )
        }
    }
}

fn script_of<S: Scalar>(c: &Vec<PlacedGlyph<S>>, size: S, normal: S) -> (r: bool)
    ensures
        r == is_script(c@, size, normal),
{
    let other_size = modal_size(c);
    let other_normal = median_normal(c);
    let is_close = other_normal.minus(normal).magnitude().lt(S::ratio(6, 10).times(size));
    let is_smaller = other_size.lt(size.times(S::ratio(8, 10)));
    // An explicit shift is decisive; the size test is the fallback.
    let mut explicit = true;
    let mut i: usize = 0;
    while i < c.len()
        invariant
            i <= c@.len(),
            explicit == forall|k: int| 0 <= k < i ==> (#[trigger] c@[k]).shifted(),
        decreases c@.len() - i,
    {
        if !c[i].is_shifted() {
            explicit = false;
            assert(!c@[i as int].shifted());
        }
        i += 1;
    }
    is_close && (is_smaller || explicit)
}

proof fn lemma_absorbed_length<S: Scalar>(
    c: Seq<Seq<PlacedGlyph<S>>>,
    i: int,
    size: S,
    normal: S,
    upto: int,
)
    requires
        0 <= i < c.len(),
        upto <= c.len(),
    ensures
        absorbed(c, i, size, normal, upto).len() == c.len(),
    decreases upto,
{
    if upto > 0 {
        lemma_absorbed_length(c, i, size, normal, upto - 1);
    }
}

proof fn lemma_merged_length<S: Scalar>(c: Seq<Seq<PlacedGlyph<S>>>, upto: int)
    requires
        upto <= c.len(),
    ensures
        merged(c, upto).len() == c.len(),
    decreases upto,
{
    if upto > 0 {
        lemma_merged_length(c, upto - 1);
        let before = merged(c, upto - 1);
        let i = upto - 1;
        lemma_absorbed_length(
            before,
            i,
            modal_size_of(before[i]),
            median_normal_of(before[i]),
            c.len() as int,
        );
    }
}

/// Fold small offset clusters into the line they belong to: super- and
/// subscripts join the parent line, not a line of their own.
fn merge_superscripts<S: Scalar>(clusters: &mut Vec<Vec<PlacedGlyph<S>>>)
    ensures
        glyph_lists(final(clusters)@) == merged(
            glyph_lists(old(clusters)@),
            old(clusters)@.len() as int,
        ),
{
    let ghost start = glyph_lists(clusters@);
    let n: usize = clusters.len();
    let mut i: usize = 0;
    while i < n
        invariant
            i <= n,
            n == start.len(),
            clusters@.len() == n,
            start == glyph_lists(old(clusters)@),
            glyph_lists(clusters@) == merged(start, i as int),
        decreases n - i,
    {
        let ghost before = glyph_lists(clusters@);
        assert(before[i as int] == clusters@[i as int]@);
        if clusters[i].len() > 0 {
            let size = modal_size(&clusters[i]);
            let normal = median_normal(&clusters[i]);
            let mut j: usize = 0;
            while j < n
                invariant
                    i < n,
                    j <= n,
                    n == before.len(),
                    clusters@.len() == n,
                    glyph_lists(clusters@) == absorbed(before, i as int, size, normal, j as int),
                decreases n - j,
            {
                let ghost now = glyph_lists(clusters@);
                assert(now[j as int] == clusters@[j as int]@);
                assert(now[i as int] == clusters@[i as int]@);
                if i != j && clusters[j].len() > 0 && script_of(&clusters[j], size, normal) {
                    let mut taken: Vec<PlacedGlyph<S>> = Vec::new();
                    std::mem::swap(&mut taken, &mut clusters[j]);
                    clusters[i].append(&mut taken);
                    assert(glyph_lists(clusters@) =~= now.update(
                        i as int,
                        now[i as int] + now[j as int],
                    ).update(j as int, Seq::empty()));
                }
                j += 1;
            }
        }
        i += 1;
    }
}

/// The lines of the non-empty ones among the first `n` clusters.
pub open spec fn lines_from<S: Scalar>(c: Seq<Seq<PlacedGlyph<S>>>, n: int) -> Seq<LineModel<S>>
    decreases n,
{
    if n <= 0 {
        Seq::empty()
    } else if c[n - 1].len() == 0 {
        lines_from(c, n - 1)
    } else {
        lines_from(c, n - 1).push(line_of(read_order(c[n - 1])))
    }
}

/// The order of glyphs across a direction.
pub open spec fn by_normal<S: Scalar>() -> spec_fn(PlacedGlyph<S>, PlacedGlyph<S>) -> bool {
    |a: PlacedGlyph<S>, b: PlacedGlyph<S>| a.normal.spec_lt(b.normal)
}

/// The lines of glyphs that share a direction.
pub open spec fn bucket_lines<S: Scalar>(g: Seq<PlacedGlyph<S>>) -> Seq<LineModel<S>> {
    let sorted = sorting::sorted_by(g, by_normal());
    let clusters = clusters_of(sorted, sorted.len() as int);
    lines_from(merged(clusters, clusters.len() as int), clusters.len() as int)
}

/// Cluster one direction's glyphs into lines.
fn cluster_bucket<S: Scalar>(glyphs: Vec<PlacedGlyph<S>>) -> (r: Vec<Line<S>>)
    ensures
        line_models(r@) == bucket_lines(glyphs@),
{
    let before = |a: &PlacedGlyph<S>, b: &PlacedGlyph<S>| -> (r: bool)
        ensures
            r == a.normal.spec_lt(b.normal),
        { a.normal.lt(b.normal) };
    let sorted = sorting::stable_sort(glyphs, before, Ghost(by_normal()));
    let mut clusters = split_baselines(sorted);
    merge_superscripts(&mut clusters);
    let ghost all = glyph_lists(clusters@);
    let ghost list = clusters@;
    proof {
        let c = clusters_of(sorted@, sorted@.len() as int);
        lemma_merged_length(c, c.len() as int);
    }
    let mut out: Vec<Line<S>> = Vec::new();
    assert(line_models(out@) =~= lines_from(all, 0));
    for c in it: clusters
        invariant
            it.seq() == list,
            all == glyph_lists(list),
            line_models(out@) == lines_from(all, it.index() as int),
    {
        let ghost at = it.index() as int;
        let ghost made = line_models(out@);
        assert(all[at] == c@);
        if c.len() > 0 {
            let line = build_line(in_reading_order(c));
            let ghost model = line@;
            out.push(line);
            assert(line_models(out@) =~= made.push(model));
        }
    }
    out
}

/// Glyphs grouped by baseline direction, each group under the direction of its
/// first glyph.
#[verifier::ext_equal]
pub struct Bucket<S> {
    pub direction: S,
    pub glyphs: Seq<PlacedGlyph<S>>,
}

/// The first bucket from one on whose direction a glyph shares, or the bucket
/// count.
pub open spec fn bucket_for<S: Scalar>(b: Seq<Bucket<S>>, direction: S, from: int) -> int
    decreases b.len() - from,
{
    if from < 0 || from >= b.len() {
        b.len() as int
    } else if same_direction(b[from].direction, direction) {
        from
    } else {
        bucket_for(b, direction, from + 1)
    }
}

/// The first `n` glyphs grouped by direction.
pub open spec fn buckets_of<S: Scalar>(g: Seq<PlacedGlyph<S>>, n: int) -> Seq<Bucket<S>>
    decreases n,
{
    if n <= 0 {
        Seq::empty()
    } else {
        let before = buckets_of(g, n - 1);
        let x = g[n - 1];
        let k = bucket_for(before, x.direction, 0);
        if 0 <= k < before.len() {
            before.update(k, Bucket { glyphs: before[k].glyphs.push(x), ..before[k] })
        } else {
            before.push(Bucket { direction: x.direction, glyphs: seq![x] })
        }
    }
}

/// The lines of the first `n` buckets.
pub open spec fn all_bucket_lines<S: Scalar>(b: Seq<Bucket<S>>, n: int) -> Seq<LineModel<S>>
    decreases n,
{
    if n <= 0 {
        Seq::empty()
    } else {
        all_bucket_lines(b, n - 1) + bucket_lines(b[n - 1].glyphs)
    }
}

/// The lines that glyphs make up, in reading order.
pub open spec fn assembled<S: Scalar>(g: Seq<PlacedGlyph<S>>) -> Seq<LineModel<S>> {
    let b = buckets_of(g, g.len() as int);
    sorting::sorted_by(
        all_bucket_lines(b, b.len() as int),
        |a: LineModel<S>, b: LineModel<S>| a.above(b),
    )
}

spec fn bucket_models<S>(v: Seq<(S, Vec<PlacedGlyph<S>>)>) -> Seq<Bucket<S>> {
    Seq::new(v.len(), |i: int| Bucket { direction: v[i].0, glyphs: v[i].1@ })
}

/// Assemble glyphs into lines.
pub fn assemble<S: Scalar>(glyphs: Vec<PlacedGlyph<S>>) -> (r: Vec<Line<S>>)
    ensures
        line_models(r@) == assembled(glyphs@),
{
    let ghost all = glyphs@;
    // Text at different angles cannot share a line however close the glyphs
    // are, and comparing normals across directions is meaningless.
    let mut buckets: Vec<(S, Vec<PlacedGlyph<S>>)> = Vec::new();
    assert(bucket_models(buckets@) =~= buckets_of(all, 0));
    for g in it: glyphs
        invariant
            it.seq() == all,
            bucket_models(buckets@) == buckets_of(all, it.index() as int),
    {
        let ghost before = bucket_models(buckets@);
        let ghost this = g;
        let direction = g.direction;
        let mut k: usize = 0;
        while k < buckets.len() && !angle_close(buckets[k].0, direction)
            invariant
                k <= buckets@.len(),
                before == bucket_models(buckets@),
                bucket_for(before, direction, 0) == bucket_for(before, direction, k as int),
            ensures
                k <= buckets@.len(),
                before == bucket_models(buckets@),
                bucket_for(before, direction, 0) == k,
            decreases buckets@.len() - k,
        {
            assert(before[k as int].direction == buckets@[k as int].0);
            k += 1;
        }
        if k < buckets.len() {
            buckets[k].1.push(g);
            assert(bucket_models(buckets@) =~= before.update(
                k as int,
                Bucket {
                    glyphs: before[k as int].glyphs.push(this),
                    ..before[k as int]
                },
            ));
        } else {
            let mut one: Vec<PlacedGlyph<S>> = Vec::new();
            one.push(g);
            assert(one@ =~= seq![this]);
            buckets.push((direction, one));
            assert(bucket_models(buckets@) =~= before.push(
                Bucket { direction, glyphs: seq![this] },
            ));
        }
    }
    let ghost grouped = bucket_models(buckets@);
    let ghost list = buckets@;
    let mut lines: Vec<Line<S>> = Vec::new();
    assert(line_models(lines@) =~= all_bucket_lines(grouped, 0));
    for b in it: buckets
        invariant
            it.seq() == list,
            grouped == bucket_models(list),
            line_models(lines@) == all_bucket_lines(grouped, it.index() as int),
    {
        let ghost at = it.index() as int;
        let ghost made = line_models(lines@);
        assert(grouped[at].glyphs == b.1@);
        let mut more = cluster_bucket(b.1);
        let ghost extra = line_models(more@);
        lines.append(&mut more);
        assert(line_models(lines@) =~= made + extra);
    }
    // Reading order across lines: down the page, then along.
    let ghost less = |a: Line<S>, b: Line<S>| a@.above(b@);
    let ghost unsorted = lines@;
    let before = |a: &Line<S>, b: &Line<S>| -> (r: bool)
        ensures
            r == a@.above(b@),
        {
            a.baseline.lt(b.baseline) || (!b.baseline.lt(a.baseline) && a.extent().0.lt(
                b.extent().0,
            ))
        };
    let sorted = sorting::stable_sort(lines, before, Ghost(less));
    proof {
        let view = |l: Line<S>| l@;
        let above = |a: LineModel<S>, b: LineModel<S>| a.above(b);
        sorting::lemma_sorted_by_mapped(unsorted, less, above, view);
        assert(unsorted.map_values(view) =~= line_models(unsorted));
        assert(sorted@.map_values(view) =~= line_models(sorted@));
    }
    sorted
}

/// The glyphs of a list, as they stand.
pub open spec fn own_glyphs<S>() -> spec_fn(Seq<PlacedGlyph<S>>) -> Seq<PlacedGlyph<S>> {
    |c: Seq<PlacedGlyph<S>>| c
}

/// The glyphs of a line.
pub open spec fn line_glyphs<S>() -> spec_fn(LineModel<S>) -> Seq<PlacedGlyph<S>> {
    |l: LineModel<S>| l.glyphs
}

spec fn bucket_glyphs<S>() -> spec_fn(Bucket<S>) -> Seq<PlacedGlyph<S>> {
    |b: Bucket<S>| b.glyphs
}

/// Every glyph of a list of lines, as many times as it occurs.
pub open spec fn glyphs_in<S>(lines: Seq<LineModel<S>>) -> Multiset<PlacedGlyph<S>> {
    partition::pooled(lines, line_glyphs())
}

proof fn lemma_buckets_hold_all<S: Scalar>(g: Seq<PlacedGlyph<S>>, n: int)
    requires
        0 <= n <= g.len(),
    ensures
        partition::pooled(buckets_of(g, n), bucket_glyphs()) == g.take(n).to_multiset(),
    decreases n,
{
    broadcast use vstd::seq_lib::group_to_multiset_ensures;

    if n == 0 {
        assert(g.take(0) =~= Seq::empty());
        partition::lemma_empty_multiset::<PlacedGlyph<S>>();
    } else {
        lemma_buckets_hold_all(g, n - 1);
        let before = buckets_of(g, n - 1);
        let x = g[n - 1];
        let k = bucket_for(before, x.direction, 0);
        assert(g.take(n) =~= g.take(n - 1).push(x));
        let pool = partition::pooled(before, bucket_glyphs::<S>());
        if 0 <= k < before.len() {
            let b = Bucket { glyphs: before[k].glyphs.push(x), ..before[k] };
            partition::lemma_pooled_update(before, k, b, bucket_glyphs::<S>());
            let after = partition::pooled(before.update(k, b), bucket_glyphs::<S>());
            let had = before[k].glyphs.to_multiset();
            assert(after.add(had) == pool.add(had.insert(x)));
            assert(after =~= pool.insert(x)) by {
                assert forall|e: PlacedGlyph<S>| after.count(e) == pool.insert(x).count(e) by {
                    assert(after.add(had).count(e) == pool.add(had.insert(x)).count(e));
                }
            }
        } else {
            let b = Bucket { direction: x.direction, glyphs: seq![x] };
            partition::lemma_pooled_push(before, b, bucket_glyphs::<S>());
            assert(seq![x] =~= Seq::empty().push(x));
            partition::lemma_empty_multiset::<PlacedGlyph<S>>();
            assert(pool.add(seq![x].to_multiset()) =~= pool.insert(x));
        }
    }
}

proof fn lemma_clusters_hold_all<S: Scalar>(g: Seq<PlacedGlyph<S>>, n: int)
    requires
        0 <= n <= g.len(),
    ensures
        partition::pooled(clusters_of(g, n), own_glyphs()) == g.take(n).to_multiset(),
    decreases n,
{
    broadcast use vstd::seq_lib::group_to_multiset_ensures;

    if n == 0 {
        assert(g.take(0) =~= Seq::empty());
        partition::lemma_empty_multiset::<PlacedGlyph<S>>();
    } else {
        lemma_clusters_hold_all(g, n - 1);
        let before = clusters_of(g, n - 1);
        let x = g[n - 1];
        assert(g.take(n) =~= g.take(n - 1).push(x));
        let pool = partition::pooled(before, own_glyphs::<S>());
        if n > 1 && on_baseline(g[n - 2], g[n - 1]) {
            lemma_clusters_last(g, n - 1);
            let front = before.drop_last();
            partition::lemma_pooled_push(front, before.last().push(x), own_glyphs::<S>());
            assert(partition::pooled(front, own_glyphs::<S>()).add(
                before.last().push(x).to_multiset(),
            ) =~= pool.insert(x));
        } else {
            partition::lemma_pooled_push(before, seq![x], own_glyphs::<S>());
            assert(seq![x] =~= Seq::empty().push(x));
            partition::lemma_empty_multiset::<PlacedGlyph<S>>();
            assert(pool.add(seq![x].to_multiset()) =~= pool.insert(x));
        }
    }
}

proof fn lemma_absorbed_holds_all<S: Scalar>(
    c: Seq<Seq<PlacedGlyph<S>>>,
    i: int,
    size: S,
    normal: S,
    upto: int,
)
    requires
        0 <= i < c.len(),
        upto <= c.len(),
    ensures
        partition::pooled(absorbed(c, i, size, normal, upto), own_glyphs())
            == partition::pooled(c, own_glyphs()),
    decreases upto,
{
    if upto > 0 {
        lemma_absorbed_holds_all(c, i, size, normal, upto - 1);
        lemma_absorbed_length(c, i, size, normal, upto - 1);
        let before = absorbed(c, i, size, normal, upto - 1);
        let j = upto - 1;
        if i != j && before[j].len() > 0 && is_script(before[j], size, normal) {
            lemma_moved(before, i, j);
        }
    }
}

/// Moving one list's glyphs to another keeps what the lists hold.
proof fn lemma_moved<S>(c: Seq<Seq<PlacedGlyph<S>>>, i: int, j: int)
    requires
        0 <= i < c.len(),
        0 <= j < c.len(),
        i != j,
    ensures
        partition::pooled(c.update(i, c[i] + c[j]).update(j, Seq::empty()), own_glyphs())
            == partition::pooled(c, own_glyphs()),
{
    let f = own_glyphs::<S>();
    let a = c.update(i, c[i] + c[j]);
    let b = a.update(j, Seq::empty());
    partition::lemma_pooled_update(c, i, c[i] + c[j], f);
    partition::lemma_pooled_update(a, j, Seq::empty(), f);
    partition::lemma_joined_multiset(c[i], c[j]);
    partition::lemma_empty_multiset::<PlacedGlyph<S>>();
    let (pc, pa, pb) = (
        partition::pooled(c, f),
        partition::pooled(a, f),
        partition::pooled(b, f),
    );
    let (mi, mj) = (c[i].to_multiset(), c[j].to_multiset());
    assert(pa.add(mi) == pc.add(mi.add(mj)));
    assert(pb.add(mj) == pa.add(Multiset::empty()));
    assert(pb =~= pc) by {
        assert forall|e: PlacedGlyph<S>| pb.count(e) == pc.count(e) by {
            assert(pa.add(mi).count(e) == pc.add(mi.add(mj)).count(e));
            assert(pb.add(mj).count(e) == pa.add(Multiset::empty()).count(e));
        }
    }
}

proof fn lemma_merged_holds_all<S: Scalar>(c: Seq<Seq<PlacedGlyph<S>>>, upto: int)
    requires
        upto <= c.len(),
    ensures
        partition::pooled(merged(c, upto), own_glyphs()) == partition::pooled(c, own_glyphs()),
    decreases upto,
{
    if upto > 0 {
        lemma_merged_holds_all(c, upto - 1);
        lemma_merged_length(c, upto - 1);
        let before = merged(c, upto - 1);
        let i = upto - 1;
        if before[i].len() > 0 {
            lemma_absorbed_holds_all(
                before,
                i,
                modal_size_of(before[i]),
                median_normal_of(before[i]),
                c.len() as int,
            );
        }
    }
}

proof fn lemma_lines_from_hold_all<S: Scalar>(c: Seq<Seq<PlacedGlyph<S>>>, n: int)
    requires
        0 <= n <= c.len(),
    ensures
        glyphs_in(lines_from(c, n)) == partition::pooled(c.take(n), own_glyphs()),
    decreases n,
{
    if n == 0 {
        assert(c.take(0) =~= Seq::empty());
    } else {
        lemma_lines_from_hold_all(c, n - 1);
        assert(c.take(n) =~= c.take(n - 1).push(c[n - 1]));
        partition::lemma_pooled_push(c.take(n - 1), c[n - 1], own_glyphs::<S>());
        if c[n - 1].len() == 0 {
            assert(c[n - 1] =~= Seq::empty());
            partition::lemma_empty_multiset::<PlacedGlyph<S>>();
            assert(partition::pooled(c.take(n), own_glyphs::<S>()) =~= partition::pooled(
                c.take(n - 1),
                own_glyphs::<S>(),
            ));
        } else {
            partition::lemma_pooled_push(
                lines_from(c, n - 1),
                line_of(read_order(c[n - 1])),
                line_glyphs::<S>(),
            );
            sorting::lemma_sorted_keeps_elements(c[n - 1], reads_before(c[n - 1]));
        }
    }
}

proof fn lemma_bucket_lines_hold_all<S: Scalar>(g: Seq<PlacedGlyph<S>>)
    ensures
        glyphs_in(bucket_lines(g)) == g.to_multiset(),
{
    let sorted = sorting::sorted_by(g, by_normal());
    let c = clusters_of(sorted, sorted.len() as int);
    let m = merged(c, c.len() as int);
    sorting::lemma_sorted_keeps_elements(g, by_normal::<S>());
    lemma_clusters_hold_all(sorted, sorted.len() as int);
    assert(sorted.take(sorted.len() as int) =~= sorted);
    lemma_merged_holds_all(c, c.len() as int);
    lemma_merged_length(c, c.len() as int);
    lemma_lines_from_hold_all(m, c.len() as int);
    assert(m.take(c.len() as int) =~= m);
}

proof fn lemma_all_bucket_lines_hold_all<S: Scalar>(b: Seq<Bucket<S>>, n: int)
    requires
        0 <= n <= b.len(),
    ensures
        glyphs_in(all_bucket_lines(b, n)) == partition::pooled(b.take(n), bucket_glyphs()),
    decreases n,
{
    if n == 0 {
        assert(b.take(0) =~= Seq::empty());
    } else {
        lemma_all_bucket_lines_hold_all(b, n - 1);
        lemma_bucket_lines_hold_all(b[n - 1].glyphs);
        partition::lemma_pooled_join(
            all_bucket_lines(b, n - 1),
            bucket_lines(b[n - 1].glyphs),
            line_glyphs::<S>(),
        );
        assert(b.take(n) =~= b.take(n - 1).push(b[n - 1]));
        partition::lemma_pooled_push(b.take(n - 1), b[n - 1], bucket_glyphs::<S>());
    }
}

/// Line assembly loses no glyph and repeats none.
pub proof fn law_lines_partition_the_glyphs<S: Scalar>(g: Seq<PlacedGlyph<S>>)
    ensures
        glyphs_in(assembled(g)) == g.to_multiset(),
{
    let b = buckets_of(g, g.len() as int);
    lemma_buckets_hold_all(g, g.len() as int);
    assert(g.take(g.len() as int) =~= g);
    lemma_all_bucket_lines_hold_all(b, b.len() as int);
    assert(b.take(b.len() as int) =~= b);
    partition::lemma_pooled_sorted(
        all_bucket_lines(b, b.len() as int),
        |a: LineModel<S>, b: LineModel<S>| a.above(b),
        line_glyphs::<S>(),
    );
}

/// No assembled line is empty.
pub proof fn law_no_line_is_empty<S: Scalar>(g: Seq<PlacedGlyph<S>>, i: int)
    requires
        0 <= i < assembled(g).len(),
    ensures
        assembled(g)[i].glyphs.len() > 0,
{
    broadcast use vstd::seq_lib::group_to_multiset_ensures;

    let b = buckets_of(g, g.len() as int);
    let all = all_bucket_lines(b, b.len() as int);
    let less = |a: LineModel<S>, b: LineModel<S>| a.above(b);
    sorting::lemma_sorted_keeps_elements(all, less);
    let l = assembled(g)[i];
    assert(assembled(g).contains(l));
    assert(assembled(g).to_multiset().count(l) > 0);
    assert(all.to_multiset().count(l) > 0);
    assert(all.contains(l));
    let k = choose|k: int| 0 <= k < all.len() && all[k] == l;
    lemma_bucket_lines_filled(b, b.len() as int, k);
}

proof fn lemma_bucket_lines_filled<S: Scalar>(b: Seq<Bucket<S>>, n: int, k: int)
    requires
        0 <= k < all_bucket_lines(b, n).len(),
    ensures
        all_bucket_lines(b, n)[k].glyphs.len() > 0,
    decreases n,
{
    if n > 0 {
        let front = all_bucket_lines(b, n - 1);
        if k < front.len() {
            lemma_bucket_lines_filled(b, n - 1, k);
        } else {
            let sorted = sorting::sorted_by(b[n - 1].glyphs, by_normal());
            let c = clusters_of(sorted, sorted.len() as int);
            lemma_lines_from_filled(
                merged(c, c.len() as int),
                c.len() as int,
                k - front.len(),
            );
        }
    }
}

proof fn lemma_lines_from_filled<S: Scalar>(c: Seq<Seq<PlacedGlyph<S>>>, n: int, k: int)
    requires
        0 <= k < lines_from(c, n).len(),
    ensures
        lines_from(c, n)[k].glyphs.len() > 0,
    decreases n,
{
    if n > 0 {
        if k < lines_from(c, n - 1).len() {
            lemma_lines_from_filled(c, n - 1, k);
        } else {
            sorting::lemma_sorted_keeps_elements(c[n - 1], reads_before(c[n - 1]));
        }
    }
}

/// A placed glyph stands for one glyph of one run: it has that glyph's code,
/// text, origin and span, its run's rise, and the place along and across its
/// baseline that its origin gives it. The glyphs come run by run, each run's in
/// order.
pub proof fn law_placed_glyphs_keep_their_source<S: Scalar>(
    runs: Seq<ResolvedRun<S>>,
    n: int,
    k: int,
)
    requires
        0 <= n <= runs.len() <= usize::MAX,
        0 <= k < placed_runs(runs, n).len(),
    ensures
        ({
            let g = placed_runs(runs, n)[k];
            let r = runs[g.run as int];
            let s = r.run.glyphs@[g.index as int];
            let sin = g.direction.spec_sine();
            let cos = g.direction.spec_cosine();
            &&& g.run < n
            &&& g.index < r.run.glyphs@.len()
            &&& g.code == s.code && g.origin == s.origin && g.span == s.span
            &&& g.rise == r.run.rise
            &&& g.index < r.text@.len() ==> g.text == r.text@[g.index as int]
            &&& g.index >= r.text@.len() ==> g.text is None
            &&& g.index < r.strategies@.len() ==> g.strategy == r.strategies@[g.index as int]
            &&& !r.run.vertical ==> g.direction == r.run.rotation
            &&& r.run.vertical ==> g.direction == r.run.rotation.spec_plus(
                scalar::pi::<S>().spec_over(S::spec_ratio(2, 1)),
            )
            &&& g.tangent == s.origin.x.spec_times(cos).spec_plus(s.origin.y.spec_times(sin))
            &&& g.normal == s.origin.x.spec_neg().spec_times(sin).spec_plus(
                s.origin.y.spec_times(cos),
            )
            &&& r.run.scale_y.spec_finite() && scalar::zero::<S>().spec_lt(r.run.scale_y)
                ==> g.size == r.run.scale_y
            &&& !scalar::zero::<S>().spec_lt(r.run.scale_y) ==> g.size == r.run.size
            &&& k + 1 < placed_runs(runs, n).len() ==> {
                let next = placed_runs(runs, n)[k + 1];
                ||| next.run == g.run && next.index == g.index + 1
                ||| g.run < next.run && next.index == 0 && g.index + 1 == r.run.glyphs@.len()
            }
        }),
    decreases n,
{
    if n > 0 {
        let front = placed_runs(runs, n - 1);
        let own = placed_run(runs[n - 1], (n - 1) as usize);
        assert(runs[n - 1].run.glyphs.len() == runs[n - 1].run.glyphs@.len());
        if k < front.len() {
            law_placed_glyphs_keep_their_source(runs, n - 1, k);
            if k + 1 == front.len() && own.len() > 0 {
                lemma_placed_ends(runs, n - 1);
            }
        } else {
            let i = k - front.len();
            assert(placed_runs(runs, n)[k] == own[i]);
            if i + 1 < own.len() {
                assert(placed_runs(runs, n)[k + 1] == own[i + 1]);
            }
        }
    }
}

proof fn lemma_placed_ends<S: Scalar>(runs: Seq<ResolvedRun<S>>, n: int)
    requires
        0 <= n <= runs.len() <= usize::MAX,
        placed_runs(runs, n).len() > 0,
    ensures
        ({
            let g = placed_runs(runs, n).last();
            g.run < n && g.index + 1 == runs[g.run as int].run.glyphs@.len()
        }),
    decreases n,
{
    let own = placed_run(runs[n - 1], (n - 1) as usize);
    assert(runs[n - 1].run.glyphs.len() == runs[n - 1].run.glyphs@.len());
    if own.len() == 0 {
        assert(placed_runs(runs, n) =~= placed_runs(runs, n - 1));
        lemma_placed_ends(runs, n - 1);
    } else {
        assert(placed_runs(runs, n).last() == own.last());
    }
}

/// Every glyph of every run is placed.
pub proof fn law_every_glyph_is_placed<S: Scalar>(
    runs: Seq<ResolvedRun<S>>,
    n: int,
    run: usize,
    index: usize,
)
    requires
        0 <= run < n <= runs.len() <= usize::MAX,
        index < runs[run as int].run.glyphs@.len(),
    ensures
        exists|k: int|
            0 <= k < placed_runs(runs, n).len() && (#[trigger] placed_runs(runs, n)[k]).run == run
                && placed_runs(runs, n)[k].index == index,
    decreases n,
{
    let front = placed_runs(runs, n - 1);
    let own = placed_run(runs[n - 1], (n - 1) as usize);
    if run < n - 1 {
        law_every_glyph_is_placed(runs, n - 1, run, index);
        let k = choose|k: int|
            0 <= k < front.len() && (#[trigger] front[k]).run == run && front[k].index == index;
        assert(placed_runs(runs, n)[k] == front[k]);
    } else {
        assert(placed_runs(runs, n)[front.len() + index] == own[index as int]);
    }
}

/// The text of a line is the whole text of each glyph that has any, end to end.
pub proof fn law_a_lines_text_is_that_of_its_glyphs<S>(g: Seq<PlacedGlyph<S>>)
    ensures
        glyphs_text(g, g.len() as int) == Seq::new(
            g.len(),
            |i: int|
                match g[i].text {
                    Some(t) => t@,
                    None => Seq::empty(),
                },
        ).flatten(),
{
    lemma_glyphs_text(g, g.len() as int);
    let part = |i: int|
        match g[i].text {
            Some(t) => t@,
            None => Seq::<char>::empty(),
        };
    assert(Seq::new(g.len(), part) =~= Seq::new(
        g.len(),
        |i: int|
            match g[i].text {
                Some(t) => t@,
                None => Seq::empty(),
            },
    ));
}

proof fn lemma_glyphs_text<S>(g: Seq<PlacedGlyph<S>>, n: int)
    requires
        0 <= n <= g.len(),
    ensures
        glyphs_text(g, n) == Seq::new(
            n as nat,
            |i: int|
                match g[i].text {
                    Some(t) => t@,
                    None => Seq::empty(),
                },
        ).flatten(),
    decreases n,
{
    let part = |i: int|
        match g[i].text {
            Some(t) => t@,
            None => Seq::<char>::empty(),
        };
    let all = Seq::new(n as nat, part);
    if n > 0 {
        lemma_glyphs_text(g, n - 1);
        let before = Seq::new((n - 1) as nat, part);
        assert(all =~= before.push(part(n - 1)));
        before.lemma_flatten_push(part(n - 1));
    } else {
        assert(all =~= Seq::<Seq<char>>::empty());
    }
}

/// The line at a place comes from a cluster of glyphs, all of one direction.
proof fn lemma_line_source<S: Scalar>(g: Seq<PlacedGlyph<S>>, i: int) -> (c: Seq<PlacedGlyph<S>>)
    requires
        0 <= i < assembled(g).len(),
    ensures
        c.len() > 0,
        assembled(g)[i] == line_of(read_order(c)),
        exists|k: int|
            0 <= k < g.len() && #[trigger] one_way(g[k], c),
{
    broadcast use vstd::seq_lib::group_to_multiset_ensures;

    let b = buckets_of(g, g.len() as int);
    let all = all_bucket_lines(b, b.len() as int);
    let less = |a: LineModel<S>, b: LineModel<S>| a.above(b);
    sorting::lemma_sorted_keeps_elements(all, less);
    let l = assembled(g)[i];
    assert(assembled(g).contains(l));
    assert(assembled(g).to_multiset().count(l) > 0);
    assert(all.to_multiset().count(l) > 0);
    assert(all.contains(l));
    let k = choose|k: int| 0 <= k < all.len() && all[k] == l;
    let (c, m) = lemma_bucket_line_source(b, b.len() as int, k);
    lemma_buckets_one_way(g, g.len() as int);
    let at = choose|at: int| 0 <= at < g.len() && #[trigger] one_way(g[at], b[m].glyphs);
    assert forall|x: PlacedGlyph<S>| #[trigger] c.contains(x) implies x == g[at]
        || same_direction(g[at].direction, x.direction) by {
        assert(b[m].glyphs.contains(x));
    }
    assert(one_way(g[at], c));
    c
}

/// Whether glyphs all have the direction of one.
spec fn one_way<S: Scalar>(first: PlacedGlyph<S>, c: Seq<PlacedGlyph<S>>) -> bool {
    forall|x: PlacedGlyph<S>| #[trigger]
        c.contains(x) ==> x == first || same_direction(first.direction, x.direction)
}

proof fn lemma_buckets_one_way<S: Scalar>(g: Seq<PlacedGlyph<S>>, n: int)
    requires
        0 <= n <= g.len(),
    ensures
        forall|m: int|
            0 <= m < buckets_of(g, n).len() ==> exists|at: int|
                0 <= at < n && (#[trigger] g[at]).direction == (
                #[trigger] buckets_of(g, n)[m]).direction && one_way(
                    g[at],
                    buckets_of(g, n)[m].glyphs,
                ),
    decreases n,
{
    if n > 0 {
        lemma_buckets_one_way(g, n - 1);
        let before = buckets_of(g, n - 1);
        let after = buckets_of(g, n);
        let x = g[n - 1];
        let k = bucket_for(before, x.direction, 0);
        lemma_bucket_for(before, x.direction, 0);
        assert forall|m: int| 0 <= m < after.len() implies exists|at: int|
            0 <= at < n && (#[trigger] g[at]).direction == (#[trigger] after[m]).direction
                && one_way(g[at], after[m].glyphs) by {
            if m < before.len() {
                let at = choose|at: int|
                    0 <= at < n - 1 && (#[trigger] g[at]).direction == before[m].direction
                        && one_way(g[at], before[m].glyphs);
                if m == k {
                    assert forall|y: PlacedGlyph<S>| #[trigger] after[m].glyphs.contains(y) implies y
                        == g[at] || same_direction(g[at].direction, y.direction) by {
                        let q = choose|q: int|
                            0 <= q < after[m].glyphs.len() && after[m].glyphs[q] == y;
                        if q < before[m].glyphs.len() {
                            assert(before[m].glyphs[q] == y);
                            assert(before[m].glyphs.contains(y));
                        }
                    }
                    assert(one_way(g[at], after[m].glyphs));
                } else {
                    assert(after[m] == before[m]);
                }
                assert(g[at].direction == after[m].direction);
            } else {
                assert(after[m].glyphs =~= seq![x]);
                assert(one_way(x, seq![x]));
                assert(g[n - 1].direction == after[m].direction);
            }
        }
    }
}

proof fn lemma_bucket_for<S: Scalar>(b: Seq<Bucket<S>>, direction: S, from: int)
    requires
        0 <= from <= b.len(),
    ensures
        from <= bucket_for(b, direction, from) <= b.len(),
        bucket_for(b, direction, from) < b.len() ==> same_direction(
            b[bucket_for(b, direction, from)].direction,
            direction,
        ),
        forall|m: int|
            from <= m < bucket_for(b, direction, from) ==> !same_direction(
                (#[trigger] b[m]).direction,
                direction,
            ),
    decreases b.len() - from,
{
    if from < b.len() && !same_direction(b[from].direction, direction) {
        lemma_bucket_for(b, direction, from + 1);
    }
}

proof fn lemma_bucket_line_source<S: Scalar>(b: Seq<Bucket<S>>, n: int, k: int) -> (r: (
    Seq<PlacedGlyph<S>>,
    int,
))
    requires
        n <= b.len(),
        0 <= k < all_bucket_lines(b, n).len(),
    ensures
        r.0.len() > 0,
        0 <= r.1 < n,
        all_bucket_lines(b, n)[k] == line_of(read_order(r.0)),
        forall|x: PlacedGlyph<S>| #[trigger] r.0.contains(x) ==> b[r.1].glyphs.contains(x),
    decreases n,
{
    let front = all_bucket_lines(b, n - 1);
    if k < front.len() {
        lemma_bucket_line_source(b, n - 1, k)
    } else {
        let all = b[n - 1].glyphs;
        let sorted = sorting::sorted_by(all, by_normal());
        let c = clusters_of(sorted, sorted.len() as int);
        lemma_merged_length(c, c.len() as int);
        let j = lemma_lines_from_source(merged(c, c.len() as int), c.len() as int, k - front.len());
        let own = merged(c, c.len() as int)[j];
        assert forall|x: PlacedGlyph<S>| #[trigger] own.contains(x) implies all.contains(x) by {
            let i = lemma_merged_member(c, c.len() as int, j, x);
            lemma_cluster_member(sorted, sorted.len() as int, i, x);
            lemma_sorted_member(all, x);
        }
        (own, n - 1)
    }
}

proof fn lemma_sorted_member<S: Scalar>(all: Seq<PlacedGlyph<S>>, x: PlacedGlyph<S>)
    requires
        sorting::sorted_by(all, by_normal()).contains(x),
    ensures
        all.contains(x),
{
    broadcast use vstd::seq_lib::group_to_multiset_ensures;

    sorting::lemma_sorted_keeps_elements(all, by_normal());
    assert(sorting::sorted_by(all, by_normal()).to_multiset().count(x) > 0);
    assert(all.to_multiset().count(x) > 0);
}

proof fn lemma_lines_from_source<S: Scalar>(c: Seq<Seq<PlacedGlyph<S>>>, n: int, k: int) -> (j: int)
    requires
        n <= c.len(),
        0 <= k < lines_from(c, n).len(),
    ensures
        0 <= j < n,
        c[j].len() > 0,
        lines_from(c, n)[k] == line_of(read_order(c[j])),
    decreases n,
{
    if k < lines_from(c, n - 1).len() {
        lemma_lines_from_source(c, n - 1, k)
    } else {
        n - 1
    }
}

proof fn lemma_cluster_member<S: Scalar>(
    g: Seq<PlacedGlyph<S>>,
    n: int,
    i: int,
    x: PlacedGlyph<S>,
)
    requires
        0 <= n <= g.len(),
        0 <= i < clusters_of(g, n).len(),
        clusters_of(g, n)[i].contains(x),
    ensures
        g.contains(x),
    decreases n,
{
    let before = clusters_of(g, n - 1);
    let own = clusters_of(g, n)[i];
    let q = choose|q: int| 0 <= q < own.len() && own[q] == x;
    if n > 1 && on_baseline(g[n - 2], g[n - 1]) {
        lemma_clusters_last(g, n - 1);
    }
    if i < before.len() && q < before[i].len() {
        assert(before[i][q] == x);
        assert(before[i].contains(x));
        lemma_cluster_member(g, n - 1, i, x);
    } else {
        assert(g[n - 1] == x);
    }
}

proof fn lemma_absorbed_member<S: Scalar>(
    c: Seq<Seq<PlacedGlyph<S>>>,
    i: int,
    size: S,
    normal: S,
    upto: int,
    j: int,
    x: PlacedGlyph<S>,
) -> (k: int)
    requires
        0 <= i < c.len(),
        upto <= c.len(),
        0 <= j < c.len(),
        absorbed(c, i, size, normal, upto)[j].contains(x),
    ensures
        0 <= k < c.len(),
        c[k].contains(x),
    decreases upto,
{
    if upto <= 0 {
        j
    } else {
        let before = absorbed(c, i, size, normal, upto - 1);
        lemma_absorbed_length(c, i, size, normal, upto - 1);
        let after = absorbed(c, i, size, normal, upto);
        let q = choose|q: int| 0 <= q < after[j].len() && after[j][q] == x;
        let m = upto - 1;
        if before[j].contains(x) {
            lemma_absorbed_member(c, i, size, normal, upto - 1, j, x)
        } else {
            assert(j == i && after[j] == before[i] + before[m]);
            if q < before[i].len() {
                assert(before[i][q] == x);
            } else {
                assert(before[m][q - before[i].len()] == x);
            }
            lemma_absorbed_member(c, i, size, normal, upto - 1, m, x)
        }
    }
}

proof fn lemma_merged_member<S: Scalar>(
    c: Seq<Seq<PlacedGlyph<S>>>,
    upto: int,
    j: int,
    x: PlacedGlyph<S>,
) -> (k: int)
    requires
        upto <= c.len(),
        0 <= j < c.len(),
        merged(c, upto)[j].contains(x),
    ensures
        0 <= k < c.len(),
        c[k].contains(x),
    decreases upto,
{
    if upto <= 0 {
        j
    } else {
        let before = merged(c, upto - 1);
        lemma_merged_length(c, upto - 1);
        let i = upto - 1;
        if before[i].len() == 0 {
            lemma_merged_member(c, upto - 1, j, x)
        } else {
            let m = lemma_absorbed_member(
                before,
                i,
                modal_size_of(before[i]),
                median_normal_of(before[i]),
                c.len() as int,
                j,
                x,
            );
            lemma_merged_member(c, upto - 1, m, x)
        }
    }
}

/// The glyphs of a line share the direction of one glyph of the page, which the
/// line takes from the first of its own.
pub proof fn law_a_line_runs_one_way<S: Scalar>(g: Seq<PlacedGlyph<S>>, i: int)
    requires
        0 <= i < assembled(g).len(),
    ensures
        assembled(g)[i].direction == assembled(g)[i].glyphs[0].direction,
        exists|k: int|
            0 <= k < g.len() && forall|j: int|
                0 <= j < assembled(g)[i].glyphs.len() ==> assembled(g)[i].glyphs[j] == g[k]
                    || same_direction(
                    (#[trigger] g[k]).direction,
                    (#[trigger] assembled(g)[i].glyphs[j]).direction,
                ),
{
    let c = lemma_line_source(g, i);
    sorting::lemma_sorted_keeps_elements(c, reads_before(c));
    let k = choose|k: int| 0 <= k < g.len() && #[trigger] one_way(g[k], c);
    let l = assembled(g)[i];
    assert forall|j: int| 0 <= j < l.glyphs.len() implies l.glyphs[j] == g[k] || same_direction(
        (#[trigger] g[k]).direction,
        (#[trigger] l.glyphs[j]).direction,
    ) by {
        lemma_read_member(c, j);
    }
    assert(g[k] == g[k]);
}

proof fn lemma_read_member<S: Scalar>(c: Seq<PlacedGlyph<S>>, j: int)
    requires
        0 <= j < read_order(c).len(),
    ensures
        c.contains(read_order(c)[j]),
{
    broadcast use vstd::seq_lib::group_to_multiset_ensures;

    sorting::lemma_sorted_keeps_elements(c, reads_before(c));
    let x = read_order(c)[j];
    assert(read_order(c).contains(x));
    assert(read_order(c).to_multiset().count(x) > 0);
    assert(c.to_multiset().count(x) > 0);
}

proof fn lemma_read_all<S: Scalar>(c: Seq<PlacedGlyph<S>>, x: PlacedGlyph<S>)
    requires
        c.contains(x),
    ensures
        read_order(c).contains(x),
{
    broadcast use vstd::seq_lib::group_to_multiset_ensures;

    sorting::lemma_sorted_keeps_elements(c, reads_before(c));
    assert(c.to_multiset().count(x) > 0);
    assert(read_order(c).to_multiset().count(x) > 0);
}

/// Lines are read down the page: no line's baseline is before that of an earlier
/// line, and where two have one baseline the one that starts first comes first.
pub proof fn law_lines_are_read_down_the_page<S: Scalar>(g: Seq<PlacedGlyph<S>>, i: int, j: int)
    requires
        scalar::orderly::<S>(),
        0 <= i < j < assembled(g).len(),
    ensures
        assembled(g)[i].baseline.spec_le(assembled(g)[j].baseline),
        assembled(g)[i].baseline == assembled(g)[j].baseline
            ==> assembled(g)[i].glyphs[0].tangent.spec_le(assembled(g)[j].glyphs[0].tangent),
{
    let b = buckets_of(g, g.len() as int);
    let less = |a: LineModel<S>, b: LineModel<S>| a.above(b);
    lemma_above_orders::<S>();
    sorting::lemma_sorted_is_in_order(all_bucket_lines(b, b.len() as int), less);
    let x = assembled(g)[i];
    let y = assembled(g)[j];
    law_no_line_is_empty(g, i);
    law_no_line_is_empty(g, j);
    assert(!less(y, x));
    scalar::lemma_order(y.baseline, x.baseline, y.baseline);
    scalar::lemma_order(x.baseline, y.baseline, x.baseline);
    scalar::lemma_order(y.start(), x.start(), y.start());
}

proof fn lemma_above_orders<S: Scalar>()
    requires
        scalar::orderly::<S>(),
    ensures
        sorting::strict_weak_order(|a: LineModel<S>, b: LineModel<S>| a.above(b)),
{
    let less = |a: LineModel<S>, b: LineModel<S>| a.above(b);
    assert forall|a: LineModel<S>| !#[trigger] less(a, a) by {
        scalar::lemma_order(a.baseline, a.baseline, a.baseline);
        scalar::lemma_order(a.start(), a.start(), a.start());
    }
    assert forall|a: LineModel<S>, b: LineModel<S>, c: LineModel<S>| #[trigger]
        less(a, b) && #[trigger] less(b, c) implies less(a, c) by {
        scalar::lemma_order(a.baseline, b.baseline, c.baseline);
        scalar::lemma_order(b.baseline, a.baseline, a.baseline);
        scalar::lemma_order(c.baseline, b.baseline, b.baseline);
        scalar::lemma_order(c.baseline, a.baseline, b.baseline);
        scalar::lemma_order(a.start(), b.start(), c.start());
    }
    assert forall|a: LineModel<S>, b: LineModel<S>, c: LineModel<S>| !#[trigger] less(a, b)
        && !#[trigger] less(b, c) implies !less(a, c) by {
        scalar::lemma_order(a.baseline, b.baseline, c.baseline);
        scalar::lemma_order(c.baseline, b.baseline, a.baseline);
        scalar::lemma_order(b.baseline, a.baseline, c.baseline);
        scalar::lemma_order(b.baseline, c.baseline, a.baseline);
        scalar::lemma_order(a.baseline, c.baseline, b.baseline);
        scalar::lemma_order(c.baseline, a.baseline, b.baseline);
        scalar::lemma_order(c.start(), b.start(), a.start());
        scalar::lemma_order(a.start(), b.start(), c.start());
        scalar::lemma_order(b.start(), c.start(), a.start());
        scalar::lemma_order(a.start(), c.start(), b.start());
    }
}

/// Within a line the glyphs of a run stay as the producer showed them, and a run
/// comes before another only where its leftmost glyph starts no later than all
/// of the other's.
pub proof fn law_a_line_is_read_run_by_run<S: Scalar>(
    g: Seq<PlacedGlyph<S>>,
    k: int,
    i: int,
    j: int,
)
    requires
        scalar::orderly::<S>(),
        0 <= k < assembled(g).len(),
        0 <= i < j < assembled(g)[k].glyphs.len(),
    ensures
        ({
            let l = assembled(g)[k].glyphs;
            &&& l[i].run == l[j].run ==> l[i].index <= l[j].index
            &&& l[i].run != l[j].run ==> exists|a: int|
                0 <= a < l.len() && (#[trigger] l[a]).run == l[i].run && forall|b: int|
                    0 <= b < l.len() && (#[trigger] l[b]).run == l[j].run
                        ==> l[a].tangent.spec_le(l[b].tangent)
        }),
{
    let c = lemma_line_source(g, k);
    let l = read_order(c);
    assert(assembled(g)[k].glyphs == l);
    lemma_reads_before_orders(c);
    sorting::lemma_sorted_is_in_order(c, reads_before(c));
    sorting::lemma_sorted_keeps_elements(c, reads_before(c));
    let less = reads_before(c);
    assert(!less(l[j], l[i]));
    let n = c.len() as int;
    lemma_read_member(c, i);
    lemma_read_member(c, j);
    lemma_run_start(c, l[i].run, n);
    lemma_run_start(c, l[j].run, n);
    let p = choose|p: int| 0 <= p < c.len() && c[p] == l[i];
    let q = choose|q: int| 0 <= q < c.len() && c[q] == l[j];
    assert(run_start(c, l[i].run, n) is Some) by {
        assert(c[p].run == l[i].run);
    }
    assert(run_start(c, l[j].run, n) is Some) by {
        assert(c[q].run == l[j].run);
    }
    let at = run_start(c, l[i].run, n)->0;
    let other = run_start(c, l[j].run, n)->0;
    scalar::lemma_order(at, other, at);
    scalar::lemma_order(other, at, other);
    if l[i].run != l[j].run {
        let m = choose|m: int|
            0 <= m < n && (#[trigger] c[m]).run == l[i].run && c[m].tangent == at;
        lemma_read_all(c, c[m]);
        let a = choose|a: int| 0 <= a < l.len() && l[a] == c[m];
        assert forall|b: int| 0 <= b < l.len() && (#[trigger] l[b]).run == l[j].run implies l[
            a].tangent.spec_le(l[b].tangent) by {
            lemma_read_member(c, b);
            let d = choose|d: int| 0 <= d < c.len() && c[d] == l[b];
            assert(c[d].run == l[j].run);
            scalar::lemma_order(at, other, c[d].tangent);
        }
        assert(l[a].run == l[i].run);
    }
}

proof fn lemma_run_start<S: Scalar>(g: Seq<PlacedGlyph<S>>, run: usize, n: int)
    requires
        scalar::orderly::<S>(),
        0 <= n <= g.len(),
    ensures
        match run_start(g, run, n) {
            Some(at) => {
                &&& exists|m: int|
                    0 <= m < n && (#[trigger] g[m]).run == run && g[m].tangent == at
                &&& forall|m: int|
                    0 <= m < n && (#[trigger] g[m]).run == run ==> at.spec_le(g[m].tangent)
            },
            None => forall|m: int| 0 <= m < n ==> (#[trigger] g[m]).run != run,
        },
    decreases n,
{
    if n > 0 {
        lemma_run_start(g, run, n - 1);
        let x = g[n - 1];
        scalar::lemma_order(x.tangent, x.tangent, x.tangent);
        if x.run == run {
            if let Some(at) = run_start(g, run, n - 1) {
                scalar::lemma_order(at, x.tangent, at);
                scalar::lemma_order(x.tangent, at, x.tangent);
                assert forall|m: int| 0 <= m < n && (#[trigger] g[m]).run == run implies run_start(
                    g,
                    run,
                    n,
                )->0.spec_le(g[m].tangent) by {
                    scalar::lemma_order(x.tangent, at, g[m].tangent);
                }
                let m = choose|m: int|
                    0 <= m < n - 1 && (#[trigger] g[m]).run == run && g[m].tangent == at;
                assert(g[m].run == run);
            }
            assert(g[n - 1].run == run);
        } else {
            if let Some(at) = run_start(g, run, n - 1) {
                let m = choose|m: int|
                    0 <= m < n - 1 && (#[trigger] g[m]).run == run && g[m].tangent == at;
                assert(g[m].run == run);
            }
        }
    }
}

proof fn lemma_reads_before_orders<S: Scalar>(all: Seq<PlacedGlyph<S>>)
    requires
        scalar::orderly::<S>(),
    ensures
        sorting::strict_weak_order(reads_before(all)),
{
    let less = reads_before(all);
    assert forall|a: PlacedGlyph<S>| !#[trigger] less(a, a) by {
        let x = run_key(all, a.run).0;
        scalar::lemma_order(x, x, x);
    }
    assert forall|a: PlacedGlyph<S>, b: PlacedGlyph<S>, c: PlacedGlyph<S>| #[trigger]
        less(a, b) && #[trigger] less(b, c) implies less(a, c) by {
        let x = run_key(all, a.run).0;
        let y = run_key(all, b.run).0;
        let z = run_key(all, c.run).0;
        scalar::lemma_order(x, y, z);
        scalar::lemma_order(y, x, x);
        scalar::lemma_order(z, y, y);
        scalar::lemma_order(z, y, x);
    }
    assert forall|a: PlacedGlyph<S>, b: PlacedGlyph<S>, c: PlacedGlyph<S>| !#[trigger] less(a, b)
        && !#[trigger] less(b, c) implies !less(a, c) by {
        let x = run_key(all, a.run).0;
        let y = run_key(all, b.run).0;
        let z = run_key(all, c.run).0;
        scalar::lemma_order(x, y, z);
        scalar::lemma_order(z, y, x);
        scalar::lemma_order(y, x, z);
        scalar::lemma_order(y, z, x);
        scalar::lemma_order(x, z, y);
        scalar::lemma_order(z, x, y);
    }
}

/// The point some way along a glyph's baseline from its origin, and some way
/// across it.
pub open spec fn beside<S: Scalar>(g: PlacedGlyph<S>, along: S, across: S) -> Point<S> {
    let sin = g.direction.spec_sine();
    let cos = g.direction.spec_cosine();
    Point {
        x: g.origin.x.spec_plus(along.spec_times(cos)).spec_minus(across.spec_times(sin)),
        y: g.origin.y.spec_plus(along.spec_times(sin)).spec_plus(across.spec_times(cos)),
    }
}

/// Whether a rectangle holds a point.
pub open spec fn holds<S: Scalar>(r: Rect<S>, p: Point<S>) -> bool {
    r.x0.spec_le(p.x) && p.x.spec_le(r.x1) && r.y0.spec_le(p.y) && p.y.spec_le(r.y1)
}

/// Whether a rectangle holds a glyph: its advance along the baseline, from three
/// quarters of its size above to a quarter below.
pub open spec fn holds_glyph<S: Scalar>(r: Rect<S>, g: PlacedGlyph<S>) -> bool {
    let none = S::spec_ratio(0, 1);
    let up = g.size.spec_times(S::spec_ratio(75, 100)).spec_neg();
    let down = g.size.spec_times(S::spec_ratio(25, 100));
    &&& holds(r, beside(g, none, up))
    &&& holds(r, beside(g, g.advance, up))
    &&& holds(r, beside(g, none, down))
    &&& holds(r, beside(g, g.advance, down))
}

/// A line's box holds its glyphs, and lies in every rectangle that does. Its
/// baseline is the normal of one of its glyphs and its size the size of one.
pub proof fn law_a_lines_box_holds_its_glyphs<S: Scalar>(
    g: Seq<PlacedGlyph<S>>,
    k: int,
    outer: Rect<S>,
)
    requires
        scalar::orderly::<S>(),
        0 <= k < assembled(g).len(),
    ensures
        ({
            let l = assembled(g)[k];
            &&& forall|i: int|
                0 <= i < l.glyphs.len() ==> holds_glyph(l.bbox, #[trigger] l.glyphs[i])
            &&& (forall|i: int|
                0 <= i < l.glyphs.len() ==> holds_glyph(outer, #[trigger] l.glyphs[i])) ==> {
                &&& outer.x0.spec_le(l.bbox.x0) && outer.y0.spec_le(l.bbox.y0)
                &&& l.bbox.x1.spec_le(outer.x1) && l.bbox.y1.spec_le(outer.y1)
            }
            &&& exists|i: int|
                0 <= i < l.glyphs.len() && (#[trigger] l.glyphs[i]).normal == l.baseline
            &&& exists|i: int| 0 <= i < l.glyphs.len() && (#[trigger] l.glyphs[i]).size == l.size
        }),
{
    broadcast use vstd::seq_lib::group_to_multiset_ensures;

    let c = lemma_line_source(g, k);
    let l = read_order(c);
    sorting::lemma_sorted_keeps_elements(c, reads_before(c));
    lemma_glyphs_box(l, l.len() as int, outer);
    lemma_full_box(outer);
    stats::law_the_mode_is_one_of_them(sizes(l), S::spec_ratio(5, 100));
    let i = choose|i: int| 0 <= i < sizes(l).len() && sizes(l)[i] == assembled(g)[k].size;
    let made = assembled(g)[k];
    assert(made.glyphs == l && made.bbox == glyphs_box(l, l.len() as int));
    assert(made.glyphs[i].size == made.size);
    let v = normals(l);
    stats::law_the_median_is_in_the_middle(v);
    let (s, m) = choose|s: Seq<S>, m: int|
        #[trigger] s.to_multiset() == v.to_multiset() && s.len() == v.len() && 0 <= m < s.len()
            && #[trigger] s[m] == stats::median_of(v);
    assert(s.contains(s[m]));
    assert(s.to_multiset().count(s[m]) > 0);
    assert(v.contains(stats::median_of(v)));
    let j = choose|j: int| 0 <= j < v.len() && v[j] == stats::median_of(v);
    assert(made.glyphs[j].normal == made.baseline);
}

proof fn lemma_full_box<S: Scalar>(outer: Rect<S>)
    requires
        scalar::orderly::<S>(),
    ensures
        outer.x0.spec_le(S::spec_highest()) && outer.y0.spec_le(S::spec_highest()),
        S::spec_lowest().spec_le(outer.x1) && S::spec_lowest().spec_le(outer.y1),
{
}

/// The box of glyphs holds them, and lies in every rectangle that does.
pub proof fn lemma_glyphs_box<S: Scalar>(g: Seq<PlacedGlyph<S>>, n: int, outer: Rect<S>)
    requires
        scalar::orderly::<S>(),
        0 <= n <= g.len(),
    ensures
        forall|i: int| 0 <= i < n ==> holds_glyph(glyphs_box(g, n), #[trigger] g[i]),
        (forall|i: int| 0 <= i < n ==> holds_glyph(outer, #[trigger] g[i]))
            ==> crate::geometry::encloses(outer, glyphs_box(g, n)),
    decreases n,
{
    if n > 0 {
        lemma_glyphs_box(g, n - 1, outer);
        let before = glyphs_box(g, n - 1);
        let after = glyphs_box(g, n);
        lemma_with_glyph(before, g[n - 1], outer);
        assert forall|i: int| 0 <= i < n implies holds_glyph(after, #[trigger] g[i]) by {
            if i < n - 1 {
                lemma_holds_glyph(before, after, g[i]);
            }
        }
    } else {
        lemma_full_box(outer);
    }
}

proof fn lemma_holds<S: Scalar>(inner: Rect<S>, outer: Rect<S>, p: Point<S>)
    requires
        scalar::orderly::<S>(),
        crate::geometry::encloses(outer, inner),
        holds(inner, p),
    ensures
        holds(outer, p),
{
    scalar::lemma_order(outer.x0, inner.x0, p.x);
    scalar::lemma_order(outer.y0, inner.y0, p.y);
    scalar::lemma_order(p.x, inner.x1, outer.x1);
    scalar::lemma_order(p.y, inner.y1, outer.y1);
}

proof fn lemma_holds_glyph<S: Scalar>(inner: Rect<S>, outer: Rect<S>, g: PlacedGlyph<S>)
    requires
        scalar::orderly::<S>(),
        crate::geometry::encloses(outer, inner),
        holds_glyph(inner, g),
    ensures
        holds_glyph(outer, g),
{
    let none = S::spec_ratio(0, 1);
    let up = g.size.spec_times(S::spec_ratio(75, 100)).spec_neg();
    let down = g.size.spec_times(S::spec_ratio(25, 100));
    lemma_holds(inner, outer, beside(g, none, up));
    lemma_holds(inner, outer, beside(g, g.advance, up));
    lemma_holds(inner, outer, beside(g, none, down));
    lemma_holds(inner, outer, beside(g, g.advance, down));
}

proof fn lemma_encloses<S: Scalar>(a: Rect<S>, b: Rect<S>, c: Rect<S>)
    requires
        scalar::orderly::<S>(),
        crate::geometry::encloses(a, b),
        crate::geometry::encloses(b, c),
    ensures
        crate::geometry::encloses(a, c),
{
    scalar::lemma_order(a.x0, b.x0, c.x0);
    scalar::lemma_order(a.y0, b.y0, c.y0);
    scalar::lemma_order(c.x1, b.x1, a.x1);
    scalar::lemma_order(c.y1, b.y1, a.y1);
}

proof fn lemma_with_glyph<S: Scalar>(r: Rect<S>, g: PlacedGlyph<S>, outer: Rect<S>)
    requires
        scalar::orderly::<S>(),
    ensures
        crate::geometry::encloses(with_glyph(r, g), r),
        holds_glyph(with_glyph(r, g), g),
        crate::geometry::encloses(outer, r) && holds_glyph(outer, g) ==> crate::geometry::encloses(
            outer,
            with_glyph(r, g),
        ),
{
    let none = S::spec_ratio(0, 1);
    let up = g.size.spec_times(S::spec_ratio(75, 100)).spec_neg();
    let down = g.size.spec_times(S::spec_ratio(25, 100));
    let a = beside(g, none, up);
    let b = beside(g, g.advance, up);
    let c = beside(g, none, down);
    let d = beside(g, g.advance, down);
    let r1 = r.spec_extended(a.x, a.y);
    let r2 = r1.spec_extended(b.x, b.y);
    let r3 = r2.spec_extended(c.x, c.y);
    let r4 = r3.spec_extended(d.x, d.y);
    crate::geometry::law_an_extended_rectangle_holds_the_point(r, a.x, a.y, outer);
    crate::geometry::law_an_extended_rectangle_holds_the_point(r1, b.x, b.y, outer);
    crate::geometry::law_an_extended_rectangle_holds_the_point(r2, c.x, c.y, outer);
    crate::geometry::law_an_extended_rectangle_holds_the_point(r3, d.x, d.y, outer);
    assert(r4 == with_glyph(r, g));
    lemma_encloses(r2, r1, r);
    lemma_encloses(r3, r2, r);
    lemma_encloses(r4, r3, r);
    lemma_encloses(r4, r3, r2);
    lemma_encloses(r4, r2, r1);
    lemma_holds(r1, r4, a);
    lemma_holds(r2, r4, b);
    lemma_holds(r3, r4, c);
}

/// Glyphs sorted across a direction are split into clusters that follow one
/// another and hold all of them. Two neighbours share a cluster exactly where
/// their normals lie within three tenths of the larger size.
pub proof fn law_clusters_part_where_baselines_do<S: Scalar>(g: Seq<PlacedGlyph<S>>)
    ensures
        clusters_of(g, g.len() as int).flatten() == g,
        forall|k: int|
            0 <= k < clusters_of(g, g.len() as int).len() ==> (#[trigger] clusters_of(
                g,
                g.len() as int,
            )[k]).len() > 0,
        forall|k: int, i: int|
            #![trigger clusters_of(g, g.len() as int)[k][i]]
            0 <= k < clusters_of(g, g.len() as int).len() && 0 < i < clusters_of(
                g,
                g.len() as int,
            )[k].len() ==> near(
                clusters_of(g, g.len() as int)[k][i - 1],
                clusters_of(g, g.len() as int)[k][i],
            ),
        forall|k: int|
            0 < k < clusters_of(g, g.len() as int).len() ==> !near(
                clusters_of(g, g.len() as int)[k - 1].last(),
                (#[trigger] clusters_of(g, g.len() as int)[k])[0],
            ),
{
    assert(g.take(g.len() as int) =~= g);
    lemma_clusters(g, g.len() as int);
}

/// Whether two glyphs lie on one baseline, to within three tenths of the larger
/// size, of one point at least.
pub open spec fn near<S: Scalar>(a: PlacedGlyph<S>, b: PlacedGlyph<S>) -> bool {
    let size = a.size.spec_greatest(b.size).spec_greatest(S::spec_ratio(1, 1));
    b.normal.spec_minus(a.normal).spec_magnitude().spec_le(
        S::spec_ratio(3, 10).spec_times(size),
    )
}

proof fn lemma_clusters<S: Scalar>(g: Seq<PlacedGlyph<S>>, n: int)
    requires
        0 <= n <= g.len(),
    ensures
        clusters_of(g, n).flatten() == g.take(n),
        forall|k: int|
            0 <= k < clusters_of(g, n).len() ==> (#[trigger] clusters_of(g, n)[k]).len() > 0,
        forall|k: int, i: int|
            #![trigger clusters_of(g, n)[k][i]]
            0 <= k < clusters_of(g, n).len() && 0 < i < clusters_of(g, n)[k].len() ==> near(
                clusters_of(g, n)[k][i - 1],
                clusters_of(g, n)[k][i],
            ),
        forall|k: int|
            0 < k < clusters_of(g, n).len() ==> !near(
                clusters_of(g, n)[k - 1].last(),
                (#[trigger] clusters_of(g, n)[k])[0],
            ),
        n > 0 ==> clusters_of(g, n).len() > 0 && clusters_of(g, n).last().last() == g[n - 1],
    decreases n,
{
    let c = clusters_of(g, n);
    if n > 0 {
        lemma_clusters(g, n - 1);
        let before = clusters_of(g, n - 1);
        let x = g[n - 1];
        assert(g.take(n) =~= g.take(n - 1).push(x));
        if n > 1 && on_baseline(g[n - 2], x) {
            let front = before.drop_last();
            let last = before.last();
            assert(before =~= front.push(last));
            front.lemma_flatten_push(last);
            front.lemma_flatten_push(last.push(x));
            assert(front.flatten() + last.push(x) =~= (front.flatten() + last).push(x));
            let m = c.len() - 1;
            assert forall|k: int, i: int|
                #![trigger c[k][i]]
                0 <= k < c.len() && 0 < i < c[k].len() implies near(c[k][i - 1], c[k][i]) by {
                if k < m {
                    assert(c[k] == before[k]);
                    assert(near(before[k][i - 1], before[k][i]));
                } else if i < last.len() {
                    assert(before[m][i] == c[k][i]);
                    assert(near(before[m][i - 1], before[m][i]));
                }
            }
            assert forall|k: int| 0 < k < c.len() implies !near(
                c[k - 1].last(),
                (#[trigger] c[k])[0],
            ) by {
                assert(c[k - 1] == before[k - 1]);
                assert(c[k][0] == before[k][0]);
                assert(!near(before[k - 1].last(), before[k][0]));
            }
        } else {
            before.lemma_flatten_push(seq![x]);
            assert(before.flatten() + seq![x] =~= before.flatten().push(x));
            assert forall|k: int, i: int|
                #![trigger c[k][i]]
                0 <= k < c.len() && 0 < i < c[k].len() implies near(c[k][i - 1], c[k][i]) by {
                assert(c[k] == before[k]);
                assert(near(before[k][i - 1], before[k][i]));
            }
            assert forall|k: int| 0 < k < c.len() implies !near(
                c[k - 1].last(),
                (#[trigger] c[k])[0],
            ) by {
                assert(c[k - 1] == before[k - 1]);
                if k < before.len() {
                    assert(c[k] == before[k]);
                    assert(!near(before[k - 1].last(), before[k][0]));
                } else {
                    assert(before[k - 1].last() == g[n - 2]);
                }
            }
        }
    } else {
        assert(g.take(0) =~= Seq::empty());
    }
}

/// Whether a cluster is a script of a line: within six tenths of the line's size
/// of its normal, and either smaller than eight tenths of it or raised or
/// lowered throughout.
pub open spec fn attaches<S: Scalar>(line: Seq<PlacedGlyph<S>>, c: Seq<PlacedGlyph<S>>) -> bool {
    let size = modal_size_of(line);
    let off = median_normal_of(c).spec_minus(median_normal_of(line)).spec_magnitude();
    &&& off.spec_lt(S::spec_ratio(6, 10).spec_times(size))
    &&& modal_size_of(c).spec_lt(size.spec_times(S::spec_ratio(8, 10))) || forall|i: int|
        0 <= i < c.len() ==> scalar::epsilon::<S>().spec_lt(
            (#[trigger] c[i]).rise.spec_magnitude(),
        )
}

/// Clusters of which none is a script of another stay as they are.
pub proof fn law_lines_without_scripts_stay_apart<S: Scalar>(
    c: Seq<Seq<PlacedGlyph<S>>>,
    upto: int,
)
    requires
        0 <= upto <= c.len(),
        forall|i: int, j: int|
            0 <= i < c.len() && 0 <= j < c.len() && i != j ==> !attaches(
                #[trigger] c[i],
                #[trigger] c[j],
            ),
    ensures
        merged(c, upto) == c,
    decreases upto,
{
    if upto > 0 {
        law_lines_without_scripts_stay_apart(c, upto - 1);
        lemma_nothing_absorbed(c, upto - 1, c.len() as int);
    }
}

proof fn lemma_nothing_absorbed<S: Scalar>(c: Seq<Seq<PlacedGlyph<S>>>, i: int, upto: int)
    requires
        0 <= i < c.len(),
        0 <= upto <= c.len(),
        forall|i: int, j: int|
            0 <= i < c.len() && 0 <= j < c.len() && i != j ==> !attaches(
                #[trigger] c[i],
                #[trigger] c[j],
            ),
    ensures
        absorbed(c, i, modal_size_of(c[i]), median_normal_of(c[i]), upto) == c,
    decreases upto,
{
    if upto > 0 {
        lemma_nothing_absorbed(c, i, upto - 1);
        if i != upto - 1 {
            assert(!attaches(c[i], c[upto - 1]));
        }
    }
}

/// Of two clusters, the one that is a script of the other joins it, after its
/// glyphs.
pub proof fn law_a_script_joins_its_line<S: Scalar>(
    line: Seq<PlacedGlyph<S>>,
    script: Seq<PlacedGlyph<S>>,
)
    requires
        line.len() > 0,
        script.len() > 0,
        attaches(line, script),
        !attaches(script, line),
    ensures
        merged(seq![line, script], 2) == seq![line + script, Seq::empty()],
        merged(seq![script, line], 2) == seq![Seq::empty(), line + script],
{
    reveal_with_fuel(merged, 3);
    reveal_with_fuel(absorbed, 3);
    let a = seq![line, script];
    let b = seq![script, line];
    assert(absorbed(a, 0, modal_size_of(line), median_normal_of(line), 2) =~= seq![
        line + script,
        Seq::empty(),
    ]);
    assert(absorbed(b, 0, modal_size_of(script), median_normal_of(script), 2) =~= b);
    assert(absorbed(b, 1, modal_size_of(line), median_normal_of(line), 2) =~= seq![
        Seq::empty(),
        line + script,
    ]);
}

/// Directions are compared both ways alike, and each is the same as itself.
pub proof fn law_directions_compare_both_ways(a: scalar::Fixed, b: scalar::Fixed)
    requires
        i64::MIN < a.raw - b.raw <= i64::MAX,
    ensures
        same_direction(a, b) == same_direction(b, a),
        same_direction(a, a),
{
    let tau = scalar::tau::<scalar::Fixed>();
    let d = a.spec_minus(b).spec_magnitude();
    let e = b.spec_minus(a).spec_magnitude();
    assert(d == e);
    let none = a.spec_minus(a).spec_magnitude();
    assert(none.raw == 0);
    let pi = scalar::pi::<scalar::Fixed>();
    let x = scalar::abs(3_141_592_653_589_793i64 * 0x10000);
    let y = scalar::abs(1_000_000_000_000_000);
    assert(x / y >= 0) by (nonlinear_arith)
        requires
            x >= 0,
            y > 0,
    ;
    assert(pi.raw >= 0);
    let z = scalar::abs(0x10000);
    let h = scalar::abs(100);
    assert(z / h == 655) by (nonlinear_arith)
        requires
            z == 0x10000,
            h == 100,
    ;
    assert(scalar::div_toward_zero(0x10000, 100) == 655);
    assert(none.spec_rem(tau).raw == 0) by {
        if tau.raw != 0 {
            let m = scalar::abs(tau.raw as int);
            assert(0int % m == 0) by (nonlinear_arith)
                requires
                    m > 0,
            ;
        }
    }
}

/// A glyph advances by what its run says, in the units of the page: scaled by
/// the run's scale along the text over its size there, and as it is where that
/// is nothing.
pub proof fn law_a_glyph_advances_in_page_units<S: Scalar>(
    r: ResolvedRun<S>,
    run: usize,
    i: int,
)
    requires
        0 <= i < r.run.glyphs@.len(),
    ensures
        ({
            let g = placed_glyph(r, run, i);
            let own = r.run.glyphs@[i].advance;
            let tiny = S::spec_ratio(1, 0x10_0000_0000_0000);
            let across = r.run.size.spec_times(
                r.run.horizontal_scale.spec_over(S::spec_ratio(100, 1)),
            );
            &&& !r.run.vertical && tiny.spec_lt(across.spec_magnitude())
                && r.run.scale_x.spec_finite() ==> g.advance == own.spec_times(
                r.run.scale_x.spec_over(across),
            )
            &&& r.run.vertical && tiny.spec_lt(r.run.size.spec_magnitude())
                && r.run.scale_y.spec_finite() ==> g.advance == own.spec_times(
                r.run.scale_y.spec_over(r.run.size),
            )
            &&& !r.run.vertical && !tiny.spec_lt(across.spec_magnitude()) ==> g.advance
                == own.spec_times(S::spec_ratio(1, 1))
            &&& r.run.vertical && !tiny.spec_lt(r.run.size.spec_magnitude()) ==> g.advance
                == own.spec_times(S::spec_ratio(1, 1))
        }),
{
}

} // verus!
