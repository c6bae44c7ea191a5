//! Ruling lines.
//!
//! Two shapes count as a rule, because producers use both interchangeably: a
//! stroked segment, and a filled rectangle thin enough to read as a line.
//! Everything is recorded in device space, so a rule inside a rotated form
//! lands where it is drawn rather than where its operands say.

use vstd::prelude::*;

use crate::content::{GraphicsState, Op, OpKind, Step};
use crate::geometry::{Matrix, Point, Rect};
use crate::scalar;
use crate::scalar::Scalar;
use crate::sorting;

verus! {

/// A ruling line, in device space.
#[derive(Debug, Clone, Copy)]
pub struct Rule<S> {
    pub bbox: Rect<S>,
    pub horizontal: bool,
    /// The thin dimension.
    pub thickness: S,
    /// True when this came from a filled rectangle rather than a stroke.
    pub filled: bool,
}

/// A shape this thin reads as a line rather than as a box.
pub open spec fn max_thickness<S: Scalar>() -> S {
    S::spec_ratio(3, 1)
}

/// Shorter than this and it is a tick or a bullet, not a rule.
pub open spec fn min_length<S: Scalar>() -> S {
    S::spec_ratio(8, 1)
}

impl<S: Scalar> Rule<S> {
    pub open spec fn spec_length(self) -> S {
        if self.horizontal {
            self.bbox.spec_width()
        } else {
            self.bbox.spec_height()
        }
    }

    pub open spec fn spec_position(self) -> S {
        if self.horizontal {
            self.bbox.y0.spec_plus(self.bbox.y1).spec_over(S::spec_ratio(2, 1))
        } else {
            self.bbox.x0.spec_plus(self.bbox.x1).spec_over(S::spec_ratio(2, 1))
        }
    }

    pub open spec fn spec_spans(self, region: Rect<S>, fraction: S) -> bool {
        let whole = if self.horizontal {
            region.spec_width()
        } else {
            region.spec_height()
        };
        whole.spec_times(fraction).spec_le(self.spec_length())
    }

    /// Length along the rule's own direction.
    pub fn length(&self) -> (r: S)
        ensures
            r == self.spec_length(),
    {
        if self.horizontal {
            self.bbox.width()
        } else {
            self.bbox.height()
        }
    }

    /// Position across the rule: its `y` for a horizontal rule, its `x` for a
    /// vertical one.
    pub fn position(&self) -> (r: S)
        ensures
            r == self.spec_position(),
    {
        if self.horizontal {
            self.bbox.y0.plus(self.bbox.y1).over(S::ratio(2, 1))
        } else {
            self.bbox.x0.plus(self.bbox.x1).over(S::ratio(2, 1))
        }
    }

    /// Whether this rule spans most of a region, which is what makes it a cut
    /// hint rather than an underline under one word.
    pub fn spans(&self, region: &Rect<S>, fraction: S) -> (r: bool)
        ensures
            r == self.spec_spans(*region, fraction),
    {
        if self.horizontal {
            region.width().times(fraction).le(self.length())
        } else {
            region.height().times(fraction).le(self.length())
        }
    }
}

/// Gathers ruling lines from the operators of a page, in order.
#[derive(Debug)]
pub struct RuleCollector<S> {
    pub rules: Vec<Rule<S>>,
    /// Straight segments of the path under construction, in device space. A
    /// curve's endpoints say nothing about the path between them, so points are
    /// not joined across one.
    pub segments: Vec<(Point<S>, Point<S>)>,
    /// Rectangles, whose shape is known exactly.
    pub rects: Vec<Rect<S>>,
    pub current: Option<Point<S>>,
    pub subpath_start: Option<Point<S>>,
}

/// What a rule collector has gathered.
#[verifier::ext_equal]
pub struct RulesModel<S> {
    pub rules: Seq<Rule<S>>,
    pub segments: Seq<(Point<S>, Point<S>)>,
    pub rects: Seq<Rect<S>>,
    pub current: Option<Point<S>>,
    pub subpath_start: Option<Point<S>>,
}

impl<S> View for RuleCollector<S> {
    type V = RulesModel<S>;

    open spec fn view(&self) -> RulesModel<S> {
        RulesModel {
            rules: self.rules@,
            segments: self.segments@,
            rects: self.rects@,
            current: self.current,
            subpath_start: self.subpath_start,
        }
    }
}

/// Half of a number.
pub open spec fn half<S: Scalar>(t: S) -> S {
    t.spec_over(S::spec_ratio(2, 1))
}

/// A stroke's width held to what reads as a line.
pub open spec fn stroke_width<S: Scalar>(thickness: S) -> S {
    scalar::clamp(thickness, S::spec_ratio(1, 10), max_thickness::<S>())
}

/// A band of a given thickness along a horizontal line.
pub open spec fn across<S: Scalar>(x0: S, x1: S, y: S, t: S) -> Rect<S> {
    Rect::between(x0, y.spec_minus(half(t)), x1, y.spec_plus(half(t)))
}

/// A band of a given thickness along a vertical line.
pub open spec fn down<S: Scalar>(y0: S, y1: S, x: S, t: S) -> Rect<S> {
    Rect::between(x.spec_minus(half(t)), y0, x.spec_plus(half(t)), y1)
}

/// The rule that a stroked segment draws, if it is long enough and not
/// diagonal.
pub open spec fn segment_rule<S: Scalar>(seg: Rect<S>, thickness: S) -> Option<Rule<S>> {
    let (w, h) = (seg.spec_width(), seg.spec_height());
    let horizontal = h.spec_le(w);
    let length = if horizontal {
        w
    } else {
        h
    };
    let off = if horizontal {
        h
    } else {
        w
    };
    let t = stroke_width(thickness);
    if length.spec_lt(min_length::<S>()) || max_thickness::<S>().spec_lt(off) {
        None
    } else {
        Some(
            Rule {
                bbox: if horizontal {
                    across(seg.x0, seg.x1, seg.y0, t)
                } else {
                    down(seg.y0, seg.y1, seg.x0, t)
                },
                horizontal,
                thickness: t,
                filled: false,
            },
        )
    }
}

/// The rule that a filled rectangle reads as, if it is thin and long enough.
pub open spec fn rect_rule<S: Scalar>(r: Rect<S>) -> Option<Rule<S>> {
    let (w, h) = (r.spec_width(), r.spec_height());
    let horizontal = h.spec_le(w);
    let length = if horizontal {
        w
    } else {
        h
    };
    let thickness = if horizontal {
        h
    } else {
        w
    };
    if length.spec_lt(min_length::<S>()) || max_thickness::<S>().spec_lt(thickness) {
        None
    } else {
        Some(Rule { bbox: r, horizontal, thickness, filled: true })
    }
}

/// The edge of a stroked box, if it is long enough.
pub open spec fn edge_rule<S: Scalar>(bbox: Rect<S>, horizontal: bool, t: S) -> Option<Rule<S>> {
    let length = if horizontal {
        bbox.spec_width()
    } else {
        bbox.spec_height()
    };
    if min_length::<S>().spec_le(length) {
        Some(Rule { bbox, horizontal, thickness: t, filled: false })
    } else {
        None
    }
}

/// A list with a rule, where there is one.
pub open spec fn with_rule<S>(rules: Seq<Rule<S>>, rule: Option<Rule<S>>) -> Seq<Rule<S>> {
    match rule {
        Some(r) => rules.push(r),
        None => rules,
    }
}

/// A list with the edges of a stroked box: top, bottom, left, right, as far as
/// each is long enough.
pub open spec fn with_edges<S: Scalar>(rules: Seq<Rule<S>>, r: Rect<S>, thickness: S) -> Seq<
    Rule<S>,
> {
    let t = stroke_width(thickness);
    let a = with_rule(rules, edge_rule(across(r.x0, r.x1, r.y0, t), true, t));
    let b = with_rule(a, edge_rule(across(r.x0, r.x1, r.y1, t), true, t));
    let c = with_rule(b, edge_rule(down(r.y0, r.y1, r.x0, t), false, t));
    with_rule(c, edge_rule(down(r.y0, r.y1, r.x1, t), false, t))
}

/// A list with what the first `n` rectangles of a painted path draw.
pub open spec fn with_rects<S: Scalar>(
    rules: Seq<Rule<S>>,
    rects: Seq<Rect<S>>,
    filled: bool,
    stroked: bool,
    thickness: S,
    n: int,
) -> Seq<Rule<S>>
    decreases n,
{
    if n <= 0 {
        rules
    } else {
        let before = with_rects(rules, rects, filled, stroked, thickness, n - 1);
        if filled && rect_rule(rects[n - 1]) is Some {
            with_rule(before, rect_rule(rects[n - 1]))
        } else if stroked {
            with_edges(before, rects[n - 1], thickness)
        } else {
            before
        }
    }
}

/// A list with what the first `n` segments of a stroked path draw.
pub open spec fn with_segments<S: Scalar>(
    rules: Seq<Rule<S>>,
    segments: Seq<(Point<S>, Point<S>)>,
    thickness: S,
    n: int,
) -> Seq<Rule<S>>
    decreases n,
{
    if n <= 0 {
        rules
    } else {
        let (a, b) = segments[n - 1];
        with_rule(
            with_segments(rules, segments, thickness, n - 1),
            segment_rule(Rect::between(a.x, a.y, b.x, b.y), thickness),
        )
    }
}

/// A stroke's width in device space.
pub open spec fn device_width<S: Scalar>(line_width: S, expansion: (S, S)) -> S {
    line_width.spec_times(
        half(expansion.0.spec_plus(expansion.1)).spec_greatest(scalar::zero::<S>()),
    )
}

/// The box around a rectangle's corners, each taken through a transform.
pub open spec fn rect_image<S: Scalar>(ctm: Matrix<S>, x: S, y: S, w: S, h: S) -> Rect<S> {
    let a = ctm.image(Point { x, y });
    let b = ctm.image(Point { x: x.spec_plus(w), y });
    let c = ctm.image(Point { x: x.spec_plus(w), y: y.spec_plus(h) });
    let d = ctm.image(Point { x, y: y.spec_plus(h) });
    Rect::<S>::spec_inverted().spec_extended(a.x, a.y).spec_extended(b.x, b.y).spec_extended(
        c.x,
        c.y,
    ).spec_extended(d.x, d.y)
}

impl<S: Scalar> RulesModel<S> {
    /// A collector that has seen nothing.
    pub open spec fn none() -> Self {
        RulesModel {
            rules: Seq::empty(),
            segments: Seq::empty(),
            rects: Seq::empty(),
            current: None,
            subpath_start: None,
        }
    }

    /// No path under construction.
    pub open spec fn cleared(self) -> Self {
        RulesModel { rules: self.rules, ..RulesModel::none() }
    }

    /// The open subpath closed: the edge back to its start added.
    pub open spec fn closed(self) -> Self {
        match (self.current, self.subpath_start) {
            (Some(c), Some(s)) => RulesModel {
                segments: self.segments.push((c, s)),
                current: Some(s),
                ..self
            },
            _ => self,
        }
    }

    /// The rules of the painted path added, and the path gone. A filled
    /// rectangle that is thin enough is read as a line, any other stroked one as
    /// its edges; segments count only where they are stroked.
    pub open spec fn painted(self, stroked: bool, filled: bool, width: S) -> Self {
        let rules = with_rects(
            self.rules,
            self.rects,
            filled,
            stroked,
            width,
            self.rects.len() as int,
        );
        RulesModel {
            rules: if stroked {
                with_segments(rules, self.segments, width, self.segments.len() as int)
            } else {
                rules
            },
            ..RulesModel::none()
        }
    }

    /// The collector after one operator.
    pub open spec fn visited(self, op: Op<S>, state: GraphicsState<S>) -> Self {
        let ctm = state.ctm;
        let at = |n: Seq<S>, i: int| ctm.image(Point { x: n[i], y: n[i + 1] });
        let width = device_width(state.line_width, state.expansion);
        match op.kind {
            OpKind::MoveTo => match op.trailing(2) {
                Some(n) => RulesModel {
                    current: Some(at(n, 0)),
                    subpath_start: Some(at(n, 0)),
                    ..self
                },
                None => self,
            },
            OpKind::LineTo => match op.trailing(2) {
                Some(n) => RulesModel {
                    segments: match self.current {
                        Some(c) => self.segments.push((c, at(n, 0))),
                        None => self.segments,
                    },
                    current: Some(at(n, 0)),
                    ..self
                },
                None => self,
            },
            OpKind::CurveTo => match op.trailing(6) {
                Some(n) => RulesModel { current: Some(at(n, 4)), ..self },
                None => self,
            },
            OpKind::CurveToInitialReplicated | OpKind::CurveToFinalReplicated => match op.trailing(
                4,
            ) {
                Some(n) => RulesModel { current: Some(at(n, 2)), ..self },
                None => self,
            },
            OpKind::ClosePath => self.closed(),
            OpKind::Rectangle => match op.trailing(4) {
                Some(n) => RulesModel {
                    rects: self.rects.push(rect_image(ctm, n[0], n[1], n[2], n[3])),
                    ..self
                },
                None => self,
            },
            OpKind::Stroke => self.painted(true, false, width),
            OpKind::CloseStroke => self.closed().painted(true, false, width),
            OpKind::Fill | OpKind::FillObsolete | OpKind::FillEvenOdd => self.painted(
                false,
                true,
                width,
            ),
            OpKind::FillStroke | OpKind::FillStrokeEvenOdd => self.painted(true, true, width),
            OpKind::CloseFillStroke | OpKind::CloseFillStrokeEvenOdd => self.closed().painted(
                true,
                true,
                width,
            ),
            OpKind::EndPath => self.cleared(),
            _ => self,
        }
    }
}

fn push_rule<S>(rules: &mut Vec<Rule<S>>, rule: Option<Rule<S>>)
    ensures
        final(rules)@ == with_rule(old(rules)@, rule),
{
    if let Some(r) = rule {
        rules.push(r);
    }
}

fn edge<S: Scalar>(bbox: Rect<S>, horizontal: bool, t: S) -> (r: Option<Rule<S>>)
    ensures
        r == edge_rule(bbox, horizontal, t),
{
    let length = if horizontal {
        bbox.width()
    } else {
        bbox.height()
    };
    if S::ratio(8, 1).le(length) {
        Some(Rule { bbox, horizontal, thickness: t, filled: false })
    } else {
        None
    }
}

fn band_across<S: Scalar>(x0: S, x1: S, y: S, t: S) -> (r: Rect<S>)
    ensures
        r == across(x0, x1, y, t),
{
    let h = t.over(S::ratio(2, 1));
    Rect::new(x0, y.minus(h), x1, y.plus(h))
}

fn band_down<S: Scalar>(y0: S, y1: S, x: S, t: S) -> (r: Rect<S>)
    ensures
        r == down(y0, y1, x, t),
{
    let h = t.over(S::ratio(2, 1));
    Rect::new(x.minus(h), y0, x.plus(h), y1)
}

fn line_thickness<S: Scalar>(thickness: S) -> (r: S)
    ensures
        r == stroke_width(thickness),
{
    scalar::clamped(thickness, S::ratio(1, 10), S::ratio(3, 1))
}

impl<S: Scalar> RuleCollector<S> {
    /// A collector that has seen nothing.
    pub fn new() -> (r: Self)
        ensures
            r@ == RulesModel::<S>::none(),
    {
        let r = RuleCollector {
            rules: Vec::new(),
            segments: Vec::new(),
            rects: Vec::new(),
            current: None,
            subpath_start: None,
        };
        assert(r@ =~= RulesModel::<S>::none());
        r
    }

    fn clear_path(&mut self)
        ensures
            final(self)@ == old(self)@.cleared(),
    {
        self.segments = Vec::new();
        self.rects = Vec::new();
        self.current = None;
        self.subpath_start = None;
        assert(self@ =~= old(self)@.cleared());
    }

    /// Add the edge back to the start of the open subpath.
    fn close(&mut self)
        ensures
            final(self)@ == old(self)@.closed(),
    {
        if let (Some(c), Some(s)) = (self.current, self.subpath_start) {
            self.segments.push((c, s));
            self.current = Some(s);
        }
        assert(self@ =~= old(self)@.closed());
    }

    /// Turn the current path into rules, if the paint operator drew anything.
    fn paint(&mut self, stroked: bool, filled: bool, thickness: S)
        ensures
            final(self)@.rules == old(self)@.painted(stroked, filled, thickness).rules,
    {
        let mut i: usize = 0;
        while i < self.rects.len()
            invariant
                i <= self.rects@.len(),
                self.rects@ == old(self).rects@,
                self.segments@ == old(self).segments@,
                self.rules@ == with_rects(
                    old(self).rules@,
                    self.rects@,
                    filled,
                    stroked,
                    thickness,
                    i as int,
                ),
            decreases self.rects@.len() - i,
        {
            let r = self.rects[i];
            // A box that is filled and stroked is an outline too; one thin
            // enough to read as a line is that line.
            if !(filled && self.emit_rect(r)) && stroked {
                self.emit_box_edges(r, thickness);
            }
            i += 1;
        }
        if stroked {
            let ghost after_rects = self.rules@;
            let mut j: usize = 0;
            while j < self.segments.len()
                invariant
                    j <= self.segments@.len(),
                    self.segments@ == old(self).segments@,
                    self.rules@ == with_segments(
                        after_rects,
                        self.segments@,
                        thickness,
                        j as int,
                    ),
                decreases self.segments@.len() - j,
            {
                let (a, b) = self.segments[j];
                self.emit_segment(Rect::new(a.x, a.y, b.x, b.y), thickness);
                j += 1;
            }
        }
    }

    fn emit_segment(&mut self, seg: Rect<S>, thickness: S)
        ensures
            final(self)@ == (RulesModel {
                rules: with_rule(old(self)@.rules, segment_rule(seg, thickness)),
                ..old(self)@
            }),
    {
        let w = seg.width();
        let h = seg.height();
        let horizontal = h.le(w);
        let length = if horizontal {
            w
        } else {
            h
        };
        // A stroked segment is thin by construction; what disqualifies it is
        // being diagonal.
        let off = if horizontal {
            h
        } else {
            w
        };
        if !(length.lt(S::ratio(8, 1)) || S::ratio(3, 1).lt(off)) {
            let t = line_thickness(thickness);
            let bbox = if horizontal {
                band_across(seg.x0, seg.x1, seg.y0, t)
            } else {
                band_down(seg.y0, seg.y1, seg.x0, t)
            };
            self.rules.push(Rule { bbox, horizontal, thickness: t, filled: false });
        }
        assert(self@ =~= (RulesModel {
            rules: with_rule(old(self)@.rules, segment_rule(seg, thickness)),
            ..old(self)@
        }));
    }

    /// Record a filled rectangle that reads as a line; whether it does is
    /// returned.
    fn emit_rect(&mut self, r: Rect<S>) -> (drawn: bool)
        ensures
            drawn == (rect_rule(r) is Some),
            final(self)@ == (RulesModel {
                rules: with_rule(old(self)@.rules, rect_rule(r)),
                ..old(self)@
            }),
    {
        let w = r.width();
        let h = r.height();
        let horizontal = h.le(w);
        let length = if horizontal {
            w
        } else {
            h
        };
        let thickness = if horizontal {
            h
        } else {
            w
        };
        let drawn = !(length.lt(S::ratio(8, 1)) || S::ratio(3, 1).lt(thickness));
        if drawn {
            self.rules.push(Rule { bbox: r, horizontal, thickness, filled: true });
        }
        assert(self@ =~= (RulesModel {
            rules: with_rule(old(self)@.rules, rect_rule(r)),
            ..old(self)@
        }));
        drawn
    }

    /// The four edges of a stroked box, each a rule in its own right.
    fn emit_box_edges(&mut self, r: Rect<S>, thickness: S)
        ensures
            final(self)@ == (RulesModel {
                rules: with_edges(old(self)@.rules, r, thickness),
                ..old(self)@
            }),
    {
        let t = line_thickness(thickness);
        push_rule(&mut self.rules, edge(band_across(r.x0, r.x1, r.y0, t), true, t));
        push_rule(&mut self.rules, edge(band_across(r.x0, r.x1, r.y1, t), true, t));
        push_rule(&mut self.rules, edge(band_down(r.y0, r.y1, r.x0, t), false, t));
        push_rule(&mut self.rules, edge(band_down(r.y0, r.y1, r.x1, t), false, t));
        assert(self@ =~= (RulesModel {
            rules: with_edges(old(self)@.rules, r, thickness),
            ..old(self)@
        }));
    }

    /// Take note of one operator, with the graphics state in force.
    pub fn visit(&mut self, op: &Op<S>, state: &GraphicsState<S>)
        ensures
            final(self)@ == old(self)@.visited(*op, *state),
    {
        let ctm = state.ctm;
        let width = state.line_width.times(
            state.expansion.0.plus(state.expansion.1).over(S::ratio(2, 1)).greatest(
                scalar::zero_of::<S>(),
            ),
        );
        match op.kind {
            OpKind::MoveTo => {
                if let Some(n) = op.trailing_nums(2) {
                    let p = ctm.apply(Point { x: n[0], y: n[1] });
                    self.current = Some(p);
                    self.subpath_start = Some(p);
                }
            },
            OpKind::LineTo => {
                if let Some(n) = op.trailing_nums(2) {
                    let p = ctm.apply(Point { x: n[0], y: n[1] });
                    if let Some(c) = self.current {
                        self.segments.push((c, p));
                    }
                    self.current = Some(p);
                }
            },
            // Curves move the pen but contribute no straight segment.
            OpKind::CurveTo => {
                if let Some(n) = op.trailing_nums(6) {
                    self.current = Some(ctm.apply(Point { x: n[4], y: n[5] }));
                }
            },
            OpKind::CurveToInitialReplicated | OpKind::CurveToFinalReplicated => {
                if let Some(n) = op.trailing_nums(4) {
                    self.current = Some(ctm.apply(Point { x: n[2], y: n[3] }));
                }
            },
            OpKind::ClosePath => {
                self.close();
            },
            OpKind::Rectangle => {
                if let Some(n) = op.trailing_nums(4) {
                    // All four corners: a rotated transform turns the rectangle
                    // into a parallelogram, and the box around it is the honest
                    // approximation.
                    let (x, y, w, h) = (n[0], n[1], n[2], n[3]);
                    let a = ctm.apply(Point { x, y });
                    let b = ctm.apply(Point { x: x.plus(w), y });
                    let c = ctm.apply(Point { x: x.plus(w), y: y.plus(h) });
                    let d = ctm.apply(Point { x, y: y.plus(h) });
                    self.rects.push(
                        Rect::<S>::inverted().extended(a.x, a.y).extended(b.x, b.y).extended(
                            c.x,
                            c.y,
                        ).extended(d.x, d.y),
                    );
                }
            },
            OpKind::Stroke => {
                self.paint(true, false, width);
                self.clear_path();
            },
            // Closing the path first strokes the edge back to its start.
            OpKind::CloseStroke => {
                self.close();
                self.paint(true, false, width);
                self.clear_path();
            },
            OpKind::Fill | OpKind::FillObsolete | OpKind::FillEvenOdd => {
                self.paint(false, true, width);
                self.clear_path();
            },
            OpKind::FillStroke | OpKind::FillStrokeEvenOdd => {
                self.paint(true, true, width);
                self.clear_path();
            },
            OpKind::CloseFillStroke | OpKind::CloseFillStrokeEvenOdd => {
                self.close();
                self.paint(true, true, width);
                self.clear_path();
            },
            // The path ends without painting, so nothing is a rule.
            OpKind::EndPath => {
                self.clear_path();
            },
            _ => {},
        }
        assert(self@ =~= old(self)@.visited(*op, *state));
    }
}

/// The rule collector after the first `n` steps.
pub open spec fn collected<'a, S: Scalar>(steps: Seq<Step<'a, S>>, n: int) -> RulesModel<S>
    decreases n,
{
    if n <= 0 {
        RulesModel::none()
    } else {
        collected(steps, n - 1).visited(steps[n - 1].op, steps[n - 1].state)
    }
}

/// Collect every ruling line from the operators of a page.
pub fn collect<'a, S: Scalar>(steps: &Vec<Step<'a, S>>) -> (r: Vec<Rule<S>>)
    ensures
        r@ == collected(steps@, steps@.len() as int).rules,
{
    let mut visitor: RuleCollector<S> = RuleCollector::new();
    let mut i: usize = 0;
    while i < steps.len()
        invariant
            i <= steps@.len(),
            visitor@ == collected(steps@, i as int),
        decreases steps@.len() - i,
    {
        visitor.visit(&steps[i].op, &steps[i].state);
        i += 1;
    }
    visitor.rules
}

/// The positions of those of the first `n` rules that cut a region: horizontal,
/// spanning a fraction of it, and inside it.
pub open spec fn cutting<S: Scalar>(
    rules: Seq<Rule<S>>,
    region: Rect<S>,
    fraction: S,
    n: int,
) -> Seq<S>
    decreases n,
{
    if n <= 0 {
        Seq::empty()
    } else {
        let before = cutting(rules, region, fraction, n - 1);
        let rule = rules[n - 1];
        let at = rule.spec_position();
        if rule.horizontal && rule.spec_spans(region, fraction) && region.y0.spec_lt(at)
            && at.spec_lt(region.y1) {
            before.push(at)
        } else {
            before
        }
    }
}

/// A list without the positions that follow within a point of the last one
/// kept.
pub open spec fn spaced<S: Scalar>(s: Seq<S>, n: int) -> Seq<S>
    decreases n,
{
    if n <= 0 {
        Seq::empty()
    } else {
        let kept = spaced(s, n - 1);
        if kept.len() > 0 && s[n - 1].spec_minus(kept.last()).spec_magnitude().spec_lt(
            scalar::one::<S>(),
        ) {
            kept
        } else {
            kept.push(s[n - 1])
        }
    }
}

/// Ascending order of positions.
pub open spec fn ascending<S: Scalar>() -> spec_fn(S, S) -> bool {
    |a: S, b: S| a.spec_lt(b)
}

/// The cut hints of a region: its cutting rules' positions in ascending order,
/// those within a point of each other counting once.
pub open spec fn cuts_of<S: Scalar>(rules: Seq<Rule<S>>, region: Rect<S>, fraction: S) -> Seq<S> {
    let sorted = sorting::sorted_by(
        cutting(rules, region, fraction, rules.len() as int),
        ascending(),
    );
    spaced(sorted, sorted.len() as int)
}

/// Sort numbers in ascending order, stably.
pub fn sort_numbers<S: Scalar>(v: Vec<S>) -> (r: Vec<S>)
    ensures
        r@ == sorting::sorted_by(v@, ascending()),
{
    let before = |a: &S, b: &S| -> (r: bool)
        ensures
            r == a.spec_lt(*b),
        { a.lt(*b) };
    sorting::stable_sort(v, before, Ghost(ascending()))
}

/// Horizontal rules that span most of a region, sorted top to bottom.
pub fn horizontal_cuts<S: Scalar>(rules: &Vec<Rule<S>>, region: &Rect<S>, fraction: S) -> (r: Vec<
    S,
>)
    ensures
        r@ == cuts_of(rules@, *region, fraction),
{
    let mut out: Vec<S> = Vec::new();
    let mut i: usize = 0;
    while i < rules.len()
        invariant
            i <= rules@.len(),
            out@ == cutting(rules@, *region, fraction, i as int),
        decreases rules@.len() - i,
    {
        let rule = rules[i];
        let at = rule.position();
        if rule.horizontal && rule.spans(region, fraction) && region.y0.lt(at) && at.lt(region.y1) {
            out.push(at);
        }
        i += 1;
    }
    let sorted = sort_numbers(out);
    let mut kept: Vec<S> = Vec::new();
    let mut j: usize = 0;
    while j < sorted.len()
        invariant
            j <= sorted@.len(),
            kept@ == spaced(sorted@, j as int),
        decreases sorted@.len() - j,
    {
        let close = kept.len() > 0 && sorted[j].minus(kept[kept.len() - 1]).magnitude().lt(
            scalar::one_of::<S>(),
        );
        if !close {
            kept.push(sorted[j]);
        }
        j += 1;
    }
    kept
}

/// A path of straight lines has an edge from each point to the next, each in
/// device space, and closing it adds the one back to its start. Building a path
/// draws no rule.
pub proof fn law_a_closed_path_has_all_its_edges<S: Scalar>(
    m: RulesModel<S>,
    a: Op<S>,
    b: Op<S>,
    c: Op<S>,
    close: Op<S>,
    state: GraphicsState<S>,
)
    requires
        a.kind == OpKind::MoveTo && a.trailing(2) is Some,
        b.kind == OpKind::LineTo && b.trailing(2) is Some,
        c.kind == OpKind::LineTo && c.trailing(2) is Some,
        close.kind == OpKind::ClosePath,
    ensures
        ({
            let at = |op: Op<S>|
                state.ctm.image(Point { x: op.trailing(2)->0[0], y: op.trailing(2)->0[1] });
            let open = m.visited(a, state).visited(b, state).visited(c, state);
            let closed = open.visited(close, state);
            &&& open.segments == m.segments + seq![(at(a), at(b)), (at(b), at(c))]
            &&& closed.segments == open.segments + seq![(at(c), at(a))]
            &&& closed.current == Some(at(a))
            &&& closed.rules == m.rules && closed.rects == m.rects
        }),
{
    let at = |op: Op<S>|
        state.ctm.image(Point { x: op.trailing(2)->0[0], y: op.trailing(2)->0[1] });
    let open = m.visited(a, state).visited(b, state).visited(c, state);
    assert(open.segments =~= m.segments + seq![(at(a), at(b)), (at(b), at(c))]);
    assert(open.visited(close, state).segments =~= open.segments + seq![(at(c), at(a))]);
}

/// A curve moves the pen to its last point and adds no edge, so that the next
/// line starts where the curve ended.
pub proof fn law_a_curve_adds_no_edge<S: Scalar>(
    m: RulesModel<S>,
    curve: Op<S>,
    line: Op<S>,
    state: GraphicsState<S>,
)
    requires
        curve.kind == OpKind::CurveTo && curve.trailing(6) is Some || (curve.kind
            == OpKind::CurveToInitialReplicated || curve.kind == OpKind::CurveToFinalReplicated)
            && curve.trailing(4) is Some,
        line.kind == OpKind::LineTo && line.trailing(2) is Some,
    ensures
        ({
            let n = if curve.kind == OpKind::CurveTo {
                curve.trailing(6)->0
            } else {
                curve.trailing(4)->0
            };
            let end = state.ctm.image(Point { x: n[n.len() - 2], y: n[n.len() - 1] });
            let to = state.ctm.image(Point { x: line.trailing(2)->0[0], y: line.trailing(2)->0[1] });
            let after = m.visited(curve, state);
            &&& after.segments == m.segments && after.rects == m.rects && after.rules == m.rules
            &&& after.visited(line, state).segments == m.segments.push((end, to))
        }),
{
}

/// Which operators paint: strokes, fills, and both, after closing the path where
/// they say so. Each leaves no path behind; ending a path without painting draws
/// nothing; and what is none of these draws nothing.
pub proof fn law_painting_operators<S: Scalar>(
    m: RulesModel<S>,
    op: Op<S>,
    state: GraphicsState<S>,
)
    ensures
        ({
            let mean = state.expansion.0.spec_plus(state.expansion.1).spec_over(S::spec_ratio(2, 1));
            let width = state.line_width.spec_times(mean.spec_greatest(S::spec_ratio(0, 1)));
            let after = m.visited(op, state);
            let closes = op.kind == OpKind::CloseStroke || op.kind == OpKind::CloseFillStroke
                || op.kind == OpKind::CloseFillStrokeEvenOdd;
            let strokes = op.kind == OpKind::Stroke || op.kind == OpKind::CloseStroke || op.kind
                == OpKind::FillStroke || op.kind == OpKind::FillStrokeEvenOdd || op.kind
                == OpKind::CloseFillStroke || op.kind == OpKind::CloseFillStrokeEvenOdd;
            let fills = op.kind == OpKind::Fill || op.kind == OpKind::FillObsolete || op.kind
                == OpKind::FillEvenOdd || op.kind == OpKind::FillStroke || op.kind
                == OpKind::FillStrokeEvenOdd || op.kind == OpKind::CloseFillStroke || op.kind
                == OpKind::CloseFillStrokeEvenOdd;
            let path = if closes {
                m.closed()
            } else {
                m
            };
            &&& strokes || fills ==> after.rules == path.painted(strokes, fills, width).rules
            &&& strokes || fills || op.kind == OpKind::EndPath ==> after.segments.len() == 0
                && after.rects.len() == 0 && after.current is None && after.subpath_start is None
            &&& !strokes && !fills ==> after.rules == m.rules
        }),
{
}

/// The thickness that a stroke of a width has: that width, held between a tenth
/// of a point and three points.
pub open spec fn held_thickness<S: Scalar>(width: S) -> S {
    if width.spec_lt(S::spec_ratio(1, 10)) {
        S::spec_ratio(1, 10)
    } else if S::spec_ratio(3, 1).spec_lt(width) {
        S::spec_ratio(3, 1)
    } else {
        width
    }
}

/// Painting keeps the rules drawn so far. A new one that counts as filled is a
/// filled rectangle of the path, no thicker than three points and no shorter
/// than eight; one that counts as a stroke has the stroke's thickness, and there
/// is none where nothing is stroked.
pub proof fn law_painting_draws_only_what_reads_as_a_line<S: Scalar>(
    m: RulesModel<S>,
    stroked: bool,
    filled: bool,
    width: S,
    i: int,
)
    requires
        0 <= i < m.painted(stroked, filled, width).rules.len(),
    ensures
        ({
            let after = m.painted(stroked, filled, width).rules;
            let r = after[i];
            let w = r.bbox.x1.spec_minus(r.bbox.x0);
            let h = r.bbox.y1.spec_minus(r.bbox.y0);
            &&& m.rules.len() <= after.len()
            &&& i < m.rules.len() ==> r == m.rules[i]
            &&& i >= m.rules.len() && r.filled ==> {
                &&& filled && m.rects.contains(r.bbox)
                &&& r.horizontal == h.spec_le(w)
                &&& r.thickness == if r.horizontal {
                    h
                } else {
                    w
                }
                &&& !S::spec_ratio(3, 1).spec_lt(r.thickness)
                &&& !(if r.horizontal {
                    w
                } else {
                    h
                }).spec_lt(S::spec_ratio(8, 1))
            }
            &&& i >= m.rules.len() && !r.filled ==> stroked && r.thickness == held_thickness(width)
        }),
{
    let n = m.rects.len() as int;
    let some = with_rects(m.rules, m.rects, filled, stroked, width, n);
    lemma_rects_draw(m.rules, m.rects, filled, stroked, width, n);
    if stroked {
        lemma_segments_draw(some, m.segments, width, m.segments.len() as int);
        if i >= some.len() {
            assert(drawn_right(some, m.segments, width, i, m.segments.len() as int));
        }
    }
    if m.rules.len() <= i < some.len() {
        assert(rect_drawn(m.rules, m.rects, filled, stroked, width, n, i));
    }
}

spec fn rect_drawn<S: Scalar>(
    rules: Seq<Rule<S>>,
    rects: Seq<Rect<S>>,
    filled: bool,
    stroked: bool,
    width: S,
    n: int,
    i: int,
) -> bool {
    let r = with_rects(rules, rects, filled, stroked, width, n)[i];
    if r.filled {
        filled && rects.contains(r.bbox) && rect_rule(r.bbox) == Some(r)
    } else {
        stroked && r.thickness == held_thickness(width)
    }
}

proof fn lemma_rects_draw<S: Scalar>(
    rules: Seq<Rule<S>>,
    rects: Seq<Rect<S>>,
    filled: bool,
    stroked: bool,
    width: S,
    n: int,
)
    requires
        0 <= n <= rects.len(),
    ensures
        ({
            let after = with_rects(rules, rects, filled, stroked, width, n);
            &&& rules.len() <= after.len()
            &&& forall|i: int| 0 <= i < rules.len() ==> #[trigger] after[i] == rules[i]
            &&& forall|i: int|
                rules.len() <= i < after.len() ==> #[trigger] rect_drawn(
                    rules,
                    rects,
                    filled,
                    stroked,
                    width,
                    n,
                    i,
                )
            &&& forall|k: int|
                0 <= k < n && filled && rect_rule(#[trigger] rects[k]) is Some ==> after.contains(
                    rect_rule(rects[k])->0,
                )
        }),
    decreases n,
{
    if n > 0 {
        lemma_rects_draw(rules, rects, filled, stroked, width, n - 1);
        let before = with_rects(rules, rects, filled, stroked, width, n - 1);
        let after = with_rects(rules, rects, filled, stroked, width, n);
        let x = rects[n - 1];
        assert(rects.contains(x));
        assert(before.len() <= after.len());
        assert(after.len() <= before.len() + 4);
        assert forall|i: int| 0 <= i < before.len() implies #[trigger] after[i] == before[i] by {}
        assert forall|i: int| rules.len() <= i < after.len() implies #[trigger] rect_drawn(
            rules,
            rects,
            filled,
            stroked,
            width,
            n,
            i,
        ) by {
            if i < before.len() {
                assert(rect_drawn(rules, rects, filled, stroked, width, n - 1, i));
                assert(after[i] == before[i]);
            }
        }
        assert forall|k: int| 0 <= k < n && filled && rect_rule(#[trigger] rects[k]) is Some implies
            after.contains(rect_rule(rects[k])->0) by {
            let rule = rect_rule(rects[k])->0;
            if k < n - 1 {
                assert(before.contains(rule));
                let q = choose|q: int| 0 <= q < before.len() && before[q] == rule;
                assert(after[q] == rule);
            } else {
                assert(after[before.len() as int] == rule);
            }
        }
    }
}

spec fn drawn_right<S: Scalar>(
    rules: Seq<Rule<S>>,
    segments: Seq<(Point<S>, Point<S>)>,
    width: S,
    i: int,
    n: int,
) -> bool {
    let r = with_segments(rules, segments, width, n)[i];
    !r.filled && r.thickness == held_thickness(width)
}

proof fn lemma_segments_draw<S: Scalar>(
    rules: Seq<Rule<S>>,
    segments: Seq<(Point<S>, Point<S>)>,
    width: S,
    n: int,
)
    requires
        0 <= n <= segments.len(),
    ensures
        ({
            let after = with_segments(rules, segments, width, n);
            &&& rules.len() <= after.len()
            &&& forall|i: int| 0 <= i < rules.len() ==> #[trigger] after[i] == rules[i]
            &&& forall|i: int|
                rules.len() <= i < after.len() ==> #[trigger] drawn_right(
                    rules,
                    segments,
                    width,
                    i,
                    n,
                )
            &&& forall|k: int|
                0 <= k < n ==> (segment_rule(
                    Rect::between(
                        (#[trigger] segments[k]).0.x,
                        segments[k].0.y,
                        segments[k].1.x,
                        segments[k].1.y,
                    ),
                    width,
                ) matches Some(rule) ==> after.contains(rule))
        }),
    decreases n,
{
    if n > 0 {
        lemma_segments_draw(rules, segments, width, n - 1);
        let before = with_segments(rules, segments, width, n - 1);
        let after = with_segments(rules, segments, width, n);
        assert forall|i: int| 0 <= i < before.len() implies #[trigger] after[i] == before[i] by {}
        assert forall|i: int| rules.len() <= i < after.len() implies #[trigger] drawn_right(
            rules,
            segments,
            width,
            i,
            n,
        ) by {
            if i < before.len() {
                assert(drawn_right(rules, segments, width, i, n - 1));
            }
        }
        assert forall|k: int| 0 <= k < n implies (segment_rule(
            Rect::between(
                (#[trigger] segments[k]).0.x,
                segments[k].0.y,
                segments[k].1.x,
                segments[k].1.y,
            ),
            width,
        ) matches Some(rule) ==> after.contains(rule)) by {
            if let Some(rule) = segment_rule(
                Rect::between(
                    segments[k].0.x,
                    segments[k].0.y,
                    segments[k].1.x,
                    segments[k].1.y,
                ),
                width,
            ) {
                if k < n - 1 {
                    assert(before.contains(rule));
                    let q = choose|q: int| 0 <= q < before.len() && before[q] == rule;
                    assert(after[q] == rule);
                } else {
                    assert(after[before.len() as int] == rule);
                }
            }
        }
    }
}

/// Every stroked segment that is eight points long and strays no more than three
/// points to the side draws a rule, along the way that it is longer, from one of
/// its ends to the other. Every filled rectangle that is as long and no thicker
/// draws itself.
pub proof fn law_what_reads_as_a_line_is_drawn<S: Scalar>(
    m: RulesModel<S>,
    stroked: bool,
    filled: bool,
    width: S,
    k: int,
)
    requires
        scalar::orderly::<S>(),
    ensures
        ({
            let after = m.painted(stroked, filled, width).rules;
            &&& stroked && 0 <= k < m.segments.len() ==> {
                let (a, b) = m.segments[k];
                let w = a.x.spec_greatest(b.x).spec_minus(a.x.spec_least(b.x));
                let h = a.y.spec_greatest(b.y).spec_minus(a.y.spec_least(b.y));
                let along = if h.spec_le(w) {
                    w
                } else {
                    h
                };
                let off = if h.spec_le(w) {
                    h
                } else {
                    w
                };
                !along.spec_lt(S::spec_ratio(8, 1)) && !S::spec_ratio(3, 1).spec_lt(off)
                    ==> exists|i: int|
                    {
                        let r = #[trigger] after[i];
                        &&& 0 <= i < after.len()
                        &&& !r.filled && r.horizontal == h.spec_le(w)
                        &&& r.horizontal ==> r.bbox.x0 == a.x.spec_least(b.x) && r.bbox.x1
                            == a.x.spec_greatest(b.x)
                        &&& !r.horizontal ==> r.bbox.y0 == a.y.spec_least(b.y) && r.bbox.y1
                            == a.y.spec_greatest(b.y)
                    }
            }
            &&& filled && 0 <= k < m.rects.len() ==> {
                let b = m.rects[k];
                let w = b.x1.spec_minus(b.x0);
                let h = b.y1.spec_minus(b.y0);
                let along = if h.spec_le(w) {
                    w
                } else {
                    h
                };
                let off = if h.spec_le(w) {
                    h
                } else {
                    w
                };
                !along.spec_lt(S::spec_ratio(8, 1)) && !S::spec_ratio(3, 1).spec_lt(off)
                    ==> exists|i: int|
                    0 <= i < after.len() && (#[trigger] after[i]).filled && after[i].bbox == b
                        && after[i].horizontal == h.spec_le(w)
            }
        }),
{
    let after = m.painted(stroked, filled, width).rules;
    let n = m.rects.len() as int;
    let some = with_rects(m.rules, m.rects, filled, stroked, width, n);
    lemma_rects_draw(m.rules, m.rects, filled, stroked, width, n);
    lemma_segments_draw(some, m.segments, width, m.segments.len() as int);
    if stroked && 0 <= k < m.segments.len() {
        let (a, b) = m.segments[k];
        let seg = Rect::between(a.x, a.y, b.x, b.y);
        crate::geometry::law_a_rectangle_between_corners_is_upright(a.x, a.y, b.x, b.y);
        if let Some(r) = segment_rule(seg, width) {
            let t = stroke_width(width);
            assert(after.contains(r));
            let i = choose|i: int| 0 <= i < after.len() && after[i] == r;
            scalar::lemma_order(seg.x0, seg.x1, seg.x0);
            scalar::lemma_order(seg.y0, seg.y1, seg.y0);
            scalar::lemma_order(seg.x1, seg.x0, seg.x1);
            scalar::lemma_order(seg.y1, seg.y0, seg.y1);
            assert(after[i].horizontal == seg.spec_height().spec_le(seg.spec_width()));
        }
    }
    if filled && 0 <= k < m.rects.len() {
        if let Some(r) = rect_rule(m.rects[k]) {
            assert(some.contains(r));
            let i = choose|i: int| 0 <= i < some.len() && some[i] == r;
            assert(after[i] == r);
        }
    }
}

/// A rule lies where it was drawn: the middle of the band around a stroke is the
/// stroke, and the band is as thick as the stroke, to within the last unit.
pub proof fn law_a_band_lies_on_its_line(
    x0: scalar::Fixed,
    x1: scalar::Fixed,
    y: scalar::Fixed,
    t: scalar::Fixed,
)
    requires
        -0x100_0000_0000 <= y.raw <= 0x100_0000_0000,
        0 <= t.raw <= 0x100_0000_0000,
    ensures
        ({
            let flat = Rule { bbox: across(x0, x1, y, t), horizontal: true, thickness: t, filled: false };
            let tall = Rule { bbox: down(x0, x1, y, t), horizontal: false, thickness: t, filled: false };
            &&& flat.spec_position() == y
            &&& tall.spec_position() == y
            &&& t.raw - 1 <= flat.bbox.y1.raw - flat.bbox.y0.raw <= t.raw
            &&& t.raw - 1 <= tall.bbox.x1.raw - tall.bbox.x0.raw <= t.raw
            &&& x0.raw <= x1.raw ==> flat.spec_length() == x1.spec_minus(x0) && tall.spec_length()
                == x1.spec_minus(x0)
        }),
{
    let two = scalar::Fixed::spec_ratio(2, 1);
    scalar::law_fixed_point_arithmetic(y, t, 2);
    assert(two.raw == 0x20000);
    let h = half(t);
    lemma_halved(t.raw as int);
    assert(h.raw == t.raw / 2);
    let s = y.spec_plus(y);
    assert(s.raw == 2 * y.raw);
    lemma_doubled(y.raw as int);
    let low = y.spec_minus(h);
    let high = y.spec_plus(h);
    assert(low.raw == y.raw - h.raw && high.raw == y.raw + h.raw);
    assert(low.spec_plus(high) == s);
    assert(s.spec_over(two) == y);
}

proof fn lemma_halved(v: int)
    requires
        v >= 0,
    ensures
        scalar::div_toward_zero(v * 0x10000, 0x20000) == v / 2,
{
    let a = scalar::abs(v * 0x10000);
    let b = scalar::abs(0x20000);
    assert(a / b == v / 2) by (nonlinear_arith)
        requires
            a == v * 0x10000,
            b == 0x20000,
            v >= 0,
    ;
}

proof fn lemma_doubled(v: int)
    ensures
        scalar::div_toward_zero((2 * v) * 0x10000, 0x20000) == v,
{
    assert((2 * v) * 0x10000 == v * 0x20000);
    scalar::lemma_exact_division(v, 0x20000);
}

/// The cuts of a region ascend, each is the position of a horizontal rule inside
/// the region that spans the fraction of its width, neighbours are no less than
/// a point apart, and every such rule has a cut at its position or within a
/// point of it.
pub proof fn law_cuts_stand_for_the_rules_across<S: Scalar>(
    r: Seq<Rule<S>>,
    region: Rect<S>,
    fraction: S,
)
    requires
        scalar::orderly::<S>(),
    ensures
        ({
            let cuts = cuts_of(r, region, fraction);
            let crosses = |k: int|
                {
                    let b = r[k].bbox;
                    let at = b.y0.spec_plus(b.y1).spec_over(S::spec_ratio(2, 1));
                    &&& 0 <= k < r.len() && r[k].horizontal
                    &&& region.x1.spec_minus(region.x0).spec_times(fraction).spec_le(
                        b.x1.spec_minus(b.x0),
                    )
                    &&& region.y0.spec_lt(at) && at.spec_lt(region.y1)
                };
            &&& forall|i: int, j: int|
                0 <= i < j < cuts.len() ==> (#[trigger] cuts[i]).spec_le(#[trigger] cuts[j])
            &&& forall|i: int|
                0 < i < cuts.len() ==> !(#[trigger] cuts[i]).spec_minus(
                    cuts[i - 1],
                ).spec_magnitude().spec_lt(S::spec_ratio(1, 1))
            &&& forall|i: int|
                0 <= i < cuts.len() ==> exists|k: int|
                    #[trigger] crosses(k) && r[k].bbox.y0.spec_plus(r[k].bbox.y1).spec_over(
                        S::spec_ratio(2, 1),
                    ) == #[trigger] cuts[i]
            &&& forall|k: int| #[trigger]
                crosses(k) ==> exists|i: int|
                    {
                        let at = r[k].bbox.y0.spec_plus(r[k].bbox.y1).spec_over(
                            S::spec_ratio(2, 1),
                        );
                        &&& 0 <= i < cuts.len()
                        &&& #[trigger] cuts[i] == at || at.spec_minus(
                            cuts[i],
                        ).spec_magnitude().spec_lt(S::spec_ratio(1, 1))
                    }
        }),
{
    broadcast use vstd::seq_lib::group_to_multiset_ensures;

    let cuts = cuts_of(r, region, fraction);
    let found = cutting(r, region, fraction, r.len() as int);
    let sorted = sorting::sorted_by(found, ascending::<S>());
    lemma_ascending_orders::<S>();
    sorting::lemma_sorted_is_in_order(found, ascending::<S>());
    sorting::lemma_sorted_keeps_elements(found, ascending::<S>());
    let less = ascending::<S>();
    assert forall|i: int, j: int| 0 <= i < j < sorted.len() implies (
    #[trigger] sorted[i]).spec_le(#[trigger] sorted[j]) by {
        assert(!less(sorted[j], sorted[i]));
        scalar::lemma_order(sorted[j], sorted[i], sorted[j]);
    }
    lemma_spaced(sorted, sorted.len() as int);
    lemma_cutting(r, region, fraction, r.len() as int);
    let crosses = |k: int|
        {
            let b = r[k].bbox;
            let at = b.y0.spec_plus(b.y1).spec_over(S::spec_ratio(2, 1));
            &&& 0 <= k < r.len() && r[k].horizontal
            &&& region.x1.spec_minus(region.x0).spec_times(fraction).spec_le(
                b.x1.spec_minus(b.x0),
            )
            &&& region.y0.spec_lt(at) && at.spec_lt(region.y1)
        };
    assert forall|i: int| 0 <= i < cuts.len() implies exists|k: int|
        #[trigger] crosses(k) && r[k].bbox.y0.spec_plus(r[k].bbox.y1).spec_over(
            S::spec_ratio(2, 1),
        ) == #[trigger] cuts[i] by {
        assert(sorted.contains(cuts[i]));
        assert(sorted.to_multiset().count(cuts[i]) > 0);
        assert(found.to_multiset().count(cuts[i]) > 0);
        assert(found.contains(cuts[i]));
        let q = choose|q: int| 0 <= q < found.len() && found[q] == cuts[i];
        let k = choose|k: int|
            0 <= k < r.len() && crossing(#[trigger] r[k], region, fraction)
                && r[k].spec_position() == found[q];
        assert(crosses(k));
    }
    assert forall|k: int| #[trigger] crosses(k) implies exists|i: int|
        {
            let at = r[k].bbox.y0.spec_plus(r[k].bbox.y1).spec_over(S::spec_ratio(2, 1));
            &&& 0 <= i < cuts.len()
            &&& #[trigger] cuts[i] == at || at.spec_minus(cuts[i]).spec_magnitude().spec_lt(
                S::spec_ratio(1, 1),
            )
        } by {
        let at = r[k].spec_position();
        assert(crossing(r[k], region, fraction));
        assert(found.contains(at));
        assert(found.to_multiset().count(at) > 0);
        assert(sorted.to_multiset().count(at) > 0);
        assert(sorted.contains(at));
        let q = choose|q: int| 0 <= q < sorted.len() && sorted[q] == at;
        let i = choose|i: int|
            0 <= i < cuts.len() && (#[trigger] cuts[i] == sorted[q] || sorted[q].spec_minus(
                cuts[i],
            ).spec_magnitude().spec_lt(scalar::one::<S>()));
        assert(cuts[i] == cuts[i]);
    }
}

spec fn crossing<S: Scalar>(rule: Rule<S>, region: Rect<S>, fraction: S) -> bool {
    rule.horizontal && rule.spec_spans(region, fraction) && region.y0.spec_lt(
        rule.spec_position(),
    ) && rule.spec_position().spec_lt(region.y1)
}

proof fn lemma_cutting<S: Scalar>(r: Seq<Rule<S>>, region: Rect<S>, fraction: S, n: int)
    requires
        0 <= n <= r.len(),
    ensures
        ({
            let found = cutting(r, region, fraction, n);
            &&& forall|q: int|
                0 <= q < found.len() ==> exists|k: int|
                    0 <= k < n && crossing(#[trigger] r[k], region, fraction)
                        && r[k].spec_position() == #[trigger] found[q]
            &&& forall|k: int|
                0 <= k < n && crossing(#[trigger] r[k], region, fraction) ==> found.contains(
                    r[k].spec_position(),
                )
        }),
    decreases n,
{
    if n > 0 {
        lemma_cutting(r, region, fraction, n - 1);
        let before = cutting(r, region, fraction, n - 1);
        let found = cutting(r, region, fraction, n);
        assert forall|q: int| 0 <= q < found.len() implies exists|k: int|
            0 <= k < n && crossing(#[trigger] r[k], region, fraction) && r[k].spec_position()
                == #[trigger] found[q] by {
            if q < before.len() {
                assert(found[q] == before[q]);
                let k = choose|k: int|
                    0 <= k < n - 1 && crossing(#[trigger] r[k], region, fraction)
                        && r[k].spec_position() == before[q];
                assert(crossing(r[k], region, fraction));
            } else {
                assert(crossing(r[n - 1], region, fraction));
            }
        }
        assert forall|k: int| 0 <= k < n && crossing(#[trigger] r[k], region, fraction) implies
            found.contains(r[k].spec_position()) by {
            if k < n - 1 {
                let q = choose|q: int| 0 <= q < before.len() && before[q] == r[k].spec_position();
                assert(found[q] == r[k].spec_position());
            } else {
                assert(found[before.len() as int] == r[k].spec_position());
            }
        }
    }
}

/// Ascending order is a strict order of keys.
pub proof fn lemma_ascending_orders<S: Scalar>()
    requires
        scalar::orderly::<S>(),
    ensures
        sorting::strict_weak_order(ascending::<S>()),
{
    let less = ascending::<S>();
    assert forall|a: S| !#[trigger] less(a, a) by {
        scalar::lemma_order(a, a, a);
    }
    assert forall|a: S, b: S, c: S| #[trigger] less(a, b) && #[trigger] less(b, c) implies less(
        a,
        c,
    ) by {
        scalar::lemma_order(a, b, c);
    }
    assert forall|a: S, b: S, c: S| !#[trigger] less(a, b) && !#[trigger] less(b, c) implies !less(
        a,
        c,
    ) by {
        scalar::lemma_order(a, b, c);
        scalar::lemma_order(c, b, a);
        scalar::lemma_order(b, c, a);
        scalar::lemma_order(a, c, b);
    }
}

proof fn lemma_spaced<S: Scalar>(s: Seq<S>, n: int)
    requires
        scalar::orderly::<S>(),
        0 <= n <= s.len(),
        forall|i: int, j: int|
            0 <= i < j < s.len() ==> (#[trigger] s[i]).spec_le(#[trigger] s[j]),
    ensures
        ({
            let kept = spaced(s, n);
            &&& forall|i: int|
                0 <= i < kept.len() ==> exists|q: int| 0 <= q < n && s[q] == #[trigger] kept[i]
            &&& forall|i: int, j: int|
                0 <= i < j < kept.len() ==> (#[trigger] kept[i]).spec_le(#[trigger] kept[j])
            &&& forall|i: int|
                0 < i < kept.len() ==> !(#[trigger] kept[i]).spec_minus(
                    kept[i - 1],
                ).spec_magnitude().spec_lt(scalar::one::<S>())
            &&& forall|q: int|
                0 <= q < n ==> exists|i: int|
                    0 <= i < kept.len() && (#[trigger] kept[i] == #[trigger] s[q]
                        || s[q].spec_minus(kept[i]).spec_magnitude().spec_lt(scalar::one::<S>()))
        }),
    decreases n,
{
    if n > 0 {
        lemma_spaced(s, n - 1);
        let before = spaced(s, n - 1);
        let kept = spaced(s, n);
        let x = s[n - 1];
        assert forall|i: int| 0 <= i < kept.len() implies exists|q: int|
            0 <= q < n && s[q] == #[trigger] kept[i] by {
            if i < before.len() {
                assert(kept[i] == before[i]);
                let q = choose|q: int| 0 <= q < n - 1 && s[q] == before[i];
                assert(s[q] == kept[i]);
            } else {
                assert(s[n - 1] == kept[i]);
            }
        }
        assert forall|i: int, j: int| 0 <= i < j < kept.len() implies (
        #[trigger] kept[i]).spec_le(#[trigger] kept[j]) by {
            assert(kept[i] == before[i]);
            if j < before.len() {
                assert(kept[j] == before[j]);
            } else {
                let q = choose|q: int| 0 <= q < n - 1 && s[q] == before[i];
                assert(s[q].spec_le(s[n - 1]));
            }
        }
        assert forall|q: int| 0 <= q < n implies exists|i: int|
            0 <= i < kept.len() && (#[trigger] kept[i] == #[trigger] s[q] || s[q].spec_minus(
                kept[i],
            ).spec_magnitude().spec_lt(scalar::one::<S>())) by {
            if q < n - 1 {
                let i = choose|i: int|
                    0 <= i < before.len() && (#[trigger] before[i] == s[q] || s[q].spec_minus(
                        before[i],
                    ).spec_magnitude().spec_lt(scalar::one::<S>()));
                assert(kept[i] == before[i]);
            } else if kept.len() > before.len() {
                assert(kept[before.len() as int] == s[q]);
            } else {
                assert(kept[kept.len() - 1] == before.last());
            }
        }
    }
}

/// The image of a rectangle holds the images of its corners.
pub proof fn law_a_rectangles_image_holds_its_corners<S: Scalar>(
    ctm: Matrix<S>,
    x: S,
    y: S,
    w: S,
    h: S,
    right: bool,
    low: bool,
)
    requires
        scalar::orderly::<S>(),
    ensures
        ({
            let r = rect_image(ctm, x, y, w, h);
            let p = ctm.image(
                Point {
                    x: if right {
                        x.spec_plus(w)
                    } else {
                        x
                    },
                    y: if low {
                        y.spec_plus(h)
                    } else {
                        y
                    },
                },
            );
            &&& r.x0.spec_le(p.x) && p.x.spec_le(r.x1)
            &&& r.y0.spec_le(p.y) && p.y.spec_le(r.y1)
        }),
{
    let a = ctm.image(Point { x, y });
    let b = ctm.image(Point { x: x.spec_plus(w), y });
    let c = ctm.image(Point { x: x.spec_plus(w), y: y.spec_plus(h) });
    let d = ctm.image(Point { x, y: y.spec_plus(h) });
    let r0 = Rect::<S>::spec_inverted();
    let r1 = r0.spec_extended(a.x, a.y);
    let r2 = r1.spec_extended(b.x, b.y);
    let r3 = r2.spec_extended(c.x, c.y);
    let r4 = r3.spec_extended(d.x, d.y);
    lemma_extended_holds(r0, a, a);
    lemma_extended_holds(r1, b, a);
    lemma_extended_holds(r2, c, a);
    lemma_extended_holds(r3, d, a);
    lemma_extended_holds(r2, c, b);
    lemma_extended_holds(r3, d, b);
    lemma_extended_holds(r3, d, c);
}

proof fn lemma_extended_holds<S: Scalar>(r: Rect<S>, p: Point<S>, q: Point<S>)
    requires
        scalar::orderly::<S>(),
    ensures
        ({
            let e = r.spec_extended(p.x, p.y);
            &&& e.x0.spec_le(p.x) && p.x.spec_le(e.x1) && e.y0.spec_le(p.y) && p.y.spec_le(e.y1)
            &&& r.x0.spec_le(q.x) && q.x.spec_le(r.x1) && r.y0.spec_le(q.y) && q.y.spec_le(r.y1)
                ==> e.x0.spec_le(q.x) && q.x.spec_le(e.x1) && e.y0.spec_le(q.y) && q.y.spec_le(
                e.y1,
            )
        }),
{
    let e = r.spec_extended(p.x, p.y);
    scalar::lemma_order(r.x0, p.x, q.x);
    scalar::lemma_order(p.x, r.x0, q.x);
    scalar::lemma_order(r.y0, p.y, q.y);
    scalar::lemma_order(p.y, r.y0, q.y);
    scalar::lemma_order(r.x1, p.x, q.x);
    scalar::lemma_order(p.x, r.x1, q.x);
    scalar::lemma_order(r.y1, p.y, q.y);
    scalar::lemma_order(p.y, r.y1, q.y);
    scalar::lemma_order(q.x, r.x1, p.x);
    scalar::lemma_order(q.y, r.y1, p.y);
    scalar::lemma_order(e.x0, r.x0, q.x);
    scalar::lemma_order(e.y0, r.y0, q.y);
    scalar::lemma_order(p.x, p.x, p.x);
    scalar::lemma_order(p.y, p.y, p.y);
}

/// A stroked rectangle that is long enough both ways has four sides: one on its
/// top, one on its bottom, and one on either side, each its whole length.
pub proof fn law_a_stroked_rectangle_has_four_sides<S: Scalar>(
    rules: Seq<Rule<S>>,
    r: Rect<S>,
    thickness: S,
)
    requires
        ({
            let t = stroke_width(thickness);
            &&& edge_rule(across(r.x0, r.x1, r.y0, t), true, t) is Some
            &&& edge_rule(across(r.x0, r.x1, r.y1, t), true, t) is Some
            &&& edge_rule(down(r.y0, r.y1, r.x0, t), false, t) is Some
            &&& edge_rule(down(r.y0, r.y1, r.x1, t), false, t) is Some
        }),
    ensures
        ({
            let t = stroke_width(thickness);
            let all = with_edges(rules, r, thickness);
            let n = rules.len() as int;
            &&& all.len() == n + 4
            &&& all.take(n) == rules
            &&& all[n].bbox == across(r.x0, r.x1, r.y0, t) && all[n].horizontal
            &&& all[n + 1].bbox == across(r.x0, r.x1, r.y1, t) && all[n + 1].horizontal
            &&& all[n + 2].bbox == down(r.y0, r.y1, r.x0, t) && !all[n + 2].horizontal
            &&& all[n + 3].bbox == down(r.y0, r.y1, r.x1, t) && !all[n + 3].horizontal
        }),
{
    assert(with_edges(rules, r, thickness).take(rules.len() as int) =~= rules);
}

} // verus!
