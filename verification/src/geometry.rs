//! Points, rectangles and affine transforms.

use vstd::prelude::*;

use crate::scalar;
use crate::scalar::Scalar;

verus! {

#[derive(Debug, Clone, Copy, PartialEq)]
pub struct Point<S> {
    pub x: S,
    pub y: S,
}

/// A rectangle, by its low and high corners.
#[derive(Debug, Clone, Copy, PartialEq)]
pub struct Rect<S> {
    pub x0: S,
    pub y0: S,
    pub x1: S,
    pub y1: S,
}

/// An affine transform: `x' = a x + c y + e`, `y' = b x + d y + f`.
#[derive(Debug, Clone, Copy, PartialEq)]
pub struct Matrix<S> {
    pub a: S,
    pub b: S,
    pub c: S,
    pub d: S,
    pub e: S,
    pub f: S,
}

impl<S: Scalar> Point<S> {
    /// Whether both coordinates compare equal.
    pub open spec fn spec_same(self, other: Point<S>) -> bool {
        self.x.spec_same(other.x) && self.y.spec_same(other.y)
    }

    /// Whether both coordinates compare equal.
    pub fn same(self, other: Point<S>) -> (r: bool)
        ensures
            r == self.spec_same(other),
    {
        self.x.same(other.x) && self.y.same(other.y)
    }
}

impl<S: Scalar> Matrix<S> {
    /// The image of a point.
    pub open spec fn image(self, p: Point<S>) -> Point<S> {
        Point {
            x: self.a.spec_times(p.x).spec_plus(self.c.spec_times(p.y)).spec_plus(self.e),
            y: self.b.spec_times(p.x).spec_plus(self.d.spec_times(p.y)).spec_plus(self.f),
        }
    }

    /// The image of a point.
    pub fn apply(&self, p: Point<S>) -> (r: Point<S>)
        ensures
            r == self.image(p),
    {
        Point {
            x: self.a.times(p.x).plus(self.c.times(p.y)).plus(self.e),
            y: self.b.times(p.x).plus(self.d.times(p.y)).plus(self.f),
        }
    }
}

impl<S: Scalar> Rect<S> {
    /// The rectangle between two opposite corners, in whichever order.
    pub open spec fn between(x0: S, y0: S, x1: S, y1: S) -> Rect<S> {
        Rect {
            x0: x0.spec_least(x1),
            y0: y0.spec_least(y1),
            x1: x0.spec_greatest(x1),
            y1: y0.spec_greatest(y1),
        }
    }

    /// The rectangle between two opposite corners, in whichever order.
    pub fn new(x0: S, y0: S, x1: S, y1: S) -> (r: Rect<S>)
        ensures
            r == Rect::between(x0, y0, x1, y1),
    {
        Rect { x0: x0.least(x1), y0: y0.least(y1), x1: x0.greatest(x1), y1: y0.greatest(y1) }
    }

    /// The rectangle with both corners at the origin.
    pub open spec fn spec_none() -> Rect<S> {
        Rect {
            x0: scalar::zero::<S>(),
            y0: scalar::zero::<S>(),
            x1: scalar::zero::<S>(),
            y1: scalar::zero::<S>(),
        }
    }

    /// The rectangle with both corners at the origin.
    pub fn none() -> (r: Rect<S>)
        ensures
            r == Rect::<S>::spec_none(),
    {
        Rect {
            x0: scalar::zero_of::<S>(),
            y0: scalar::zero_of::<S>(),
            x1: scalar::zero_of::<S>(),
            y1: scalar::zero_of::<S>(),
        }
    }

    /// The rectangle that any point extends to that point.
    pub open spec fn spec_inverted() -> Rect<S> {
        Rect {
            x0: S::spec_highest(),
            y0: S::spec_highest(),
            x1: S::spec_lowest(),
            y1: S::spec_lowest(),
        }
    }

    /// The rectangle that any point extends to that point.
    pub fn inverted() -> (r: Rect<S>)
        ensures
            r == Rect::<S>::spec_inverted(),
    {
        Rect { x0: S::highest(), y0: S::highest(), x1: S::lowest(), y1: S::lowest() }
    }

    pub open spec fn spec_width(self) -> S {
        self.x1.spec_minus(self.x0)
    }

    pub open spec fn spec_height(self) -> S {
        self.y1.spec_minus(self.y0)
    }

    pub fn width(&self) -> (r: S)
        ensures
            r == self.spec_width(),
    {
        self.x1.minus(self.x0)
    }

    pub fn height(&self) -> (r: S)
        ensures
            r == self.spec_height(),
    {
        self.y1.minus(self.y0)
    }

    /// The smallest rectangle around two.
    pub open spec fn spec_union(self, other: Rect<S>) -> Rect<S> {
        Rect {
            x0: self.x0.spec_least(other.x0),
            y0: self.y0.spec_least(other.y0),
            x1: self.x1.spec_greatest(other.x1),
            y1: self.y1.spec_greatest(other.y1),
        }
    }

    /// The smallest rectangle around two.
    pub fn union(&self, other: &Rect<S>) -> (r: Rect<S>)
        ensures
            r == self.spec_union(*other),
    {
        Rect {
            x0: self.x0.least(other.x0),
            y0: self.y0.least(other.y0),
            x1: self.x1.greatest(other.x1),
            y1: self.y1.greatest(other.y1),
        }
    }

    /// The part of a rectangle inside another, if any.
    pub open spec fn spec_within(self, clip: Rect<S>) -> Option<Rect<S>> {
        let r = Rect {
            x0: self.x0.spec_greatest(clip.x0),
            y0: self.y0.spec_greatest(clip.y0),
            x1: self.x1.spec_least(clip.x1),
            y1: self.y1.spec_least(clip.y1),
        };
        if r.x1.spec_lt(r.x0) || r.y1.spec_lt(r.y0) {
            None
        } else {
            Some(r)
        }
    }

    /// The part of a rectangle inside another, if any.
    pub fn within(&self, clip: &Rect<S>) -> (r: Option<Rect<S>>)
        ensures
            r == self.spec_within(*clip),
    {
        let r = Rect {
            x0: self.x0.greatest(clip.x0),
            y0: self.y0.greatest(clip.y0),
            x1: self.x1.least(clip.x1),
            y1: self.y1.least(clip.y1),
        };
        if r.x1.lt(r.x0) || r.y1.lt(r.y0) {
            None
        } else {
            Some(r)
        }
    }

    /// The rectangle extended to a point.
    pub open spec fn spec_extended(self, x: S, y: S) -> Rect<S> {
        Rect {
            x0: self.x0.spec_least(x),
            y0: self.y0.spec_least(y),
            x1: self.x1.spec_greatest(x),
            y1: self.y1.spec_greatest(y),
        }
    }

    /// The rectangle extended to a point.
    pub fn extended(&self, x: S, y: S) -> (r: Rect<S>)
        ensures
            r == self.spec_extended(x, y),
    {
        Rect {
            x0: self.x0.least(x),
            y0: self.y0.least(y),
            x1: self.x1.greatest(x),
            y1: self.y1.greatest(y),
        }
    }
}

/// Whether a rectangle lies in another.
pub open spec fn encloses<S: Scalar>(outer: Rect<S>, inner: Rect<S>) -> bool {
    &&& outer.x0.spec_le(inner.x0)
    &&& outer.y0.spec_le(inner.y0)
    &&& inner.x1.spec_le(outer.x1)
    &&& inner.y1.spec_le(outer.y1)
}

/// The union of two rectangles encloses both, and lies in every rectangle that
/// does.
pub proof fn law_a_union_is_the_smallest_around_both<S: Scalar>(
    a: Rect<S>,
    b: Rect<S>,
    outer: Rect<S>,
)
    requires
        scalar::orderly::<S>(),
    ensures
        encloses(a.spec_union(b), a),
        encloses(a.spec_union(b), b),
        encloses(outer, a) && encloses(outer, b) ==> encloses(outer, a.spec_union(b)),
{
    scalar::lemma_order(a.x0, b.x0, a.x0);
    scalar::lemma_order(a.y0, b.y0, a.y0);
    scalar::lemma_order(a.x1, b.x1, a.x1);
    scalar::lemma_order(a.y1, b.y1, a.y1);
    scalar::lemma_order(b.x0, a.x0, b.x0);
    scalar::lemma_order(b.y0, a.y0, b.y0);
    scalar::lemma_order(b.x1, a.x1, b.x1);
    scalar::lemma_order(b.y1, a.y1, b.y1);
}

/// The part of a rectangle inside another lies in both, and whatever upright
/// rectangle lies in both lies in it. There is none exactly where the two are
/// apart.
pub proof fn law_a_part_within_is_the_largest_in_both<S: Scalar>(
    a: Rect<S>,
    clip: Rect<S>,
    inner: Rect<S>,
)
    requires
        scalar::orderly::<S>(),
    ensures
        a.spec_within(clip) matches Some(r) ==> encloses(a, r) && encloses(clip, r) && (encloses(
            a,
            inner,
        ) && encloses(clip, inner) ==> encloses(r, inner)) && r.x0.spec_le(r.x1) && r.y0.spec_le(
            r.y1,
        ),
        a.spec_within(clip) is None ==> !(encloses(a, inner) && encloses(clip, inner)
            && inner.x0.spec_le(inner.x1) && inner.y0.spec_le(inner.y1)),
{
    let low_x = a.x0.spec_greatest(clip.x0);
    let low_y = a.y0.spec_greatest(clip.y0);
    let high_x = a.x1.spec_least(clip.x1);
    let high_y = a.y1.spec_least(clip.y1);
    scalar::lemma_order(a.x0, clip.x0, a.x0);
    scalar::lemma_order(a.y0, clip.y0, a.y0);
    scalar::lemma_order(a.x1, clip.x1, a.x1);
    scalar::lemma_order(a.y1, clip.y1, a.y1);
    scalar::lemma_order(clip.x0, a.x0, clip.x0);
    scalar::lemma_order(clip.y0, a.y0, clip.y0);
    scalar::lemma_order(clip.x1, a.x1, clip.x1);
    scalar::lemma_order(clip.y1, a.y1, clip.y1);
    scalar::lemma_order(high_x, low_x, high_x);
    scalar::lemma_order(high_y, low_y, high_y);
    scalar::lemma_order(low_x, inner.x0, inner.x1);
    scalar::lemma_order(low_x, inner.x1, high_x);
    scalar::lemma_order(low_y, inner.y0, inner.y1);
    scalar::lemma_order(low_y, inner.y1, high_y);
}

/// The rectangle between two corners is upright and has both as corners.
pub proof fn law_a_rectangle_between_corners_is_upright<S: Scalar>(x0: S, y0: S, x1: S, y1: S)
    requires
        scalar::orderly::<S>(),
    ensures
        ({
            let r = Rect::between(x0, y0, x1, y1);
            &&& r.x0.spec_le(r.x1)
            &&& r.y0.spec_le(r.y1)
            &&& (r.x0, r.x1) == (x0, x1) || (r.x0, r.x1) == (x1, x0)
            &&& (r.y0, r.y1) == (y0, y1) || (r.y0, r.y1) == (y1, y0)
            &&& r == Rect::between(x1, y1, x0, y0)
        }),
{
    scalar::lemma_order(x0, x1, x0);
    scalar::lemma_order(y0, y1, y0);
    scalar::lemma_order(x1, x0, x1);
    scalar::lemma_order(y1, y0, y1);
}

/// A rectangle extended to a point holds the point and what it held, and no
/// smaller one does. Extended from nothing it is the point.
pub proof fn law_an_extended_rectangle_holds_the_point<S: Scalar>(
    r: Rect<S>,
    x: S,
    y: S,
    outer: Rect<S>,
)
    requires
        scalar::orderly::<S>(),
    ensures
        ({
            let point = Rect { x0: x, y0: y, x1: x, y1: y };
            &&& encloses(r.spec_extended(x, y), r)
            &&& encloses(r.spec_extended(x, y), point)
            &&& encloses(outer, r) && encloses(outer, point) ==> encloses(
                outer,
                r.spec_extended(x, y),
            )
            &&& Rect::<S>::spec_inverted().spec_extended(x, y) == point
        }),
{
    scalar::lemma_order(r.x0, x, r.x0);
    scalar::lemma_order(r.y0, y, r.y0);
    scalar::lemma_order(r.x1, x, r.x1);
    scalar::lemma_order(r.y1, y, r.y1);
    scalar::lemma_order(x, r.x0, x);
    scalar::lemma_order(y, r.y0, y);
    scalar::lemma_order(x, r.x1, x);
    scalar::lemma_order(y, r.y1, y);
    assert(x.spec_le(S::spec_highest()) && S::spec_lowest().spec_le(x));
    assert(y.spec_le(S::spec_highest()) && S::spec_lowest().spec_le(y));
    scalar::lemma_order(x, S::spec_highest(), x);
    scalar::lemma_order(y, S::spec_highest(), y);
    scalar::lemma_order(x, S::spec_lowest(), x);
    scalar::lemma_order(y, S::spec_lowest(), y);
    scalar::lemma_order(S::spec_highest(), x, x);
    scalar::lemma_order(S::spec_highest(), y, y);
    scalar::lemma_order(S::spec_lowest(), x, x);
    scalar::lemma_order(S::spec_lowest(), y, y);
}

/// A translation moves every point by the same amount, and a scaling keeps the
/// axes apart.
pub proof fn law_transforms_move_and_scale(p: Point<scalar::Fixed>, m: Matrix<scalar::Fixed>)
    ensures
        ({
            let one = scalar::Fixed::spec_ratio(1, 1);
            let none = scalar::Fixed::spec_ratio(0, 1);
            let q = m.image(p);
            &&& m.a == one && m.b == none && m.c == none && m.d == one ==> q.x == p.x.spec_plus(m.e)
                && q.y == p.y.spec_plus(m.f)
            &&& m.b == none && m.c == none ==> q.x == m.a.spec_times(p.x).spec_plus(m.e) && q.y
                == m.d.spec_times(p.y).spec_plus(m.f)
            &&& m.a == none && m.d == none ==> q.x == m.c.spec_times(p.y).spec_plus(m.e) && q.y
                == m.b.spec_times(p.x).spec_plus(m.f)
        }),
{
    let one = scalar::Fixed::spec_ratio(1, 1);
    let none = scalar::Fixed::spec_ratio(0, 1);
    assert forall|v: scalar::Fixed|
        none.spec_times(v) == none && one.spec_times(v) == v && none.spec_plus(v) == v
            && #[trigger] v.spec_plus(none) == v by {
        scalar::law_fixed_point_arithmetic(v, none, 0);
        scalar::law_fixed_point_arithmetic(v, one, 0);
    }
    assert(p.x.spec_plus(none) == p.x && p.y.spec_plus(none) == p.y);
    assert(m.a.spec_times(p.x).spec_plus(none) == m.a.spec_times(p.x));
    assert(m.b.spec_times(p.x).spec_plus(none) == m.b.spec_times(p.x));
    assert(m.c.spec_times(p.y).spec_plus(none) == m.c.spec_times(p.y));
    assert(m.d.spec_times(p.y).spec_plus(none) == m.d.spec_times(p.y));
}

/// The width and the height of a rectangle take one side to the other.
pub proof fn law_extents_take_one_side_to_the_other(r: Rect<scalar::Fixed>)
    requires
        i64::MIN <= r.x1.raw - r.x0.raw <= i64::MAX,
        i64::MIN <= r.y1.raw - r.y0.raw <= i64::MAX,
    ensures
        r.x0.spec_plus(r.spec_width()) == r.x1,
        r.y0.spec_plus(r.spec_height()) == r.y1,
{
}

} // verus!
