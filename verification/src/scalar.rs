//! The numbers that coordinates are made of.
//!
//! Layout is written once, over any number type that offers the operations of
//! [`Scalar`]. A caller with its own coordinates implements the trait for them;
//! [`Fixed`] is a fixed-point implementation.

use vstd::prelude::*;

verus! {

/// A coordinate: arithmetic, comparison and conversion, each determined by its
/// operands alone.
pub trait Scalar: Copy + Sized {
    // What each operation computes.
    spec fn spec_ratio(num: i64, den: i64) -> Self;

    spec fn spec_plus(self, other: Self) -> Self;

    spec fn spec_minus(self, other: Self) -> Self;

    spec fn spec_times(self, other: Self) -> Self;

    spec fn spec_over(self, other: Self) -> Self;

    spec fn spec_rem(self, other: Self) -> Self;

    spec fn spec_neg(self) -> Self;

    spec fn spec_magnitude(self) -> Self;

    spec fn spec_root(self) -> Self;

    spec fn spec_sine(self) -> Self;

    spec fn spec_cosine(self) -> Self;

    spec fn spec_least(self, other: Self) -> Self;

    spec fn spec_greatest(self, other: Self) -> Self;

    spec fn spec_lt(self, other: Self) -> bool;

    spec fn spec_le(self, other: Self) -> bool;

    spec fn spec_same(self, other: Self) -> bool;

    spec fn spec_finite(self) -> bool;

    spec fn spec_floor(self) -> Self;

    spec fn spec_ceiling(self) -> Self;

    spec fn spec_nearest(self) -> Self;

    spec fn spec_whole(self) -> i64;

    spec fn spec_highest() -> Self;

    spec fn spec_lowest() -> Self;

    /// The quotient of two whole numbers.
    fn ratio(num: i64, den: i64) -> (r: Self)
        requires
            den > 0,
        ensures
            r == Self::spec_ratio(num, den),
    ;

    /// The sum.
    fn plus(self, other: Self) -> (r: Self)
        ensures
            r == self.spec_plus(other),
    ;

    /// The difference.
    fn minus(self, other: Self) -> (r: Self)
        ensures
            r == self.spec_minus(other),
    ;

    /// The product.
    fn times(self, other: Self) -> (r: Self)
        ensures
            r == self.spec_times(other),
    ;

    /// The quotient.
    fn over(self, other: Self) -> (r: Self)
        ensures
            r == self.spec_over(other),
    ;

    /// The remainder of a division, with the sign of the dividend.
    fn rem(self, other: Self) -> (r: Self)
        ensures
            r == self.spec_rem(other),
    ;

    /// The number with the opposite sign.
    fn neg(self) -> (r: Self)
        ensures
            r == self.spec_neg(),
    ;

    /// The absolute value.
    fn magnitude(self) -> (r: Self)
        ensures
            r == self.spec_magnitude(),
    ;

    /// The square root.
    fn root(self) -> (r: Self)
        ensures
            r == self.spec_root(),
    ;

    /// The sine of an angle in radians.
    fn sine(self) -> (r: Self)
        ensures
            r == self.spec_sine(),
    ;

    /// The cosine of an angle in radians.
    fn cosine(self) -> (r: Self)
        ensures
            r == self.spec_cosine(),
    ;

    /// The smaller of two numbers.
    fn least(self, other: Self) -> (r: Self)
        ensures
            r == self.spec_least(other),
    ;

    /// The larger of two numbers.
    fn greatest(self, other: Self) -> (r: Self)
        ensures
            r == self.spec_greatest(other),
    ;

    /// Whether this number is smaller.
    fn lt(self, other: Self) -> (r: bool)
        ensures
            r == self.spec_lt(other),
    ;

    /// Whether this number is not larger.
    fn le(self, other: Self) -> (r: bool)
        ensures
            r == self.spec_le(other),
    ;

    /// Whether the numbers compare equal.
    fn same(self, other: Self) -> (r: bool)
        ensures
            r == self.spec_same(other),
    ;

    /// Whether this is a number, and not an overflow or the result of an
    /// undefined operation.
    fn finite(self) -> (r: bool)
        ensures
            r == self.spec_finite(),
    ;

    /// The largest whole number that is not larger.
    fn floor(self) -> (r: Self)
        ensures
            r == self.spec_floor(),
    ;

    /// The smallest whole number that is not smaller.
    fn ceiling(self) -> (r: Self)
        ensures
            r == self.spec_ceiling(),
    ;

    /// The nearest whole number, halves away from zero.
    fn nearest(self) -> (r: Self)
        ensures
            r == self.spec_nearest(),
    ;

    /// The whole number reached by dropping the fraction, held within the range
    /// of the result.
    fn whole(self) -> (r: i64)
        ensures
            r == self.spec_whole(),
    ;

    /// The highest number there is.
    fn highest() -> (r: Self)
        ensures
            r == Self::spec_highest(),
    ;

    /// The lowest number there is.
    fn lowest() -> (r: Self)
        ensures
            r == Self::spec_lowest(),
    ;
}

/// The number zero.
pub open spec fn zero<S: Scalar>() -> S {
    S::spec_ratio(0, 1)
}

/// The number one.
pub open spec fn one<S: Scalar>() -> S {
    S::spec_ratio(1, 1)
}

/// A count as a number.
pub open spec fn count<S: Scalar>(n: int) -> S {
    S::spec_ratio(n as i64, 1)
}

/// A count as a number. Counts past the range of the conversion do not occur:
/// they are lengths of lists held in memory.
pub fn from_count<S: Scalar>(n: usize) -> (r: S)
    ensures
        r == count::<S>(held(n as int)),
{
    let n: u64 = n as u64;
    if n < 0x7FFF_FFFF_FFFF_FFFF {
        S::ratio(n as i64, 1)
    } else {
        S::ratio(0x7FFF_FFFF_FFFF_FFFF, 1)
    }
}

/// A total as a number, held within the range of the conversion.
pub fn from_total<S: Scalar>(n: u64) -> (r: S)
    ensures
        r == count::<S>(held(n as int)),
{
    if n < 0x7FFF_FFFF_FFFF_FFFF {
        S::ratio(n as i64, 1)
    } else {
        S::ratio(0x7FFF_FFFF_FFFF_FFFF, 1)
    }
}

/// Whether two numbers can be ordered, as any two can that are numbers at all.
pub open spec fn comparable<S: Scalar>(a: S, b: S) -> bool {
    &&& a.spec_le(b) || b.spec_lt(a)
    &&& b.spec_le(a) || a.spec_lt(b)
    &&& a.spec_lt(b) ==> a.spec_le(b)
    &&& b.spec_lt(a) ==> b.spec_le(a)
}

/// A count held within the range of the conversion to a number.
pub open spec fn held(n: int) -> int {
    if n < 0x7FFF_FFFF_FFFF_FFFF {
        n
    } else {
        0x7FFF_FFFF_FFFF_FFFF
    }
}

/// Half a turn, in radians.
pub open spec fn pi<S: Scalar>() -> S {
    S::spec_ratio(3_141_592_653_589_793, 1_000_000_000_000_000)
}

/// A full turn, in radians.
pub open spec fn tau<S: Scalar>() -> S {
    S::spec_ratio(6_283_185_307_179_586, 1_000_000_000_000_000)
}

/// The number zero.
pub fn zero_of<S: Scalar>() -> (r: S)
    ensures
        r == zero::<S>(),
{
    S::ratio(0, 1)
}

/// The number one.
pub fn one_of<S: Scalar>() -> (r: S)
    ensures
        r == one::<S>(),
{
    S::ratio(1, 1)
}

/// Half a turn, in radians.
pub fn pi_of<S: Scalar>() -> (r: S)
    ensures
        r == pi::<S>(),
{
    S::ratio(3_141_592_653_589_793, 1_000_000_000_000_000)
}

/// A full turn, in radians.
pub fn tau_of<S: Scalar>() -> (r: S)
    ensures
        r == tau::<S>(),
{
    S::ratio(6_283_185_307_179_586, 1_000_000_000_000_000)
}

/// The smallest relative difference that counts: a part in two to the power of
/// fifty-two.
pub open spec fn epsilon<S: Scalar>() -> S {
    S::spec_ratio(1, 0x10_0000_0000_0000)
}

/// The smallest relative difference that counts.
pub fn epsilon_of<S: Scalar>() -> (r: S)
    ensures
        r == epsilon::<S>(),
{
    S::ratio(1, 0x10_0000_0000_0000)
}

/// A number held between two bounds.
pub open spec fn clamp<S: Scalar>(v: S, low: S, high: S) -> S {
    if v.spec_lt(low) {
        low
    } else if high.spec_lt(v) {
        high
    } else {
        v
    }
}

/// A number held between two bounds.
pub fn clamped<S: Scalar>(v: S, low: S, high: S) -> (r: S)
    ensures
        r == clamp(v, low, high),
{
    if v.lt(low) {
        low
    } else if high.lt(v) {
        high
    } else {
        v
    }
}

/// A fixed-point number: a count of 1/65536ths. Results out of range are held
/// at the ends of the range.
#[derive(Debug, Clone, Copy, PartialEq, Eq, Structural)]
pub struct Fixed {
    pub raw: i64,
}

impl Fixed {
    /// The fixed-point number nearest to a count of 1/65536ths.
    pub open spec fn held(v: int) -> Fixed {
        Fixed {
            raw: if v > i64::MAX {
                i64::MAX
            } else if v < i64::MIN {
                i64::MIN
            } else {
                v as i64
            },
        }
    }

    fn hold(v: i128) -> (r: Fixed)
        ensures
            r == Fixed::held(v as int),
    {
        if v > 0x7FFF_FFFF_FFFF_FFFF {
            Fixed { raw: i64::MAX }
        } else if v < -0x8000_0000_0000_0000 {
            Fixed { raw: i64::MIN }
        } else {
            Fixed { raw: v as i64 }
        }
    }
}

/// Division that drops the fraction; dividing by zero gives a value past the
/// range of the dividend's sign, or zero for zero.
pub open spec fn div_toward_zero(a: int, b: int) -> int {
    if b == 0 {
        if a > 0 {
            0x1_0000_0000_0000_0000
        } else if a < 0 {
            -0x1_0000_0000_0000_0000
        } else {
            0
        }
    } else {
        let q = abs(a) / abs(b);
        if (a < 0) == (b < 0) {
            q
        } else {
            -q
        }
    }
}

/// The absolute value of an integer.
pub open spec fn abs(a: int) -> int {
    if a < 0 {
        -a
    } else {
        a
    }
}

fn abs_i128(a: i128) -> (r: u128)
    requires
        a > i128::MIN,
    ensures
        r == abs(a as int),
{
    if a < 0 {
        (-a) as u128
    } else {
        a as u128
    }
}

fn divide(a: i128, b: i128) -> (r: i128)
    requires
        i128::MIN < a,
        i128::MIN < b,
    ensures
        r == div_toward_zero(a as int, b as int),
{
    if b == 0 {
        if a > 0 {
            0x1_0000_0000_0000_0000
        } else if a < 0 {
            -0x1_0000_0000_0000_0000
        } else {
            0
        }
    } else {
        let x: u128 = abs_i128(a);
        let y: u128 = abs_i128(b);
        let q: u128 = x / y;
        assert(q <= x) by (nonlinear_arith)
            requires
                q == x / y,
                y > 0,
        ;
        if (a < 0) == (b < 0) {
            q as i128
        } else {
            -(q as i128)
        }
    }
}

/// The whole numbers in a count of 1/65536ths, rounded down.
fn floor_units(v: i128) -> (r: i128)
    requires
        -0x1_0000_0000_0000_0000 <= v <= 0x1_0000_0000_0000_0000,
    ensures
        r == v as int / 0x10000,
        -0x1_0000_0000_0000_0000 <= r <= 0x1_0000_0000_0000_0000,
{
    let q: i128 = divide(v, 0x10000);
    assert(abs(0x10000) == 0x10000);
    if v < 0 {
        assert(q == -((-v) / 0x10000));
        let back: i128 = q * 0x10000;
        if back > v {
            q - 1
        } else {
            q
        }
    } else {
        q
    }
}

/// A count of whole things that a number stands for: none for a number below
/// zero, and the largest count for one past the range.
pub open spec fn count_from(v: int) -> int {
    if v < 0 {
        0
    } else if v > usize::MAX {
        usize::MAX as int
    } else {
        v
    }
}

/// The count of whole things that a number stands for.
pub fn to_count<S: Scalar>(v: S) -> (r: usize)
    ensures
        r == count_from(v.spec_whole() as int),
{
    let n: i64 = v.whole();
    if n < 0 {
        0
    } else {
        let n: u64 = n as u64;
        if n > usize::MAX as u64 {
            usize::MAX
        } else {
            n as usize
        }
    }
}

/// Half a turn in 1/65536ths of a radian.
pub const HALF_TURN: i64 = 205_887;

/// The sine of an angle between zero and half a turn, by Bhaskara's rational
/// approximation, good to two parts in a thousand. Angles and result are in
/// 1/65536ths.
pub open spec fn arc_sine_curve(x: int) -> int {
    let p = x * (HALF_TURN - x);
    (16 * p * 0x10000) / (5 * (HALF_TURN * HALF_TURN) - 4 * p)
}

/// The sine of any angle, by reduction to half a turn. Angle and result are in
/// 1/65536ths.
pub open spec fn sine_curve(x: int) -> int {
    let r = x % (2 * HALF_TURN);
    if r <= HALF_TURN {
        arc_sine_curve(r)
    } else {
        -arc_sine_curve(r - HALF_TURN)
    }
}

fn sine_units(x: i128) -> (r: i128)
    requires
        -0x1_0000_0000_0000_0000 < x < 0x1_0000_0000_0000_0000,
    ensures
        r == sine_curve(x as int),
        -0x20000 <= r <= 0x20000,
{
    let turn: i128 = 411_774;
    let lifted: i128 = x + turn * 0x1_0000_0000_0000_0000;
    let r: i128 = lifted % turn;
    proof {
        vstd::arithmetic::div_mod::lemma_mod_multiples_vanish(
            0x1_0000_0000_0000_0000,
            x as int,
            turn as int,
        );
        assert(turn * 0x1_0000_0000_0000_0000 == 0x1_0000_0000_0000_0000 * turn);
    }
    let folded: i128 = if r <= 205_887 {
        r
    } else {
        r - 205_887
    };
    assert(0 <= folded * (205_887 - folded) <= 205_887 * 205_887 / 4) by (nonlinear_arith)
        requires
            0 <= folded <= 205_887,
    ;
    let p: i128 = folded * (205_887 - folded);
    let q: i128 = (16 * p * 0x10000) / (5 * (205_887 * 205_887) - 4 * p);
    assert(0 <= q <= 0x20000) by (nonlinear_arith)
        requires
            q == (16 * p * 0x10000) as int / (5 * (205_887 * 205_887) - 4 * p) as int,
            0 <= p <= 205_887 * 205_887 / 4,
    ;
    if r <= 205_887 {
        q
    } else {
        -q
    }
}

/// The largest whole number whose square is no larger.
pub open spec fn is_root(r: int, v: int) -> bool {
    0 <= r && r * r <= v && v < (r + 1) * (r + 1)
}

/// The whole part of a square root.
pub open spec fn root_of(v: int) -> int {
    choose|r: int| is_root(r, v)
}

fn whole_root(v: u128) -> (r: u128)
    requires
        v < 0x1_0000_0000_0000_0000_0000,
    ensures
        is_root(r as int, v as int),
{
    let mut low: u128 = 0;
    let mut high: u128 = 0x100_0000_0000;
    assert(0x100_0000_0000u128 * 0x100_0000_0000u128 == 0x1_0000_0000_0000_0000_0000u128)
        by (nonlinear_arith);
    assert(low * low == 0) by (nonlinear_arith)
        requires
            low == 0,
    ;
    while high - low > 1
        invariant
            low < high <= 0x100_0000_0000,
            low * low <= v,
            v < high * high,
        decreases high - low,
    {
        let mid: u128 = low + (high - low) / 2;
        assert(mid * mid <= 0x1_0000_0000_0000_0000_0000) by (nonlinear_arith)
            requires
                mid <= 0x100_0000_0000,
        ;
        if mid * mid <= v {
            low = mid;
        } else {
            high = mid;
        }
    }
    low
}

impl Scalar for Fixed {
    open spec fn spec_ratio(num: i64, den: i64) -> Self {
        Fixed::held(div_toward_zero(num * 0x10000, den as int))
    }

    open spec fn spec_plus(self, other: Self) -> Self {
        Fixed::held(self.raw + other.raw)
    }

    open spec fn spec_minus(self, other: Self) -> Self {
        Fixed::held(self.raw - other.raw)
    }

    open spec fn spec_times(self, other: Self) -> Self {
        Fixed::held(div_toward_zero(self.raw * other.raw, 0x10000))
    }

    open spec fn spec_over(self, other: Self) -> Self {
        Fixed::held(div_toward_zero(self.raw * 0x10000, other.raw as int))
    }

    open spec fn spec_rem(self, other: Self) -> Self {
        if other.raw == 0 {
            Fixed { raw: 0 }
        } else {
            let m = abs(self.raw as int) % abs(other.raw as int);
            Fixed::held(if self.raw < 0 {
                -m
            } else {
                m
            })
        }
    }

    open spec fn spec_neg(self) -> Self {
        Fixed::held(-self.raw)
    }

    open spec fn spec_magnitude(self) -> Self {
        Fixed::held(abs(self.raw as int))
    }

    open spec fn spec_root(self) -> Self {
        if self.raw <= 0 {
            Fixed { raw: 0 }
        } else {
            Fixed::held(root_of(self.raw * 0x10000))
        }
    }

    open spec fn spec_sine(self) -> Self {
        Fixed::held(sine_curve(self.raw as int))
    }

    open spec fn spec_cosine(self) -> Self {
        Fixed::held(sine_curve(self.raw + HALF_TURN / 2))
    }

    open spec fn spec_least(self, other: Self) -> Self {
        if other.raw < self.raw {
            other
        } else {
            self
        }
    }

    open spec fn spec_greatest(self, other: Self) -> Self {
        if other.raw > self.raw {
            other
        } else {
            self
        }
    }

    open spec fn spec_lt(self, other: Self) -> bool {
        self.raw < other.raw
    }

    open spec fn spec_le(self, other: Self) -> bool {
        self.raw <= other.raw
    }

    open spec fn spec_same(self, other: Self) -> bool {
        self.raw == other.raw
    }

    open spec fn spec_finite(self) -> bool {
        i64::MIN < self.raw < i64::MAX
    }

    open spec fn spec_floor(self) -> Self {
        Fixed::held((self.raw as int / 0x10000) * 0x10000)
    }

    open spec fn spec_ceiling(self) -> Self {
        Fixed::held(-((-self.raw as int) / 0x10000) * 0x10000)
    }

    open spec fn spec_nearest(self) -> Self {
        if self.raw >= 0 {
            Fixed::held(((self.raw + 0x8000) / 0x10000) * 0x10000)
        } else {
            Fixed::held(-((-self.raw + 0x8000) / 0x10000) * 0x10000)
        }
    }

    open spec fn spec_whole(self) -> i64 {
        div_toward_zero(self.raw as int, 0x10000) as i64
    }

    open spec fn spec_highest() -> Self {
        Fixed { raw: i64::MAX }
    }

    open spec fn spec_lowest() -> Self {
        Fixed { raw: i64::MIN }
    }

    fn ratio(num: i64, den: i64) -> Self {
        Fixed::hold(divide(num as i128 * 0x10000, den as i128))
    }

    fn plus(self, other: Self) -> Self {
        Fixed::hold(self.raw as i128 + other.raw as i128)
    }

    fn minus(self, other: Self) -> Self {
        Fixed::hold(self.raw as i128 - other.raw as i128)
    }

    fn times(self, other: Self) -> Self {
        let a: i128 = self.raw as i128;
        let b: i128 = other.raw as i128;
        assert(-0x4000_0000_0000_0000_0000_0000_0000_0000 <= a * b
            <= 0x4000_0000_0000_0000_0000_0000_0000_0000) by (nonlinear_arith)
            requires
                -0x8000_0000_0000_0000 <= a <= 0x7FFF_FFFF_FFFF_FFFF,
                -0x8000_0000_0000_0000 <= b <= 0x7FFF_FFFF_FFFF_FFFF,
        ;
        Fixed::hold(divide(a * b, 0x10000))
    }

    fn over(self, other: Self) -> Self {
        Fixed::hold(divide(self.raw as i128 * 0x10000, other.raw as i128))
    }

    fn rem(self, other: Self) -> Self {
        if other.raw == 0 {
            Fixed { raw: 0 }
        } else {
            let x: u128 = abs_i128(self.raw as i128);
            let y: u128 = abs_i128(other.raw as i128);
            let m: u128 = x % y;
            assert(m <= x) by (nonlinear_arith)
                requires
                    m == x % y,
                    y > 0,
            ;
            if self.raw < 0 {
                Fixed::hold(-(m as i128))
            } else {
                Fixed::hold(m as i128)
            }
        }
    }

    fn neg(self) -> Self {
        Fixed::hold(-(self.raw as i128))
    }

    fn magnitude(self) -> Self {
        if self.raw < 0 {
            Fixed::hold(-(self.raw as i128))
        } else {
            self
        }
    }

    fn root(self) -> Self {
        if self.raw <= 0 {
            Fixed { raw: 0 }
        } else {
            let v: u128 = self.raw as u128 * 0x10000;
            let r: u128 = whole_root(v);
            proof {
                let c = root_of(self.raw * 0x10000);
                assert(is_root(r as int, self.raw * 0x10000));
                let q = r as int;
                assert(is_root(c, self.raw * 0x10000));
                if c < q {
                    assert((c + 1) * (c + 1) <= q * q) by (nonlinear_arith)
                        requires
                            0 <= c,
                            c + 1 <= q,
                    ;
                } else if q < c {
                    assert((q + 1) * (q + 1) <= c * c) by (nonlinear_arith)
                        requires
                            0 <= q,
                            q + 1 <= c,
                    ;
                }
            }
            assert(r <= 0x7FFF_FFFF_FFFF_FFFF) by (nonlinear_arith)
                requires
                    r * r <= v,
                    v < 0x1_0000_0000_0000_0000_0000,
            ;
            Fixed::hold(r as i128)
        }
    }

    fn sine(self) -> Self {
        Fixed::hold(sine_units(self.raw as i128))
    }

    fn cosine(self) -> Self {
        Fixed::hold(sine_units(self.raw as i128 + 102_943))
    }

    fn least(self, other: Self) -> Self {
        if other.raw < self.raw {
            other
        } else {
            self
        }
    }

    fn greatest(self, other: Self) -> Self {
        if other.raw > self.raw {
            other
        } else {
            self
        }
    }

    fn lt(self, other: Self) -> bool {
        self.raw < other.raw
    }

    fn le(self, other: Self) -> bool {
        self.raw <= other.raw
    }

    fn same(self, other: Self) -> bool {
        self.raw == other.raw
    }

    fn finite(self) -> bool {
        i64::MIN < self.raw && self.raw < i64::MAX
    }

    fn floor(self) -> Self {
        Fixed::hold(floor_units(self.raw as i128) * 0x10000)
    }

    fn ceiling(self) -> Self {
        Fixed::hold(-floor_units(-(self.raw as i128)) * 0x10000)
    }

    fn nearest(self) -> Self {
        if self.raw >= 0 {
            Fixed::hold(floor_units(self.raw as i128 + 0x8000) * 0x10000)
        } else {
            Fixed::hold(-floor_units(-(self.raw as i128) + 0x8000) * 0x10000)
        }
    }

    fn whole(self) -> i64 {
        let q: i128 = divide(self.raw as i128, 0x10000);
        assert(abs(self.raw as int) / 0x10000 <= abs(self.raw as int));
        q as i64
    }

    fn highest() -> Self {
        Fixed { raw: i64::MAX }
    }

    fn lowest() -> Self {
        Fixed { raw: i64::MIN }
    }
}

/// Whether the numbers are linearly ordered: any two can be compared, the
/// comparisons and the choices between two numbers agree, and there is a lowest
/// and a highest one. Fixed-point numbers are, and so are floating-point ones as
/// far as they are numbers.
pub open spec fn orderly<S: Scalar>() -> bool {
    &&& forall|x: S, y: S| #[trigger] x.spec_le(y) || y.spec_le(x)
    &&& forall|x: S, y: S| #[trigger] x.spec_le(y) && y.spec_le(x) ==> x == y
    &&& forall|x: S, y: S, z: S|
        #[trigger] x.spec_le(y) && #[trigger] y.spec_le(z) ==> x.spec_le(z)
    &&& forall|x: S, y: S| #[trigger] x.spec_lt(y) == !y.spec_le(x)
    &&& forall|x: S, y: S| #[trigger]
        x.spec_greatest(y) == if x.spec_le(y) {
            y
        } else {
            x
        }
    &&& forall|x: S, y: S| #[trigger]
        x.spec_least(y) == if x.spec_le(y) {
            x
        } else {
            y
        }
    &&& forall|x: S| S::spec_lowest().spec_le(x) && #[trigger] x.spec_le(S::spec_highest())
    &&& forall|x: S| #[trigger] S::spec_lowest().spec_le(x)
}

/// Fixed-point numbers are linearly ordered.
pub proof fn law_fixed_point_numbers_are_orderly()
    ensures
        orderly::<Fixed>(),
{
}

/// Comparisons of three numbers of an orderly kind agree with each other.
pub proof fn lemma_order<S: Scalar>(a: S, b: S, c: S)
    requires
        orderly::<S>(),
    ensures
        a.spec_le(a),
        !a.spec_lt(a),
        a.spec_lt(b) ==> a.spec_le(b) && a != b,
        !a.spec_lt(b) ==> b.spec_le(a),
        a.spec_lt(b) && b.spec_lt(c) ==> a.spec_lt(c),
        a.spec_lt(b) && b.spec_le(c) ==> a.spec_lt(c),
        a.spec_le(b) && b.spec_lt(c) ==> a.spec_lt(c),
        a.spec_le(b) && b.spec_le(c) ==> a.spec_le(c),
        a.spec_le(b) && b.spec_le(a) ==> a == b,
{
    assert(a.spec_le(a) || a.spec_le(a));
    assert(a.spec_le(b) || b.spec_le(a));
    assert(b.spec_le(c) || c.spec_le(b));
    assert(a.spec_le(c) || c.spec_le(a));
}

/// Division of a multiple is exact.
pub proof fn lemma_exact_division(v: int, d: int)
    requires
        d > 0,
    ensures
        div_toward_zero(v * d, d) == v,
        abs(v * d) == abs(v) * d,
{
    let a = abs(v);
    assert(abs(v * d) == a * d) by {
        if v < 0 {
            assert(v * d < 0) by (nonlinear_arith)
                requires
                    v < 0,
                    d > 0,
            ;
            assert(-(v * d) == (-v) * d) by (nonlinear_arith);
        } else {
            assert(v * d >= 0) by (nonlinear_arith)
                requires
                    v >= 0,
                    d > 0,
            ;
        }
    }
    let b = abs(d);
    assert((a * b) / b == a) by (nonlinear_arith)
        requires
            b > 0,
            a >= 0,
    ;
    if v < 0 {
        assert(v * d < 0) by (nonlinear_arith)
            requires
                v < 0,
                d > 0,
        ;
    } else {
        assert(v * d >= 0) by (nonlinear_arith)
            requires
                v >= 0,
                d > 0,
        ;
    }
}

/// Arithmetic on fixed-point numbers is that of the numbers they stand for,
/// where the range holds them: a whole number is as many units, sums and
/// differences undo each other, and one and zero are neutral.
pub proof fn law_fixed_point_arithmetic(x: Fixed, y: Fixed, n: i64)
    requires
        -0x7FFF_FFFF_FFFF <= n <= 0x7FFF_FFFF_FFFF,
    ensures
        Fixed::spec_ratio(n, 1).raw == n * 0x10000,
        i64::MIN <= x.raw + y.raw <= i64::MAX ==> x.spec_plus(y).spec_minus(y) == x,
        x.spec_plus(y) == y.spec_plus(x),
        x.spec_times(y) == y.spec_times(x),
        x.spec_plus(Fixed::spec_ratio(0, 1)) == x,
        x.spec_times(Fixed::spec_ratio(1, 1)) == x,
        x.spec_times(Fixed::spec_ratio(0, 1)) == Fixed::spec_ratio(0, 1),
        x.spec_over(Fixed::spec_ratio(1, 1)) == x,
        i64::MIN <= n * x.raw <= i64::MAX ==> x.spec_times(Fixed::spec_ratio(n, 1)).raw == n
            * x.raw,
        x.raw != i64::MIN ==> x.spec_neg().spec_plus(x) == Fixed::spec_ratio(0, 1),
        x.spec_magnitude() == x || x.spec_magnitude() == x.spec_neg(),
        Fixed::spec_ratio(0, 1).spec_le(x.spec_magnitude()),
{
    let one = Fixed::spec_ratio(1, 1);
    let none = Fixed::spec_ratio(0, 1);
    lemma_exact_division(n * 0x10000, 1);
    lemma_exact_division(0x10000, 1);
    lemma_exact_division(0, 1);
    assert(one.raw == 0x10000 && none.raw == 0);
    assert(x.raw * y.raw == y.raw * x.raw) by (nonlinear_arith);
    lemma_exact_division(x.raw as int, 0x10000);
    lemma_exact_division(0, 0x10000);
    assert(x.raw * none.raw == 0) by (nonlinear_arith)
        requires
            none.raw == 0,
    ;
    assert(x.raw * one.raw == x.raw * 0x10000) by (nonlinear_arith)
        requires
            one.raw == 0x10000,
    ;
    let m = Fixed::spec_ratio(n, 1);
    assert(m.raw == n * 0x10000);
    assert(x.raw * m.raw == (n * x.raw) * 0x10000) by (nonlinear_arith)
        requires
            m.raw == n * 0x10000,
    ;
    lemma_exact_division(n * x.raw, 0x10000);
}

/// Rounding goes to a whole number, down, up or to the nearer, by less than one
/// and by at most a half; a root squared is the number, to within the last place;
/// a number held between two bounds is the nearest of what lies between.
pub proof fn law_fixed_point_rounding(x: Fixed, low: Fixed, high: Fixed)
    requires
        -0x7FFF_FFFF_0000_0000 <= x.raw <= 0x7FFF_FFFF_0000_0000,
        low.raw <= high.raw,
    ensures
        x.spec_floor().raw <= x.raw < x.spec_floor().raw + 0x10000,
        x.spec_ceiling().raw - 0x10000 < x.raw <= x.spec_ceiling().raw,
        x.spec_floor().raw % 0x10000 == 0,
        x.spec_ceiling().raw % 0x10000 == 0,
        x.spec_nearest().raw % 0x10000 == 0,
        -0x8000 <= x.spec_nearest().raw - x.raw <= 0x8000,
        x.raw >= 0 ==> x.spec_whole() * 0x10000 <= x.raw < (x.spec_whole() + 1) * 0x10000,
        x.raw < 0 ==> (x.spec_whole() - 1) * 0x10000 < x.raw <= x.spec_whole() * 0x10000,
        low.raw <= clamp(x, low, high).raw <= high.raw,
        low.raw <= x.raw <= high.raw ==> clamp(x, low, high) == x,
        x.raw < low.raw ==> clamp(x, low, high) == low,
        x.raw > high.raw ==> clamp(x, low, high) == high,
{
}

} // verus!
