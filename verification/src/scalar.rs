//! Coordinates and the arithmetic that the tree performs on them.
//!
//! The tree never looks inside a coordinate: it compares coordinates with a
//! total preorder and combines them with the six operations below.  The
//! facts stated by the proof functions of [`Scalar`] are the only properties
//! of that arithmetic that the tree's proofs use.
use vstd::prelude::*;

verus! {

/// A totally preordered number type with the arithmetic that rectangles and
/// distances need.
///
/// Each exec operation returns the value of its spec counterpart, and the
/// proof functions state the order and monotonicity facts that the nearest
/// neighbour proofs rely on.  The `i64` instance below proves them; an
/// instance for doubles that are never NaN meets them because rounding to
/// nearest is monotone.
pub trait Scalar: Copy + Sized {
    /// `self <= other` in the coordinate order.
    spec fn le(self, other: Self) -> bool;

    spec fn spec_zero() -> Self;

    spec fn spec_one() -> Self;

    /// A value no smaller than any other.
    spec fn spec_infinity() -> Self;

    spec fn spec_plus(self, other: Self) -> Self;

    spec fn spec_minus(self, other: Self) -> Self;

    spec fn spec_times(self, other: Self) -> Self;

    proof fn le_reflexive(a: Self)
        ensures
            a.le(a),
    ;

    proof fn le_transitive(a: Self, b: Self, c: Self)
        requires
            a.le(b),
            b.le(c),
        ensures
            a.le(c),
    ;

    proof fn le_total(a: Self, b: Self)
        ensures
            a.le(b) || b.le(a),
    ;

    /// Infinity is no smaller than any value.
    proof fn infinity_greatest(a: Self)
        ensures
            a.le(Self::spec_infinity()),
    ;

    /// The square of `a - b` is the square of `b - a`.
    proof fn square_difference_symmetric(a: Self, b: Self)
        ensures
            a.spec_minus(b).spec_times(a.spec_minus(b)) == b.spec_minus(a).spec_times(b.spec_minus(a)),
    ;

    /// The square of the difference of two equal values is the square of zero.
    proof fn square_difference_equal(a: Self, b: Self)
        requires
            a.le(b),
            b.le(a),
        ensures
            a.spec_minus(b).spec_times(a.spec_minus(b)) == Self::spec_zero().spec_times(Self::spec_zero()),
    ;

    /// A value times zero, and zero times a value, is equivalent to zero.
    proof fn times_zero(a: Self)
        ensures
            a.spec_times(Self::spec_zero()).le(Self::spec_zero()),
            Self::spec_zero().le(a.spec_times(Self::spec_zero())),
            Self::spec_zero().spec_times(a).le(Self::spec_zero()),
            Self::spec_zero().le(Self::spec_zero().spec_times(a)),
    ;

    /// Multiplying equivalent values gives equivalent products.
    proof fn times_equiv(a: Self, b: Self, c: Self, d: Self)
        requires
            a.le(c) && c.le(a),
            b.le(d) && d.le(b),
        ensures
            a.spec_times(b).le(c.spec_times(d)),
            c.spec_times(d).le(a.spec_times(b)),
    ;

    /// A value minus itself is equivalent to zero.
    proof fn minus_self(a: Self)
        ensures
            a.spec_minus(a).le(Self::spec_zero()),
            Self::spec_zero().le(a.spec_minus(a)),
    ;

    /// Adding the square of zero to zero gives zero.
    proof fn zero_plus_zero_square()
        ensures
            Self::spec_zero().spec_plus(Self::spec_zero().spec_times(Self::spec_zero())) == Self::spec_zero(),
    ;

    /// Addition is monotone in both arguments.
    proof fn plus_monotone(a: Self, b: Self, c: Self, d: Self)
        requires
            a.le(c),
            b.le(d),
        ensures
            a.spec_plus(b).le(c.spec_plus(d)),
    ;

    /// Subtraction is monotone in its first argument and antitone in its second.
    proof fn minus_monotone(a: Self, b: Self, c: Self, d: Self)
        requires
            a.le(c),
            d.le(b),
        ensures
            a.spec_minus(b).le(c.spec_minus(d)),
    ;

    /// The difference of a value and a smaller one is not negative.
    proof fn minus_nonnegative(a: Self, b: Self)
        requires
            b.le(a),
        ensures
            Self::spec_zero().le(a.spec_minus(b)),
    ;

    /// Squaring is monotone on values that are not negative.
    proof fn square_monotone(a: Self, b: Self)
        requires
            Self::spec_zero().le(a),
            a.le(b),
        ensures
            a.spec_times(a).le(b.spec_times(b)),
    ;

    /// No square is below the square of zero.
    proof fn square_least(a: Self)
        ensures
            Self::spec_zero().spec_times(Self::spec_zero()).le(a.spec_times(a)),
    ;

    fn zero() -> (r: Self)
        ensures
            r == Self::spec_zero(),
    ;

    fn one() -> (r: Self)
        ensures
            r == Self::spec_one(),
    ;

    fn infinity() -> (r: Self)
        ensures
            r == Self::spec_infinity(),
    ;

    fn is_le(&self, other: &Self) -> (b: bool)
        ensures
            b == self.le(*other),
    ;

    fn plus(&self, other: &Self) -> (r: Self)
        ensures
            r == self.spec_plus(*other),
    ;

    fn minus(&self, other: &Self) -> (r: Self)
        ensures
            r == self.spec_minus(*other),
    ;

    fn times(&self, other: &Self) -> (r: Self)
        ensures
            r == self.spec_times(*other),
    ;
}

/// `a < b`: `b <= a` does not hold.
pub open spec fn lt<S: Scalar>(a: S, b: S) -> bool {
    !b.le(a)
}

/// `a` and `b` are equal in the coordinate order.
pub open spec fn equiv<S: Scalar>(a: S, b: S) -> bool {
    a.le(b) && b.le(a)
}

/// What `core::cmp::min` returns: the first argument unless the second is smaller.
pub open spec fn smin<S: Scalar>(a: S, b: S) -> S {
    if a.le(b) {
        a
    } else {
        b
    }
}

/// What `core::cmp::max` returns: the second argument unless the first is greater.
pub open spec fn smax<S: Scalar>(a: S, b: S) -> S {
    if a.le(b) {
        b
    } else {
        a
    }
}

/// Lexicographic `(a0, a1) <= (b0, b1)`.
pub open spec fn pair_le<S: Scalar>(a: (S, S), b: (S, S)) -> bool {
    lt(a.0, b.0) || (equiv(a.0, b.0) && a.1.le(b.1))
}

pub fn min_of<S: Scalar>(a: &S, b: &S) -> (r: S)
    ensures
        r == smin(*a, *b),
{
    if a.is_le(b) {
        *a
    } else {
        *b
    }
}

pub fn max_of<S: Scalar>(a: &S, b: &S) -> (r: S)
    ensures
        r == smax(*a, *b),
{
    if a.is_le(b) {
        *b
    } else {
        *a
    }
}

/// Lexicographic comparison of two pairs of coordinates.
pub fn pair_is_le<S: Scalar>(a: &(S, S), b: &(S, S)) -> (r: bool)
    ensures
        r == pair_le(*a, *b),
{
    if !b.0.is_le(&a.0) {
        true
    } else if a.0.is_le(&b.0) {
        a.1.is_le(&b.1)
    } else {
        false
    }
}

pub proof fn lemma_min_max<S: Scalar>(a: S, b: S)
    ensures
        smin(a, b).le(a),
        smin(a, b).le(b),
        a.le(smax(a, b)),
        b.le(smax(a, b)),
        smin(a, b) == a || smin(a, b) == b,
        smax(a, b) == a || smax(a, b) == b,
{
    S::le_reflexive(a);
    S::le_reflexive(b);
    S::le_total(a, b);
}

pub proof fn lemma_pair_le_total<S: Scalar>(a: (S, S), b: (S, S))
    ensures
        pair_le(a, b) || pair_le(b, a),
{
    S::le_total(a.0, b.0);
    S::le_total(a.1, b.1);
}

pub proof fn lemma_pair_le_transitive<S: Scalar>(a: (S, S), b: (S, S), c: (S, S))
    requires
        pair_le(a, b),
        pair_le(b, c),
    ensures
        pair_le(a, c),
{
    S::le_total(a.0, b.0);
    S::le_total(b.0, c.0);
    S::le_total(a.0, c.0);
    if a.0.le(b.0) && b.0.le(c.0) {
        S::le_transitive(a.0, b.0, c.0);
    }
    if c.0.le(a.0) && a.0.le(b.0) {
        S::le_transitive(c.0, a.0, b.0);
    }
    if b.0.le(c.0) && c.0.le(a.0) {
        S::le_transitive(b.0, c.0, a.0);
    }
    if a.1.le(b.1) && b.1.le(c.1) {
        S::le_transitive(a.1, b.1, c.1);
    }
}

/// Saturating integer coordinates: every operation is exact unless the exact
/// result leaves the range of `i64`, in which case the nearest bound is taken.
impl Scalar for i64 {
    open spec fn le(self, other: Self) -> bool {
        self <= other
    }

    open spec fn spec_zero() -> Self {
        0
    }

    open spec fn spec_one() -> Self {
        1
    }

    open spec fn spec_infinity() -> Self {
        i64::MAX
    }

    open spec fn spec_plus(self, other: Self) -> Self {
        saturate(self + other)
    }

    open spec fn spec_minus(self, other: Self) -> Self {
        saturate(self - other)
    }

    open spec fn spec_times(self, other: Self) -> Self {
        saturate(self * other)
    }

    proof fn le_reflexive(a: Self) {
    }

    proof fn le_transitive(a: Self, b: Self, c: Self) {
    }

    proof fn le_total(a: Self, b: Self) {
    }

    proof fn infinity_greatest(a: Self) {
    }

    proof fn times_zero(a: Self) {
    }

    proof fn minus_self(a: Self) {
    }

    proof fn times_equiv(a: Self, b: Self, c: Self, d: Self) {
    }

    proof fn square_difference_symmetric(a: Self, b: Self) {
        let x: int = a - b;
        let u = saturate(x);
        let w = saturate(-x);
        assert(b - a == -x);
        if -0x7fff_ffff_ffff_ffff <= x <= 0x7fff_ffff_ffff_ffff {
            assert(u * u == w * w) by (nonlinear_arith)
                requires
                    u == x,
                    w == -x,
            ;
        } else {
            assert(u * u > 0x7fff_ffff_ffff_ffff && w * w > 0x7fff_ffff_ffff_ffff) by (nonlinear_arith)
                requires
                    u <= -0x7fff_ffff_ffff_ffff || u >= 0x7fff_ffff_ffff_ffff,
                    w <= -0x7fff_ffff_ffff_ffff || w >= 0x7fff_ffff_ffff_ffff,
            ;
        }
    }

    proof fn square_difference_equal(a: Self, b: Self) {
    }

    proof fn zero_plus_zero_square() {
    }

    proof fn plus_monotone(a: Self, b: Self, c: Self, d: Self) {
    }

    proof fn minus_monotone(a: Self, b: Self, c: Self, d: Self) {
    }

    proof fn minus_nonnegative(a: Self, b: Self) {
    }

    proof fn square_monotone(a: Self, b: Self) {
        assert(a * a <= b * b) by (nonlinear_arith)
            requires
                0 <= a <= b,
        ;
    }

    proof fn square_least(a: Self) {
        assert(0 <= a * a) by (nonlinear_arith);
    }

    fn zero() -> (r: Self) {
        0
    }

    fn one() -> (r: Self) {
        1
    }

    fn infinity() -> (r: Self) {
        i64::MAX
    }

    fn is_le(&self, other: &Self) -> (b: bool) {
        *self <= *other
    }

    fn plus(&self, other: &Self) -> (r: Self) {
        saturate_exec((*self as i128) + (*other as i128))
    }

    fn minus(&self, other: &Self) -> (r: Self) {
        saturate_exec((*self as i128) - (*other as i128))
    }

    fn times(&self, other: &Self) -> (r: Self) {
        let a = *self as i128;
        let b = *other as i128;
        assert(-0x8000_0000_0000_0000 * 0x8000_0000_0000_0000 <= a * b <= 0x8000_0000_0000_0000
            * 0x8000_0000_0000_0000) by (nonlinear_arith)
            requires
                -0x8000_0000_0000_0000 <= a < 0x8000_0000_0000_0000,
                -0x8000_0000_0000_0000 <= b < 0x8000_0000_0000_0000,
        ;
        saturate_exec(a * b)
    }
}

/// The value of `x` clamped to the range of `i64`.
pub open spec fn saturate(x: int) -> i64 {
    if x > i64::MAX {
        i64::MAX
    } else if x < i64::MIN {
        i64::MIN
    } else {
        x as i64
    }
}

fn saturate_exec(x: i128) -> (r: i64)
    ensures
        r == saturate(x as int),
{
    if x > i64::MAX as i128 {
        i64::MAX
    } else if x < i64::MIN as i128 {
        i64::MIN
    } else {
        x as i64
    }
}

} // verus!
