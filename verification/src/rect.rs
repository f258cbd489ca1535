//! Axis-aligned rectangles: one closed interval `(lower, upper)` per dimension.
use crate::scalar::{equiv, lemma_min_max, lt, max_of, min_of, saturate, smax, smin, Scalar};
use vstd::prelude::*;

verus! {

/// An axis-aligned box given by a `(lower, upper)` interval in each dimension.
#[derive(Clone, Copy, Debug, PartialEq, PartialOrd)]
pub struct Rect<S, const DIM: usize>(pub [(S, S); DIM]);

/// The distance of `x` to the interval `s` along one axis, as the tree
/// computes it: zero inside the interval, otherwise the gap to the nearer end.
pub open spec fn segment_dist<S: Scalar>(s: (S, S), x: S) -> S {
    if s.0.le(x) && x.le(s.1) {
        S::spec_zero()
    } else if lt(s.0, x) {
        x.spec_minus(s.1)
    } else {
        s.0.spec_minus(x)
    }
}

/// `0 + d_0 * d_0 + ... + d_(n-1) * d_(n-1)`, summed from the left, where
/// `d_i` is the distance of `p[i]` to the interval `segs[i]`.
pub open spec fn dist_upto<S: Scalar>(segs: Seq<(S, S)>, p: Seq<S>, n: int) -> S
    decreases n,
{
    if n <= 0 {
        S::spec_zero()
    } else {
        let d = segment_dist(segs[n - 1], p[n - 1]);
        dist_upto(segs, p, n - 1).spec_plus(d.spec_times(d))
    }
}

/// The degenerate intervals `(x[i], x[i])` of a point.
pub open spec fn point_segments<S, const DIM: usize>(x: [S; DIM]) -> Seq<(S, S)> {
    Seq::new(DIM as nat, |i: int| (x[i], x[i]))
}

/// The squared distance from point `x` to point `p` as the tree measures it:
/// the distance from `p` to the degenerate rectangle of `x`.
pub open spec fn point_key<S: Scalar, const DIM: usize>(x: [S; DIM], p: [S; DIM]) -> S {
    dist_upto(point_segments(x), p@, DIM as int)
}

/// `0 + (x_0 - y_0) * (x_0 - y_0) + ...`, summed from the left over the first `n` axes.
pub open spec fn sq_dist_upto<S: Scalar>(x: Seq<S>, y: Seq<S>, n: int) -> S
    decreases n,
{
    if n <= 0 {
        S::spec_zero()
    } else {
        let d = x[n - 1].spec_minus(y[n - 1]);
        sq_dist_upto(x, y, n - 1).spec_plus(d.spec_times(d))
    }
}

/// `1 * (u_0 - l_0) * ... * (u_(n-1) - l_(n-1))`, multiplied from the left.
pub open spec fn volume_upto<S: Scalar>(segs: Seq<(S, S)>, n: int) -> S
    decreases n,
{
    if n <= 0 {
        S::spec_one()
    } else {
        volume_upto(segs, n - 1).spec_times(segs[n - 1].1.spec_minus(segs[n - 1].0))
    }
}

/// The length `u - l` of the interval `(l, u)`.
pub open spec fn segment_length<S: Scalar>(s: (S, S)) -> S {
    s.1.spec_minus(s.0)
}

/// `0 + e_0 + ... + e_(n-1)`, summed from the left, where `e_i` is the length of `segs[i]`.
pub open spec fn margin_upto<S: Scalar>(segs: Seq<(S, S)>, n: int) -> S
    decreases n,
{
    if n <= 0 {
        S::spec_zero()
    } else {
        margin_upto(segs, n - 1).spec_plus(segment_length(segs[n - 1]))
    }
}

/// The interval that `segments_intersection` returns: the overlap of `a` and
/// `b`, or the degenerate interval at the greater lower end where they do not overlap.
pub open spec fn spec_segments_intersection<S: Scalar>(a: (S, S), b: (S, S)) -> (S, S) {
    let x = smax(a.0, b.0);
    let y = smin(a.1, b.1);
    if lt(y, x) {
        (x, x)
    } else {
        (x, y)
    }
}

impl<S: Scalar, const DIM: usize> Rect<S, DIM> {
    /// Each interval has its lower end at or below its upper end.
    pub open spec fn valid(self) -> bool {
        forall|i: int| 0 <= i < DIM ==> (#[trigger] self.0[i]).0.le(self.0[i].1)
    }

    /// `other` lies inside `self` in every dimension.
    pub open spec fn encloses(self, other: Self) -> bool {
        forall|i: int|
            0 <= i < DIM ==> (#[trigger] self.0[i]).0.le(other.0[i].0) && other.0[i].1.le(
                self.0[i].1,
            )
    }

    /// The point `p` lies inside `self`.
    pub open spec fn has_point(self, p: [S; DIM]) -> bool {
        forall|i: int| 0 <= i < DIM ==> (#[trigger] self.0[i]).0.le(p[i]) && p[i].le(self.0[i].1)
    }

    /// `self` is the degenerate rectangle of the point `p`.
    pub open spec fn is_point_rect(self, p: [S; DIM]) -> bool {
        forall|i: int| 0 <= i < DIM ==> #[trigger] self.0[i] == (p[i], p[i])
    }

    /// `self` is what `merge(r1, r2)` returns.
    pub open spec fn is_merge_of(self, r1: Self, r2: Self) -> bool {
        forall|i: int|
            0 <= i < DIM ==> #[trigger] self.0[i] == (
                smin(r1.0[i].0, r2.0[i].0),
                smax(r1.0[i].1, r2.0[i].1),
            )
    }

    /// `self` is what `r1.inter(r2)` returns.
    pub open spec fn is_inter_of(self, r1: Self, r2: Self) -> bool {
        forall|i: int|
            0 <= i < DIM ==> #[trigger] self.0[i] == spec_segments_intersection(r1.0[i], r2.0[i])
    }

    /// Every coordinate of `self` is zero.
    pub open spec fn is_empty_rect(self) -> bool {
        forall|i: int| 0 <= i < DIM ==> #[trigger] self.0[i] == (S::spec_zero(), S::spec_zero())
    }

    pub open spec fn spec_volume(self) -> S {
        volume_upto(self.0@, DIM as int)
    }

    pub open spec fn spec_margin(self) -> S {
        margin_upto(self.0@, DIM as int)
    }

    pub open spec fn spec_dist(self, p: [S; DIM]) -> S {
        dist_upto(self.0@, p@, DIM as int)
    }

    /// A rectangle whose every coordinate is zero: it contains only the origin.
    pub fn empty_rect() -> (r: Self)
        ensures
            r.is_empty_rect(),
    {
        let z = S::zero();
        Rect([(z, z);DIM])
    }

    /// The smallest rectangle that holds both `r1` and `r2`.
    pub fn merge(r1: &Self, r2: &Self) -> (r: Self)
        ensures
            r.is_merge_of(*r1, *r2),
    {
        let mut r = Self::empty_rect();
        for i in 0..DIM
            invariant
                forall|j: int|
                    0 <= j < i ==> #[trigger] r.0[j] == (
                        smin(r1.0[j].0, r2.0[j].0),
                        smax(r1.0[j].1, r2.0[j].1),
                    ),
        {
            r.0[i] = (min_of(&r1.0[i].0, &r2.0[i].0), max_of(&r1.0[i].1, &r2.0[i].1));
        }
        r
    }

    /// The degenerate rectangle of the point `p`.
    pub fn from_point(p: &[S; DIM]) -> (r: Self)
        ensures
            r.is_point_rect(*p),
    {
        let mut r = Self::empty_rect();
        for i in 0..DIM
            invariant
                forall|j: int| 0 <= j < i ==> #[trigger] r.0[j] == (p[j], p[j]),
        {
            r.0[i] = (p[i], p[i]);
        }
        r
    }

    /// Whether each interval has its lower end at or below its upper end.
    pub fn is_valid(&self) -> (b: bool)
        ensures
            b == self.valid(),
    {
        for i in 0..DIM
            invariant
                forall|j: int| 0 <= j < i ==> (#[trigger] self.0[j]).0.le(self.0[j].1),
        {
            if !self.0[i].0.is_le(&self.0[i].1) {
                return false;
            }
        }
        true
    }

    /// Whether `other` lies inside the rectangle, bounds included.
    pub fn covers(&self, other: &Self) -> (b: bool)
        ensures
            b == self.encloses(*other),
    {
        for i in 0..DIM
            invariant
                forall|j: int|
                    0 <= j < i ==> (#[trigger] self.0[j]).0.le(other.0[j].0) && other.0[j].1.le(self.0[j].1),
        {
            if !(self.0[i].0.is_le(&other.0[i].0) && other.0[i].1.is_le(&self.0[i].1)) {
                return false;
            }
        }
        true
    }

    /// Whether `p` lies inside the rectangle, bounds included.
    pub fn contains(&self, p: &[S; DIM]) -> (b: bool)
        ensures
            b == self.has_point(*p),
    {
        for i in 0..DIM
            invariant
                forall|j: int| 0 <= j < i ==> (#[trigger] self.0[j]).0.le(p[j]) && p[j].le(self.0[j].1),
        {
            if !(self.0[i].0.is_le(&p[i]) && p[i].is_le(&self.0[i].1)) {
                return false;
            }
        }
        true
    }

    /// The product of the lengths of the intervals.
    pub fn volume(&self) -> (v: S)
        ensures
            v == self.spec_volume(),
    {
        let mut acc = S::one();
        for i in 0..DIM
            invariant
                acc == volume_upto(self.0@, i as int),
        {
            let len = self.0[i].1.minus(&self.0[i].0);
            acc = acc.times(&len);
        }
        acc
    }

    /// The intersection of two rectangles.  Where the intervals of an axis do
    /// not overlap, that axis gets a degenerate interval, so the volume of the
    /// result is zero (it is then not the actual intersection).
    pub fn inter(&self, r: &Self) -> (res: Self)
        ensures
            res.is_inter_of(*self, *r),
    {
        let mut res = Self::empty_rect();
        for i in 0..DIM
            invariant
                forall|j: int|
                    0 <= j < i ==> #[trigger] res.0[j] == spec_segments_intersection(
                        self.0[j],
                        r.0[j],
                    ),
        {
            res.0[i] = segments_intersection(self.0[i], r.0[i]);
        }
        res
    }

    /// The margin: the sum over the axes of the interval lengths `u - l`,
    /// proportional to the sum of the lengths of all edges.
    pub fn margin(&self) -> (m: S)
        ensures
            m == self.spec_margin(),
    {
        let mut acc = S::zero();
        for i in 0..DIM
            invariant
                acc == margin_upto(self.0@, i as int),
        {
            let (x, y) = self.0[i];
            let len = y.minus(&x);
            acc = acc.plus(&len);
        }
        acc
    }

    /// The squared distance from `p` to the nearest point of the rectangle.
    pub fn dist_from_point(&self, p: &[S; DIM]) -> (d: S)
        ensures
            d == self.spec_dist(*p),
    {
        let mut acc = S::zero();
        for i in 0..DIM
            invariant
                acc == dist_upto(self.0@, p@, i as int),
        {
            let d = segment_dist_from_point(&self.0[i], &p[i]);
            acc = acc.plus(&d.times(&d));
        }
        acc
    }
}

fn segments_intersection<S: Scalar>(a: (S, S), b: (S, S)) -> (r: (S, S))
    ensures
        r == spec_segments_intersection(a, b),
{
    let x = max_of(&a.0, &b.0);
    let y = min_of(&a.1, &b.1);
    if !x.is_le(&y) {
        (x, x)
    } else {
        (x, y)
    }
}

fn segment_dist_from_point<S: Scalar>(s: &(S, S), x: &S) -> (d: S)
    ensures
        d == segment_dist(*s, *x),
{
    if s.0.is_le(x) && x.is_le(&s.1) {
        S::zero()
    } else if !x.is_le(&s.0) {
        x.minus(&s.1)
    } else {
        s.0.minus(x)
    }
}

/// The squared euclidean distance between two points, summed from the left.
pub fn points_distance<S: Scalar, const DIM: usize>(x: &[S; DIM], y: &[S; DIM]) -> (d: S)
    ensures
        d == sq_dist(*x, *y),
{
    let mut acc = S::zero();
    for i in 0..DIM
        invariant
            acc == sq_dist_upto(x@, y@, i as int),
    {
        let d = x[i].minus(&y[i]);
        acc = acc.plus(&d.times(&d));
    }
    acc
}

/// The squared gap from `x` to an interval grows as the interval shrinks:
/// for `r` inside `big`, the square for `big` is at most the one for `r`.
pub proof fn lemma_segment_dist_monotone<S: Scalar>(big: (S, S), r: (S, S), x: S)
    requires
        big.0.le(r.0),
        r.0.le(r.1),
        r.1.le(big.1),
    ensures
        ({
            let d = segment_dist(big, x);
            let e = segment_dist(r, x);
            d.spec_times(d).le(e.spec_times(e))
        }),
{
    let d = segment_dist(big, x);
    let e = segment_dist(r, x);
    S::le_total(big.0, x);
    S::le_total(x, big.1);
    S::le_total(r.0, x);
    S::le_total(x, r.1);
    S::le_reflexive(x);
    if big.0.le(x) && x.le(big.1) {
        S::square_least(e);
    } else if lt(big.0, x) {
        // x lies above big, hence above r
        S::le_transitive(r.1, big.1, x);
        S::le_transitive(r.0, r.1, big.1);
        if x.le(r.1) {
            S::le_transitive(x, r.1, big.1);
        }
        if x.le(r.0) {
            S::le_transitive(x, r.0, r.1);
            S::le_transitive(x, r.1, big.1);
        }
        S::minus_monotone(x, big.1, x, r.1);
        S::minus_nonnegative(x, big.1);
        S::square_monotone(d, e);
    } else {
        // x lies below big, hence below r
        S::le_transitive(big.0, r.0, r.1);
        S::le_transitive(big.0, r.1, big.1);
        if r.0.le(x) {
            S::le_transitive(big.0, r.0, x);
        }
        if x.le(big.0) && big.0.le(x) {
            S::le_transitive(x, big.0, big.1);
        }
        S::minus_monotone(big.0, x, r.0, x);
        S::minus_nonnegative(big.0, x);
        S::square_monotone(d, e);
    }
}

proof fn lemma_dist_upto_monotone<S: Scalar>(big: Seq<(S, S)>, r: Seq<(S, S)>, p: Seq<S>, n: int)
    requires
        0 <= n <= big.len(),
        n <= r.len(),
        n <= p.len(),
        forall|i: int|
            #![trigger big[i]]
            0 <= i < n ==> big[i].0.le(r[i].0) && r[i].0.le(r[i].1) && r[i].1.le(big[i].1),
    ensures
        dist_upto(big, p, n).le(dist_upto(r, p, n)),
    decreases n,
{
    if n <= 0 {
        S::le_reflexive(S::spec_zero());
    } else {
        lemma_dist_upto_monotone(big, r, p, n - 1);
        let i = n - 1;
        assert(0 <= i < n);
        assert(big[i].0.le(r[i].0));
        assert(r[i].0.le(r[i].1));
        assert(r[i].1.le(big[i].1));
        lemma_segment_dist_monotone(big[i], r[i], p[i]);
        let d = segment_dist(big[i], p[i]);
        let e = segment_dist(r[i], p[i]);
        S::plus_monotone(dist_upto(big, p, n - 1), d.spec_times(d), dist_upto(r, p, n - 1), e.spec_times(e));
    }
}

/// The distance from a point to a rectangle is at most its distance to any
/// valid rectangle that the first one encloses.
pub proof fn lemma_dist_monotone<S: Scalar, const DIM: usize>(big: Rect<S, DIM>, r: Rect<S, DIM>, p: [S; DIM])
    requires
        big.encloses(r),
        r.valid(),
    ensures
        big.spec_dist(p).le(r.spec_dist(p)),
{
    assert forall|i: int| 0 <= i < DIM implies big.0@[i].0.le(r.0@[i].0) && r.0@[i].0.le(r.0@[i].1) && r.0@[i].1.le(big.0@[i].1) by {
        assert(big.0[i] == big.0@[i]);
        assert(r.0[i] == r.0@[i]);
    }
    lemma_dist_upto_monotone(big.0@, r.0@, p@, DIM as int);
}

/// A rectangle that holds the point `x` is no farther from `p` than `x` is.
pub proof fn lemma_dist_below_point_key<S: Scalar, const DIM: usize>(r: Rect<S, DIM>, x: [S; DIM], p: [S; DIM])
    requires
        r.has_point(x),
    ensures
        r.spec_dist(p).le(point_key(x, p)),
{
    let segs = point_segments(x);
    assert forall|i: int| 0 <= i < DIM implies r.0@[i].0.le(segs[i].0) && segs[i].0.le(segs[i].1) && segs[i].1.le(r.0@[i].1) by {
        assert(r.0[i] == r.0@[i]);
        S::le_reflexive(x[i]);
    }
    lemma_dist_upto_monotone(r.0@, segs, p@, DIM as int);
}

/// The rectangle of a point is valid, holds the point, and its distance to
/// `q` is the point's key.
pub proof fn lemma_point_rect<S: Scalar, const DIM: usize>(r: Rect<S, DIM>, p: [S; DIM], q: [S; DIM])
    requires
        r.is_point_rect(p),
    ensures
        r.valid(),
        r.has_point(p),
        r.0@ == point_segments(p),
        r.spec_dist(q) == point_key(p, q),
{
    assert forall|i: int| 0 <= i < DIM implies (#[trigger] r.0[i]).0.le(r.0[i].1) && r.0[i].0.le(p[i]) && p[i].le(r.0[i].1) by {
        S::le_reflexive(p[i]);
    }
    assert(r.0@ =~= point_segments(p));
}

/// A rectangle holds a point exactly when it encloses the point's rectangle.
pub proof fn lemma_has_point_iff_encloses<S: Scalar, const DIM: usize>(big: Rect<S, DIM>, r: Rect<S, DIM>, p: [S; DIM])
    requires
        r.is_point_rect(p),
    ensures
        big.has_point(p) <==> big.encloses(r),
{
    if big.has_point(p) {
        assert forall|i: int| 0 <= i < DIM implies (#[trigger] big.0[i]).0.le(r.0[i].0) && r.0[i].1.le(big.0[i].1) by {
            assert(r.0[i] == (p[i], p[i]));
        }
    }
    if big.encloses(r) {
        assert forall|i: int| 0 <= i < DIM implies (#[trigger] big.0[i]).0.le(p[i]) && p[i].le(big.0[i].1) by {
            assert(r.0[i] == (p[i], p[i]));
        }
    }
}

/// Every rectangle encloses itself.
pub proof fn lemma_encloses_reflexive<S: Scalar, const DIM: usize>(r: Rect<S, DIM>)
    ensures
        r.encloses(r),
{
    assert forall|i: int| 0 <= i < DIM implies (#[trigger] r.0[i]).0.le(r.0[i].0) && r.0[i].1.le(r.0[i].1) by {
        S::le_reflexive(r.0[i].0);
        S::le_reflexive(r.0[i].1);
    }
}

/// Enclosure is transitive.
pub proof fn lemma_encloses_transitive<S: Scalar, const DIM: usize>(a: Rect<S, DIM>, b: Rect<S, DIM>, c: Rect<S, DIM>)
    requires
        a.encloses(b),
        b.encloses(c),
    ensures
        a.encloses(c),
{
    assert forall|i: int| 0 <= i < DIM implies (#[trigger] a.0[i]).0.le(c.0[i].0) && c.0[i].1.le(a.0[i].1) by {
        assert(b.0[i].0.le(c.0[i].0) && c.0[i].1.le(b.0[i].1));
        S::le_transitive(a.0[i].0, b.0[i].0, c.0[i].0);
        S::le_transitive(c.0[i].1, b.0[i].1, a.0[i].1);
    }
}

/// A rectangle that encloses a valid one is valid.
pub proof fn lemma_encloses_valid<S: Scalar, const DIM: usize>(big: Rect<S, DIM>, r: Rect<S, DIM>)
    requires
        big.encloses(r),
        r.valid(),
    ensures
        big.valid(),
{
    assert forall|i: int| 0 <= i < DIM implies (#[trigger] big.0[i]).0.le(big.0[i].1) by {
        assert(r.0[i].0.le(r.0[i].1));
        S::le_transitive(big.0[i].0, r.0[i].0, r.0[i].1);
        S::le_transitive(big.0[i].0, r.0[i].1, big.0[i].1);
    }
}

/// A point inside a rectangle is inside every rectangle that encloses it.
pub proof fn lemma_encloses_has_point<S: Scalar, const DIM: usize>(big: Rect<S, DIM>, r: Rect<S, DIM>, p: [S; DIM])
    requires
        big.encloses(r),
        r.has_point(p),
    ensures
        big.has_point(p),
{
    assert forall|i: int| 0 <= i < DIM implies (#[trigger] big.0[i]).0.le(p[i]) && p[i].le(big.0[i].1) by {
        assert(r.0[i].0.le(p[i]) && p[i].le(r.0[i].1));
        S::le_transitive(big.0[i].0, r.0[i].0, p[i]);
        S::le_transitive(p[i], r.0[i].1, big.0[i].1);
    }
}

/// `merge(r1, r2)` encloses both arguments and is enclosed by every
/// rectangle that encloses both; it is valid when either argument is.
pub proof fn lemma_merge<S: Scalar, const DIM: usize>(r: Rect<S, DIM>, r1: Rect<S, DIM>, r2: Rect<S, DIM>)
    requires
        r.is_merge_of(r1, r2),
    ensures
        r.encloses(r1),
        r.encloses(r2),
        forall|big: Rect<S, DIM>| big.encloses(r1) && big.encloses(r2) ==> #[trigger] big.encloses(r),
        r1.valid() ==> r.valid(),
        r2.valid() ==> r.valid(),
{
    assert forall|i: int| 0 <= i < DIM implies (#[trigger] r.0[i]).0.le(r1.0[i].0) && r1.0[i].1.le(r.0[i].1) && r.0[i].0.le(r2.0[i].0) && r2.0[i].1.le(r.0[i].1) by {
        lemma_min_max(r1.0[i].0, r2.0[i].0);
        lemma_min_max(r1.0[i].1, r2.0[i].1);
    }
    assert forall|big: Rect<S, DIM>| big.encloses(r1) && big.encloses(r2) implies #[trigger] big.encloses(r) by {
        assert forall|i: int| 0 <= i < DIM implies (#[trigger] big.0[i]).0.le(r.0[i].0) && r.0[i].1.le(big.0[i].1) by {
            lemma_min_max(r1.0[i].0, r2.0[i].0);
            lemma_min_max(r1.0[i].1, r2.0[i].1);
            assert(big.0[i].0.le(r1.0[i].0) && r1.0[i].1.le(big.0[i].1));
            assert(big.0[i].0.le(r2.0[i].0) && r2.0[i].1.le(big.0[i].1));
        }
    }
    if r1.valid() {
        lemma_encloses_valid(r, r1);
    }
    if r2.valid() {
        lemma_encloses_valid(r, r2);
    }
}

/// `r1.inter(r2)` is valid; on each axis where the two intervals overlap it
/// is their overlap, and on the others it is a single coordinate.
pub proof fn lemma_inter<S: Scalar, const DIM: usize>(r: Rect<S, DIM>, r1: Rect<S, DIM>, r2: Rect<S, DIM>)
    requires
        r.is_inter_of(r1, r2),
    ensures
        r.valid(),
        forall|i: int|
            0 <= i < DIM ==> if smax(r1.0[i].0, r2.0[i].0).le(smin(r1.0[i].1, r2.0[i].1)) {
                #[trigger] r.0[i] == (smax(r1.0[i].0, r2.0[i].0), smin(r1.0[i].1, r2.0[i].1))
            } else {
                r.0[i] == (smax(r1.0[i].0, r2.0[i].0), smax(r1.0[i].0, r2.0[i].0))
            },
        r1.valid() && r2.valid() && (forall|i: int|
            0 <= i < DIM ==> #[trigger] smax(r1.0[i].0, r2.0[i].0).le(smin(r1.0[i].1, r2.0[i].1)))
            ==> r1.encloses(r) && r2.encloses(r),
{
    assert forall|i: int| 0 <= i < DIM implies (#[trigger] r.0[i]).0.le(r.0[i].1) by {
        let x = smax(r1.0[i].0, r2.0[i].0);
        let y = smin(r1.0[i].1, r2.0[i].1);
        S::le_reflexive(x);
        S::le_total(x, y);
    }
    if r1.valid() && r2.valid() && (forall|i: int|
        0 <= i < DIM ==> #[trigger] smax(r1.0[i].0, r2.0[i].0).le(smin(r1.0[i].1, r2.0[i].1))) {
        assert forall|i: int| 0 <= i < DIM implies (#[trigger] r1.0[i]).0.le(r.0[i].0) && r.0[i].1.le(r1.0[i].1) && r2.0[i].0.le(r.0[i].0) && r.0[i].1.le(r2.0[i].1) by {
            lemma_min_max(r1.0[i].0, r2.0[i].0);
            lemma_min_max(r1.0[i].1, r2.0[i].1);
            assert(smax(r1.0[i].0, r2.0[i].0).le(smin(r1.0[i].1, r2.0[i].1)));
        }
    }
}

/// The rectangle that `empty_rect` returns holds exactly the points whose
/// every coordinate equals zero in the coordinate order.
/// The product of the lengths of the first `n` intervals is equivalent to
/// zero when one of them is a single point.
pub proof fn lemma_volume_upto_flat<S: Scalar>(segs: Seq<(S, S)>, n: int, i: int)
    requires
        0 <= i < n <= segs.len(),
        segs[i].0 == segs[i].1,
    ensures
        equiv(volume_upto(segs, n), S::spec_zero()),
    decreases n,
{
    let z = S::spec_zero();
    let len = segs[n - 1].1.spec_minus(segs[n - 1].0);
    let v = volume_upto(segs, n - 1);
    S::le_reflexive(v);
    S::le_reflexive(len);
    if n - 1 == i {
        S::minus_self(segs[i].0);
        S::times_equiv(v, len, v, z);
        S::times_zero(v);
        lemma_equiv_transitive(v.spec_times(len), v.spec_times(z), z);
    } else {
        lemma_volume_upto_flat(segs, n - 1, i);
        S::times_equiv(v, len, z, len);
        S::times_zero(len);
        lemma_equiv_transitive(v.spec_times(len), z.spec_times(len), z);
    }
}

/// Equivalence is transitive.
pub proof fn lemma_equiv_transitive<S: Scalar>(a: S, b: S, c: S)
    requires
        equiv(a, b),
        equiv(b, c),
    ensures
        equiv(a, c),
{
    S::le_transitive(a, b, c);
    S::le_transitive(c, b, a);
}

/// A rectangle that is flat on one axis has volume equivalent to zero.
pub proof fn lemma_flat_volume<S: Scalar, const DIM: usize>(r: Rect<S, DIM>, i: int)
    requires
        0 <= i < DIM,
        r.0[i].0 == r.0[i].1,
    ensures
        equiv(r.spec_volume(), S::spec_zero()),
{
    lemma_volume_upto_flat(r.0@, DIM as int, i);
}

/// Where two rectangles do not overlap on some axis, their intersection has
/// volume equivalent to zero.
pub proof fn lemma_disjoint_inter_volume<S: Scalar, const DIM: usize>(r: Rect<S, DIM>, r1: Rect<S, DIM>, r2: Rect<S, DIM>, i: int)
    requires
        r.is_inter_of(r1, r2),
        0 <= i < DIM,
        lt(smin(r1.0[i].1, r2.0[i].1), smax(r1.0[i].0, r2.0[i].0)),
    ensures
        equiv(r.spec_volume(), S::spec_zero()),
{
    assert(r.0[i] == spec_segments_intersection(r1.0[i], r2.0[i]));
    lemma_flat_volume(r, i);
}

/// The margin depends on the lengths of the intervals alone: rectangles
/// whose intervals have the same lengths, axis by axis, have the same margin.
pub proof fn lemma_margin_lengths<S: Scalar, const DIM: usize>(r1: Rect<S, DIM>, r2: Rect<S, DIM>)
    requires
        forall|i: int| 0 <= i < DIM ==> #[trigger] segment_length(r1.0[i]) == segment_length(r2.0[i]),
    ensures
        r1.spec_margin() == r2.spec_margin(),
{
    lemma_margin_upto_lengths(r1.0@, r2.0@, DIM as int);
}

proof fn lemma_margin_upto_lengths<S: Scalar>(a: Seq<(S, S)>, b: Seq<(S, S)>, n: int)
    requires
        n <= a.len(),
        n <= b.len(),
        forall|i: int| 0 <= i < n ==> #[trigger] segment_length(a[i]) == segment_length(b[i]),
    ensures
        margin_upto(a, n) == margin_upto(b, n),
    decreases n,
{
    if n > 0 {
        lemma_margin_upto_lengths(a, b, n - 1);
        assert(segment_length(a[n - 1]) == segment_length(b[n - 1]));
    }
}

/// The distance from a point inside a rectangle to the rectangle is zero.
pub proof fn lemma_dist_zero_inside<S: Scalar, const DIM: usize>(r: Rect<S, DIM>, p: [S; DIM])
    requires
        r.has_point(p),
    ensures
        r.spec_dist(p) == S::spec_zero(),
{
    lemma_dist_upto_inside(r.0@, p@, DIM as int);
}

proof fn lemma_dist_upto_inside<S: Scalar>(segs: Seq<(S, S)>, p: Seq<S>, n: int)
    requires
        n <= segs.len(),
        n <= p.len(),
        forall|i: int| 0 <= i < n ==> (#[trigger] segs[i]).0.le(p[i]) && p[i].le(segs[i].1),
    ensures
        dist_upto(segs, p, n) == S::spec_zero(),
    decreases n,
{
    if n > 0 {
        lemma_dist_upto_inside(segs, p, n - 1);
        assert(segs[n - 1].0.le(p[n - 1]) && p[n - 1].le(segs[n - 1].1));
        S::zero_plus_zero_square();
    }
}

pub proof fn lemma_empty_rect<S: Scalar, const DIM: usize>(r: Rect<S, DIM>, p: [S; DIM])
    requires
        r.is_empty_rect(),
    ensures
        r.valid(),
        r.has_point(p) <==> forall|i: int| 0 <= i < DIM ==> #[trigger] equiv(p[i], S::spec_zero()),
{
    S::le_reflexive(S::spec_zero());
    if r.has_point(p) {
        assert forall|i: int| 0 <= i < DIM implies #[trigger] equiv(p[i], S::spec_zero()) by {
            assert(r.0[i].0.le(p[i]) && p[i].le(r.0[i].1));
        }
    }
    if forall|i: int| 0 <= i < DIM ==> #[trigger] equiv(p[i], S::spec_zero()) {
        assert forall|i: int| 0 <= i < DIM implies (#[trigger] r.0[i]).0.le(p[i]) && p[i].le(r.0[i].1) by {
            assert(equiv(p[i], S::spec_zero()));
        }
    }
}

/// The squared euclidean distance between two points, as `points_distance` computes it.
pub open spec fn sq_dist<S: Scalar, const DIM: usize>(x: [S; DIM], y: [S; DIM]) -> S {
    sq_dist_upto(x@, y@, DIM as int)
}

proof fn lemma_point_key_upto<S: Scalar, const DIM: usize>(x: [S; DIM], p: [S; DIM], n: int)
    requires
        0 <= n <= DIM,
    ensures
        dist_upto(point_segments(x), p@, n) == sq_dist_upto(x@, p@, n),
    decreases n,
{
    if n > 0 {
        lemma_point_key_upto(x, p, n - 1);
        let i = n - 1;
        let a = x[i];
        let b = p[i];
        assert(point_segments(x)[i] == (a, a));
        assert(x@[i] == a && p@[i] == b);
        S::le_total(a, b);
        if a.le(b) && b.le(a) {
            S::square_difference_equal(a, b);
        } else if lt(a, b) {
            S::square_difference_symmetric(a, b);
        }
    }
}

/// The key by which the tree orders points is their squared distance.
pub broadcast proof fn lemma_point_key_is_distance<S: Scalar, const DIM: usize>(x: [S; DIM], p: [S; DIM])
    ensures
        #[trigger] point_key(x, p) == sq_dist(x, p),
{
    lemma_point_key_upto(x, p, DIM as int);
}

proof fn lemma_sq_dist_upto_facts<S: Scalar, const DIM: usize>(x: [S; DIM], y: [S; DIM], n: int)
    requires
        0 <= n <= DIM,
    ensures
        sq_dist_upto(x@, y@, n) == sq_dist_upto(y@, x@, n),
        sq_dist_upto(x@, x@, n) == S::spec_zero(),
        S::spec_zero().le(sq_dist_upto(x@, y@, n)),
    decreases n,
{
    if n == 0 {
        S::le_reflexive(S::spec_zero());
    } else {
        lemma_sq_dist_upto_facts(x, y, n - 1);
        let i = n - 1;
        S::square_difference_symmetric(x@[i], y@[i]);
        S::le_reflexive(x@[i]);
        S::square_difference_equal(x@[i], x@[i]);
        S::zero_plus_zero_square();
        let d = x@[i].spec_minus(y@[i]);
        S::square_least(d);
        S::plus_monotone(S::spec_zero(), S::spec_zero().spec_times(S::spec_zero()), sq_dist_upto(x@, y@, n - 1), d.spec_times(d));
    }
}

/// The squared distance is symmetric, zero from a point to itself, and never below zero.
pub proof fn lemma_sq_dist<S: Scalar, const DIM: usize>(x: [S; DIM], y: [S; DIM])
    ensures
        sq_dist(x, y) == sq_dist(y, x),
        sq_dist(x, x) == S::spec_zero(),
        S::spec_zero().le(sq_dist(x, y)),
{
    lemma_sq_dist_upto_facts(x, y, DIM as int);
}

proof fn lemma_order_facts<S: Scalar>(a: S, b: S, c: S)
    ensures
        a.le(b) && b.le(c) ==> a.le(c),
        a.le(c) && c.le(b) ==> a.le(b),
        b.le(a) && a.le(c) ==> b.le(c),
        b.le(c) && c.le(a) ==> b.le(a),
        c.le(a) && a.le(b) ==> c.le(b),
        c.le(b) && b.le(a) ==> c.le(a),
        a.le(b) || b.le(a),
        a.le(c) || c.le(a),
        b.le(c) || c.le(b),
{
    S::le_total(a, b);
    S::le_total(a, c);
    S::le_total(b, c);
    if a.le(b) && b.le(c) {
        S::le_transitive(a, b, c);
    }
    if a.le(c) && c.le(b) {
        S::le_transitive(a, c, b);
    }
    if b.le(a) && a.le(c) {
        S::le_transitive(b, a, c);
    }
    if b.le(c) && c.le(a) {
        S::le_transitive(b, c, a);
    }
    if c.le(a) && a.le(b) {
        S::le_transitive(c, a, b);
    }
    if c.le(b) && b.le(a) {
        S::le_transitive(c, b, a);
    }
}

/// `merge` is idempotent and associative, and commutative up to coordinates
/// that are equal in the coordinate order: swapping its arguments gives a
/// rectangle that encloses and is enclosed by the first.
pub proof fn lemma_merge_algebra<S: Scalar, const DIM: usize>(
    r1: Rect<S, DIM>,
    r2: Rect<S, DIM>,
    r3: Rect<S, DIM>,
    m11: Rect<S, DIM>,
    m12: Rect<S, DIM>,
    m21: Rect<S, DIM>,
    m12_3: Rect<S, DIM>,
    m23: Rect<S, DIM>,
    m1_23: Rect<S, DIM>,
)
    requires
        m11.is_merge_of(r1, r1),
        m12.is_merge_of(r1, r2),
        m21.is_merge_of(r2, r1),
        m12_3.is_merge_of(m12, r3),
        m23.is_merge_of(r2, r3),
        m1_23.is_merge_of(r1, m23),
    ensures
        m11 == r1,
        m12.encloses(m21) && m21.encloses(m12),
        m12_3 == m1_23,
{
    assert forall|i: int| 0 <= i < DIM implies #[trigger] m11.0[i] == r1.0[i] && m12_3.0[i] == m1_23.0[i] by {
        S::le_reflexive(r1.0[i].0);
        S::le_reflexive(r1.0[i].1);
        lemma_order_facts(r1.0[i].0, r2.0[i].0, r3.0[i].0);
        lemma_order_facts(r1.0[i].1, r2.0[i].1, r3.0[i].1);
    }
    assert(m11.0 =~= r1.0);
    assert(m12_3.0 =~= m1_23.0);
    assert forall|i: int| 0 <= i < DIM implies (#[trigger] m12.0[i]).0.le(m21.0[i].0) && m21.0[i].1.le(m12.0[i].1) && m21.0[i].0.le(m12.0[i].0) && m12.0[i].1.le(m21.0[i].1) by {
        S::le_reflexive(r1.0[i].0);
        S::le_reflexive(r1.0[i].1);
        S::le_reflexive(r2.0[i].0);
        S::le_reflexive(r2.0[i].1);
        lemma_order_facts(r1.0[i].0, r2.0[i].0, r2.0[i].0);
        lemma_order_facts(r1.0[i].1, r2.0[i].1, r2.0[i].1);
    }
    assert forall|i: int| 0 <= i < DIM implies (#[trigger] m21.0[i]).0.le(m12.0[i].0) && m12.0[i].1.le(m21.0[i].1) by {
        assert(m12.0[i].0.le(m21.0[i].0) && m21.0[i].1.le(m12.0[i].1) && m21.0[i].0.le(m12.0[i].0) && m12.0[i].1.le(m21.0[i].1));
    }
}

/// `(x[0] - y[0])^2 + ... + (x[n-1] - y[n-1])^2` in exact integer arithmetic.
pub open spec fn int_sq_sum(x: Seq<i64>, y: Seq<i64>, n: int) -> int
    decreases n,
{
    if n <= 0 {
        0
    } else {
        int_sq_sum(x, y, n - 1) + (x[n - 1] - y[n - 1]) * (x[n - 1] - y[n - 1])
    }
}

proof fn lemma_int_sq_sum_grows(x: Seq<i64>, y: Seq<i64>, k: int, n: int)
    requires
        0 <= k <= n,
    ensures
        0 <= int_sq_sum(x, y, k) <= int_sq_sum(x, y, n),
    decreases n,
{
    if n > 0 {
        let d = x[n - 1] - y[n - 1];
        assert(d * d >= 0) by (nonlinear_arith);
        if k < n {
            lemma_int_sq_sum_grows(x, y, k, n - 1);
        } else {
            lemma_int_sq_sum_grows(x, y, n - 1, n - 1);
        }
    }
}

proof fn lemma_sq_dist_upto_i64(x: Seq<i64>, y: Seq<i64>, n: int, total: int)
    requires
        0 <= n <= x.len(),
        n <= y.len(),
        forall|i: int| 0 <= i < n ==> -0x7fff_ffff <= #[trigger] x[i] - y[i] <= 0x7fff_ffff,
        int_sq_sum(x, y, n) <= total <= i64::MAX,
    ensures
        sq_dist_upto(x, y, n) as int == int_sq_sum(x, y, n),
    decreases n,
{
    if n > 0 {
        lemma_int_sq_sum_grows(x, y, n - 1, n);
        lemma_sq_dist_upto_i64(x, y, n - 1, total);
        let e: int = x[n - 1] - y[n - 1];
        assert(-0x7fff_ffff <= e <= 0x7fff_ffff);
        let d = x[n - 1].spec_minus(y[n - 1]);
        assert(d as int == e);
        assert(0 <= e * e <= 0x3fff_ffff_0000_0001) by (nonlinear_arith)
            requires
                -0x7fff_ffff <= e <= 0x7fff_ffff,
        ;
        assert(d.spec_times(d) as int == e * e);
    }
}

/// With integer coordinates, the squared distance between two points is the
/// sum over every axis of the square of the difference of their coordinates,
/// wherever that sum and each difference fit the integer type.
pub proof fn lemma_sq_dist_i64<const DIM: usize>(x: [i64; DIM], y: [i64; DIM])
    requires
        forall|i: int| 0 <= i < DIM ==> -0x7fff_ffff <= #[trigger] x[i] - y[i] <= 0x7fff_ffff,
        int_sq_sum(x@, y@, DIM as int) <= i64::MAX,
    ensures
        sq_dist(x, y) as int == int_sq_sum(x@, y@, DIM as int),
{
    lemma_sq_dist_upto_i64(x@, y@, DIM as int, int_sq_sum(x@, y@, DIM as int));
}

proof fn lemma_sq_dist_upto_zero_i64(x: Seq<i64>, y: Seq<i64>, n: int)
    requires
        0 <= n <= x.len(),
        n <= y.len(),
    ensures
        sq_dist_upto(x, y, n) >= 0,
        (sq_dist_upto(x, y, n) == 0) == (forall|j: int| 0 <= j < n ==> #[trigger] x[j] == y[j]),
    decreases n,
{
    if n > 0 {
        lemma_sq_dist_upto_zero_i64(x, y, n - 1);
        let d = x[n - 1].spec_minus(y[n - 1]);
        let di: int = d as int;
        assert(di * di >= 0) by (nonlinear_arith);
        assert(di * di == 0 ==> di == 0) by (nonlinear_arith);
        assert((d == 0) == (x[n - 1] == y[n - 1]));
        if sq_dist_upto(x, y, n) == 0 {
            assert forall|j: int| 0 <= j < n implies #[trigger] x[j] == y[j] by {
                if j < n - 1 {
                    assert(sq_dist_upto(x, y, n - 1) == 0);
                }
            }
        }
        if forall|j: int| 0 <= j < n ==> #[trigger] x[j] == y[j] {
            assert(x[n - 1] == y[n - 1]);
            assert forall|j: int| 0 <= j < n - 1 implies #[trigger] x[j] == y[j] by {
                assert(x[j] == y[j]);
            }
        }
    }
}

/// With integer coordinates, the squared distance between two points is
/// never negative, and zero exactly when they agree on every axis.
pub proof fn lemma_sq_dist_zero_iff_equal_i64<const DIM: usize>(x: [i64; DIM], y: [i64; DIM])
    ensures
        sq_dist(x, y) >= 0,
        (sq_dist(x, y) == 0) == (forall|i: int| 0 <= i < DIM ==> #[trigger] x[i] == y[i]),
{
    lemma_sq_dist_upto_zero_i64(x@, y@, DIM as int);
}

/// How far `x` lies outside the interval `[lo, hi]`, in exact integers.
pub open spec fn int_gap(s: (i64, i64), x: i64) -> int {
    if x < s.0 {
        s.0 - x
    } else if x > s.1 {
        x - s.1
    } else {
        0
    }
}

/// The squares of the gaps of `p[0]`, ..., `p[n-1]` to the intervals `segs`, added up in exact integers.
pub open spec fn int_gap_sum(segs: Seq<(i64, i64)>, p: Seq<i64>, n: int) -> int
    decreases n,
{
    if n <= 0 {
        0
    } else {
        int_gap_sum(segs, p, n - 1) + int_gap(segs[n - 1], p[n - 1]) * int_gap(segs[n - 1], p[n - 1])
    }
}

proof fn lemma_int_gap_sum_grows(segs: Seq<(i64, i64)>, p: Seq<i64>, k: int, n: int)
    requires
        0 <= k <= n,
    ensures
        0 <= int_gap_sum(segs, p, k) <= int_gap_sum(segs, p, n),
    decreases n,
{
    if n > 0 {
        let g = int_gap(segs[n - 1], p[n - 1]);
        assert(g * g >= 0) by (nonlinear_arith);
        if k < n {
            lemma_int_gap_sum_grows(segs, p, k, n - 1);
        } else {
            lemma_int_gap_sum_grows(segs, p, n - 1, n - 1);
        }
    }
}

proof fn lemma_dist_upto_i64(segs: Seq<(i64, i64)>, p: Seq<i64>, n: int, total: int)
    requires
        0 <= n <= segs.len(),
        n <= p.len(),
        forall|i: int| 0 <= i < n ==> (#[trigger] segs[i]).0 <= segs[i].1,
        forall|i: int| 0 <= i < n ==> #[trigger] int_gap(segs[i], p[i]) <= 0x7fff_ffff,
        int_gap_sum(segs, p, n) <= total <= i64::MAX,
    ensures
        dist_upto(segs, p, n) as int == int_gap_sum(segs, p, n),
    decreases n,
{
    if n > 0 {
        lemma_int_gap_sum_grows(segs, p, n - 1, n);
        lemma_dist_upto_i64(segs, p, n - 1, total);
        let g: int = int_gap(segs[n - 1], p[n - 1]);
        assert(segs[n - 1].0 <= segs[n - 1].1);
        assert(0 <= g <= 0x7fff_ffff);
        let d = segment_dist(segs[n - 1], p[n - 1]);
        assert(d as int == g);
        assert(0 <= g * g <= 0x3fff_ffff_0000_0001) by (nonlinear_arith)
            requires
                0 <= g <= 0x7fff_ffff,
        ;
        assert(d.spec_times(d) as int == g * g);
    }
}

/// With integer coordinates, the squared distance from `p` to a valid
/// rectangle is the sum over every axis of the square of the gap between
/// `p` and the rectangle's interval (zero inside it), wherever that sum and
/// each gap fit the integer type.
pub proof fn lemma_dist_i64<const DIM: usize>(r: Rect<i64, DIM>, p: [i64; DIM])
    requires
        r.valid(),
        forall|i: int| 0 <= i < DIM ==> #[trigger] int_gap(r.0[i], p[i]) <= 0x7fff_ffff,
        int_gap_sum(r.0@, p@, DIM as int) <= i64::MAX,
    ensures
        r.spec_dist(p) as int == int_gap_sum(r.0@, p@, DIM as int),
{
    assert forall|i: int| 0 <= i < DIM implies (#[trigger] r.0@[i]).0 <= r.0@[i].1 by {
        assert(r.0[i].0.le(r.0[i].1));
    }
    assert forall|i: int| 0 <= i < DIM implies #[trigger] int_gap(r.0@[i], p@[i]) <= 0x7fff_ffff by {
        assert(int_gap(r.0[i], p[i]) <= 0x7fff_ffff);
    }
    lemma_dist_upto_i64(r.0@, p@, DIM as int, int_gap_sum(r.0@, p@, DIM as int));
}

proof fn lemma_dist_upto_zero_i64(segs: Seq<(i64, i64)>, p: Seq<i64>, n: int)
    requires
        0 <= n <= segs.len(),
        n <= p.len(),
        forall|i: int| 0 <= i < n ==> (#[trigger] segs[i]).0 <= segs[i].1,
    ensures
        dist_upto(segs, p, n) >= 0,
        (dist_upto(segs, p, n) == 0) == (forall|j: int| 0 <= j < n ==> (#[trigger] segs[j]).0 <= p[j] && p[j] <= segs[j].1),
    decreases n,
{
    if n > 0 {
        lemma_dist_upto_zero_i64(segs, p, n - 1);
        assert(segs[n - 1].0 <= segs[n - 1].1);
        let d = segment_dist(segs[n - 1], p[n - 1]);
        let di: int = d as int;
        assert(di >= 0);
        assert(di * di >= 0) by (nonlinear_arith);
        assert(di * di == 0 ==> di == 0) by (nonlinear_arith);
        assert((d == 0) == (segs[n - 1].0 <= p[n - 1] && p[n - 1] <= segs[n - 1].1));
        let t = d.spec_times(d);
        let acc = dist_upto(segs, p, n - 1);
        assert(t == saturate(di * di));
        assert(t >= 0);
        if t == 0 {
            assert(di * di == 0);
            assert(d == 0);
        }
        if d == 0 {
            assert(di * di == 0) by (nonlinear_arith)
                requires
                    di == 0,
            ;
        }
        assert(dist_upto(segs, p, n) == saturate(acc + t));
        assert((dist_upto(segs, p, n) == 0) == (acc == 0 && t == 0));
        if dist_upto(segs, p, n) == 0 {
            assert forall|j: int| 0 <= j < n implies (#[trigger] segs[j]).0 <= p[j] && p[j] <= segs[j].1 by {
                if j < n - 1 {
                    assert(dist_upto(segs, p, n - 1) == 0);
                }
            }
        }
        if forall|j: int| 0 <= j < n ==> (#[trigger] segs[j]).0 <= p[j] && p[j] <= segs[j].1 {
            assert(segs[n - 1].0 <= p[n - 1] && p[n - 1] <= segs[n - 1].1);
            assert forall|j: int| 0 <= j < n - 1 implies (#[trigger] segs[j]).0 <= p[j] && p[j] <= segs[j].1 by {
                assert(segs[j].0 <= p[j] && p[j] <= segs[j].1);
            }
        }
    }
}

/// With integer coordinates, the squared distance from `p` to a valid
/// rectangle is never negative, and zero exactly when `p` lies inside it.
pub proof fn lemma_dist_zero_iff_inside_i64<const DIM: usize>(r: Rect<i64, DIM>, p: [i64; DIM])
    requires
        r.valid(),
    ensures
        r.spec_dist(p) >= 0,
        (r.spec_dist(p) == 0) == r.has_point(p),
{
    assert forall|i: int| 0 <= i < DIM implies (#[trigger] r.0@[i]).0 <= r.0@[i].1 by {
        assert(r.0[i].0.le(r.0[i].1));
    }
    lemma_dist_upto_zero_i64(r.0@, p@, DIM as int);
    if r.spec_dist(p) == 0 {
        assert forall|i: int| 0 <= i < DIM implies (#[trigger] r.0[i]).0.le(p[i]) && p[i].le(r.0[i].1) by {
            assert(r.0@[i].0 <= p@[i] && p@[i] <= r.0@[i].1);
        }
    }
    if r.has_point(p) {
        assert forall|j: int| 0 <= j < DIM implies (#[trigger] r.0@[j]).0 <= p@[j] && p@[j] <= r.0@[j].1 by {
            assert(r.0[j].0.le(p[j]) && p[j].le(r.0[j].1));
        }
    }
}

/// The interval lengths `hi - lo` of the first `n` axes, added up in exact integers.
pub open spec fn int_length_sum(segs: Seq<(i64, i64)>, n: int) -> int
    decreases n,
{
    if n <= 0 {
        0
    } else {
        int_length_sum(segs, n - 1) + (segs[n - 1].1 - segs[n - 1].0)
    }
}

/// The interval lengths `hi - lo` of the first `n` axes, multiplied in exact integers.
pub open spec fn int_length_product(segs: Seq<(i64, i64)>, n: int) -> int
    decreases n,
{
    if n <= 0 {
        1
    } else {
        int_length_product(segs, n - 1) * (segs[n - 1].1 - segs[n - 1].0)
    }
}

proof fn lemma_margin_upto_i64(segs: Seq<(i64, i64)>, n: int, total: int)
    requires
        0 <= n <= segs.len(),
        forall|i: int| 0 <= i < n ==> 0 <= (#[trigger] segs[i]).1 - segs[i].0 <= i64::MAX,
        int_length_sum(segs, n) <= total <= i64::MAX,
    ensures
        margin_upto(segs, n) as int == int_length_sum(segs, n),
        0 <= int_length_sum(segs, n),
    decreases n,
{
    if n > 0 {
        assert(0 <= segs[n - 1].1 - segs[n - 1].0);
        lemma_margin_upto_i64(segs, n - 1, total);
    }
}

/// With integer coordinates, the margin of a valid rectangle is the sum of
/// its interval lengths over every axis, wherever that sum fits the integer type.
pub proof fn lemma_margin_i64<const DIM: usize>(r: Rect<i64, DIM>)
    requires
        r.valid(),
        forall|i: int| 0 <= i < DIM ==> #[trigger] r.0[i].1 - r.0[i].0 <= i64::MAX,
        int_length_sum(r.0@, DIM as int) <= i64::MAX,
    ensures
        r.spec_margin() as int == int_length_sum(r.0@, DIM as int),
{
    assert forall|i: int| 0 <= i < DIM implies 0 <= (#[trigger] r.0@[i]).1 - r.0@[i].0 <= i64::MAX by {
        assert(r.0[i].0.le(r.0[i].1));
        assert(r.0[i].1 - r.0[i].0 <= i64::MAX);
    }
    lemma_margin_upto_i64(r.0@, DIM as int, int_length_sum(r.0@, DIM as int));
}

proof fn lemma_volume_upto_i64(segs: Seq<(i64, i64)>, n: int)
    requires
        0 <= n <= segs.len(),
        forall|i: int| 0 <= i < n ==> 0 <= (#[trigger] segs[i]).1 - segs[i].0 <= i64::MAX,
        forall|k: int| 0 <= k <= n ==> #[trigger] int_length_product(segs, k) <= i64::MAX,
    ensures
        volume_upto(segs, n) as int == int_length_product(segs, n),
        0 <= int_length_product(segs, n),
    decreases n,
{
    if n > 0 {
        assert(int_length_product(segs, n - 1) <= i64::MAX);
        assert(int_length_product(segs, n) <= i64::MAX);
        lemma_volume_upto_i64(segs, n - 1);
        let a = int_length_product(segs, n - 1);
        let b = segs[n - 1].1 - segs[n - 1].0;
        assert(0 <= b);
        assert(0 <= a * b) by (nonlinear_arith)
            requires
                0 <= a,
                0 <= b,
        ;
    }
}

/// With integer coordinates, the volume of a valid rectangle is the product
/// of its interval lengths over every axis, wherever each partial product
/// fits the integer type.
pub proof fn lemma_volume_i64<const DIM: usize>(r: Rect<i64, DIM>)
    requires
        r.valid(),
        forall|i: int| 0 <= i < DIM ==> #[trigger] r.0[i].1 - r.0[i].0 <= i64::MAX,
        forall|k: int| 0 <= k <= DIM ==> #[trigger] int_length_product(r.0@, k) <= i64::MAX,
    ensures
        r.spec_volume() as int == int_length_product(r.0@, DIM as int),
{
    assert forall|i: int| 0 <= i < DIM implies 0 <= (#[trigger] r.0@[i]).1 - r.0@[i].0 <= i64::MAX by {
        assert(r.0[i].0.le(r.0[i].1));
        assert(r.0[i].1 - r.0[i].0 <= i64::MAX);
    }
    lemma_volume_upto_i64(r.0@, DIM as int);
}

} // verus!
