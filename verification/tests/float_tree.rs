use num_traits::FromPrimitive;
use num_traits::Zero;
use ordered_float::NotNan;
use rtree::{RTree, Rect, Scalar};

/// Double-precision coordinates that are never NaN.
#[derive(Clone, Copy, Debug, PartialEq)]
struct F(NotNan<f64>);

fn f(x: f64) -> F {
    F(NotNan::new(x).unwrap())
}

impl Scalar for F {
    fn le(self, other: Self) -> bool {
        self.0 <= other.0
    }
    fn spec_zero() -> Self {
        F(NotNan::zero())
    }
    fn spec_one() -> Self {
        f(1.)
    }
    fn spec_infinity() -> Self {
        f(f64::INFINITY)
    }
    fn spec_plus(self, other: Self) -> Self {
        F(self.0 + other.0)
    }
    fn spec_minus(self, other: Self) -> Self {
        F(self.0 - other.0)
    }
    fn spec_times(self, other: Self) -> Self {
        F(self.0 * other.0)
    }
    fn le_reflexive(_a: Self) {}
    fn le_transitive(_a: Self, _b: Self, _c: Self) {}
    fn le_total(_a: Self, _b: Self) {}
    fn infinity_greatest(_a: Self) {}
    fn square_difference_symmetric(_a: Self, _b: Self) {}
    fn square_difference_equal(_a: Self, _b: Self) {}
    fn times_zero(_a: Self) {}
    fn minus_self(_a: Self) {}
    fn times_equiv(_a: Self, _b: Self, _c: Self, _d: Self) {}
    fn zero_plus_zero_square() {}
    fn plus_monotone(_a: Self, _b: Self, _c: Self, _d: Self) {}
    fn minus_monotone(_a: Self, _b: Self, _c: Self, _d: Self) {}
    fn minus_nonnegative(_a: Self, _b: Self) {}
    fn square_monotone(_a: Self, _b: Self) {}
    fn square_least(_a: Self) {}
    fn zero() -> Self {
        Self::spec_zero()
    }
    fn one() -> Self {
        Self::spec_one()
    }
    fn infinity() -> Self {
        Self::spec_infinity()
    }
    fn is_le(&self, other: &Self) -> bool {
        self.le(*other)
    }
    fn plus(&self, other: &Self) -> Self {
        self.spec_plus(*other)
    }
    fn minus(&self, other: &Self) -> Self {
        self.spec_minus(*other)
    }
    fn times(&self, other: &Self) -> Self {
        self.spec_times(*other)
    }
}

fn point(p: [f64; 2]) -> [F; 2] {
    [f(p[0]), f(p[1])]
}

#[test]
fn dist_from_point() {
    let p = [5., 3.];

    let r1 = Rect([
        (
            F(NotNan::from_f64(0.).unwrap()),
            F(NotNan::from_f64(3.).unwrap()),
        ),
        (
            F(NotNan::from_f64(1.).unwrap()),
            F(NotNan::from_f64(2.).unwrap()),
        ),
    ]);

    println!("{}", r1.dist_from_point(&point(p)).0);
    assert!((r1.dist_from_point(&point(p)).0.into_inner() - 5.) < 1e-15);
}

#[test]
fn it_works() {
    for i in 1..100 {
        let mut t = RTree::<F, i32, 16, 2>::default();

        let p = [0.7, 1e-2];
        let mut min_d = f64::INFINITY;
        let mut best = 0;

        for _ in 0..=(1000 * i) {
            let x = (rand::random::<f64>()) as f64;
            let y = (rand::random::<f64>()) as f64;

            let value = rand::random::<i32>();
            t.insert(&point([x, y]), value);
            let d = ((x - p[0]) * (x - p[0]) + (y - p[1]) * (y - p[1])).sqrt();
            if d < min_d {
                min_d = d;
                best = value;
            }
        }
        let t0 = std::time::Instant::now();
        let (x, dd, best_rtree) = t.closest(&point(p));
        let t1 = std::time::Instant::now();
        let delta = t1 - t0;
        println!("time for search: {delta:?} ({t0:?} - {t1:?})");
        println!("actual: {min_d} {best:?}");
        println!("found:  {} {}", dd.0.into_inner().sqrt(), best_rtree);
        println!("coordinates: {x:?}");
        assert!((dd.0.into_inner().sqrt() - min_d) < 1e-10);
    }
}

#[test]
fn float_margin_and_volume() {
    let r = Rect([(f(0.), f(3.)), (f(1.), f(2.))]);
    assert_eq!(r.volume(), f(3.));
    // (3 - 0) + (2 - 1)
    assert_eq!(r.margin(), f(4.));
    // the margin depends only on the edge lengths
    assert_eq!(Rect::from_point(&[f(3.), f(4.)]).margin(), f(0.));
    let shifted = Rect([(f(5.), f(8.)), (f(6.), f(7.))]);
    assert_eq!(shifted.margin(), r.margin());
}

#[test]
fn float_k_closest() {
    let mut t = RTree::<F, &'static str, 4, 2>::default();
    let pts = [
        ([0.5, 0.5], "a"),
        ([2.0, 2.0], "b"),
        ([-1.0, 0.25], "c"),
        ([0.0, 3.0], "d"),
        ([5.0, -5.0], "e"),
        ([0.75, 0.0], "f"),
    ];
    for (p, v) in pts.iter() {
        t.insert(&point(*p), *v);
    }
    let res = t.k_closest(&point([0.6, 0.4]), 3);
    let names: Vec<&str> = res.iter().map(|r| *r.2).collect();
    assert_eq!(names, vec!["a", "f", "c"]);
    assert!((res[0].1 .0.into_inner() - 0.02).abs() < 1e-12);
}
