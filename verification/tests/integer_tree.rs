use rtree::{points_distance, RTree, Rect, Scalar, WeightedTree};

fn sq(p: &[i64; 2], q: &[i64; 2]) -> i64 {
    (p[0] - q[0]) * (p[0] - q[0]) + (p[1] - q[1]) * (p[1] - q[1])
}

fn count_entries<const M: usize, const DIM: usize>(t: &RTree<i64, u32, M, DIM>) -> usize {
    match t {
        RTree::Leaf(_, _) => 1,
        RTree::LeafNode(_, v) | RTree::InternalNode(_, v) => {
            v.iter().flatten().map(|c| count_entries(c)).sum()
        }
    }
}

fn pseudo_random_points(n: usize) -> Vec<[i64; 2]> {
    let mut state: u64 = 0x2545_f491_4f6c_dd1d;
    let mut out = Vec::new();
    for _ in 0..n {
        state ^= state << 13;
        state ^= state >> 7;
        state ^= state << 17;
        let x = (state % 2001) as i64 - 1000;
        let y = ((state >> 20) % 2001) as i64 - 1000;
        out.push([x, y]);
    }
    out
}

#[test]
fn saturating_arithmetic() {
    assert_eq!(i64::MAX.plus(&1), i64::MAX);
    assert_eq!(i64::MIN.minus(&1), i64::MIN);
    assert_eq!(3i64.times(&-4), -12);
    assert_eq!(i64::MAX.times(&2), i64::MAX);
    assert_eq!((-7i64).plus(&3), -4);
    assert!(2i64.is_le(&2));
    assert!(!3i64.is_le(&2));
    assert_eq!(i64::zero(), 0);
    assert_eq!(i64::one(), 1);
    assert_eq!(i64::infinity(), i64::MAX);
}

#[test]
fn rect_empty_and_point() {
    let e: Rect<i64, 3> = Rect::empty_rect();
    assert_eq!(e.0, [(0, 0); 3]);
    assert!(e.contains(&[0, 0, 0]));
    assert!(!e.contains(&[0, 1, 0]));
    let r = Rect::from_point(&[4i64, -2, 7]);
    assert_eq!(r.0, [(4, 4), (-2, -2), (7, 7)]);
    assert!(r.contains(&[4, -2, 7]));
    assert!(!r.contains(&[4, -2, 8]));
}

#[test]
fn rect_merge_encloses_both() {
    let a = Rect([(0i64, 3), (1, 2)]);
    let b = Rect([(-1i64, 1), (5, 9)]);
    let m = Rect::merge(&a, &b);
    assert_eq!(m.0, [(-1, 3), (1, 9)]);
    assert_eq!(Rect::merge(&b, &a).0, m.0);
    for p in [[0i64, 1], [3, 2], [-1, 5], [1, 9]] {
        assert!(m.contains(&p));
    }
    assert!(!m.contains(&[4, 4]));
}

#[test]
fn rect_contains_bounds() {
    let r = Rect([(0i64, 3), (1, 2)]);
    assert!(r.contains(&[0, 1]));
    assert!(r.contains(&[3, 2]));
    assert!(r.contains(&[2, 1]));
    assert!(!r.contains(&[-1, 1]));
    assert!(!r.contains(&[2, 3]));
}

#[test]
fn rect_volume_and_margin() {
    let r = Rect([(0i64, 3), (1, 2)]);
    assert_eq!(r.volume(), 3);
    let r3 = Rect([(1i64, 4), (2, 7), (0, 2)]);
    assert_eq!(r3.volume(), 30);
    let e: Rect<i64, 0> = Rect([]);
    assert_eq!(e.volume(), 1);
    assert_eq!(e.margin(), 0);
    // (3 - 0) + (2 - 1)
    assert_eq!(r.margin(), 4);
    assert_eq!(Rect([(5i64, 8), (6, 7)]).margin(), 4);
    let p = Rect::from_point(&[6i64, 8]);
    assert_eq!(p.volume(), 0);
    assert_eq!(p.margin(), 0);
}

#[test]
fn rect_intersection() {
    let a = Rect([(0i64, 4), (0, 4)]);
    let b = Rect([(2i64, 6), (1, 3)]);
    assert_eq!(a.inter(&b).0, [(2, 4), (1, 3)]);
    assert_eq!(a.inter(&b).volume(), 4);
    // disjoint on the first axis: a degenerate interval at the greater lower end
    let c = Rect([(5i64, 6), (-1, 2)]);
    assert_eq!(a.inter(&c).0, [(5, 5), (0, 2)]);
    assert_eq!(a.inter(&c).volume(), 0);
}

#[test]
fn rect_dist_from_point() {
    let r = Rect([(0i64, 3), (1, 2)]);
    assert_eq!(r.dist_from_point(&[5, 3]), 5);
    assert_eq!(r.dist_from_point(&[1, 1]), 0);
    assert_eq!(r.dist_from_point(&[-2, 0]), 5);
    assert_eq!(r.dist_from_point(&[2, 10]), 64);
}

#[test]
fn distance_between_points() {
    assert_eq!(points_distance(&[1i64, 2], &[4, 6]), 25);
    assert_eq!(points_distance(&[1i64, 2, 3], &[1, 2, 3]), 0);
    assert_eq!(points_distance::<i64, 0>(&[], &[]), 0);
}

#[test]
fn slots_taken() {
    let v: Vec<Option<u8>> = vec![None, None, None];
    assert_eq!(RTree::<i64, u8, 3, 2>::n_taken(&v), 0);
    let v = vec![Some(1u8), None, None];
    assert_eq!(RTree::<i64, u8, 3, 2>::n_taken(&v), 1);
    let v = vec![Some(1u8), Some(2), Some(3)];
    assert_eq!(RTree::<i64, u8, 3, 2>::n_taken(&v), 3);
    let v = vec![Some(1u8), Some(2), Some(3), Some(4), None, None, None, None];
    assert_eq!(RTree::<i64, u8, 8, 2>::n_taken(&v), 4);
    let v = vec![Some(1u8)];
    assert_eq!(RTree::<i64, u8, 1, 2>::n_taken(&v), 1);
}

#[test]
fn empty_tree() {
    let t = RTree::<i64, u32, 4, 2>::default();
    assert!(!t.is_leaf());
    assert!(!t.is_internal_node());
    assert_eq!(count_entries(&t), 0);
    assert_eq!(t.get_rect().0, [(0, 0), (0, 0)]);
    assert!(t.k_closest(&[1, 1], 3).is_empty());
}

#[test]
fn leaf_and_node_kinds() {
    let t = RTree::<i64, u32, 4, 2>::Leaf([1, 2], std::rc::Rc::new(7));
    assert!(t.is_leaf());
    assert!(!t.is_internal_node());
    assert_eq!(t.get_rect().0, [(1, 1), (2, 2)]);
}

#[test]
fn single_insert_then_closest() {
    let mut t = RTree::<i64, u32, 4, 2>::default();
    t.insert(&[3, 4], 11);
    assert_eq!(count_entries(&t), 1);
    // the root's rectangle still holds the origin
    assert_eq!(t.get_rect().0, [(0, 3), (0, 4)]);
    let (x, d, v) = t.closest(&[0, 0]);
    assert_eq!(x, [3, 4]);
    assert_eq!(d, 25);
    assert_eq!(*v, 11);
}

#[test]
fn root_splits_after_m_plus_one_points() {
    let mut t = RTree::<i64, u32, 4, 2>::default();
    for i in 0..4 {
        t.insert(&[i, i], i as u32);
        assert!(!t.is_internal_node());
    }
    t.insert(&[10, 10], 10);
    assert!(t.is_internal_node());
    assert_eq!(count_entries(&t), 5);
}

#[test]
fn closest_matches_brute_force() {
    let pts = pseudo_random_points(500);
    let mut t = RTree::<i64, u32, 6, 2>::default();
    for (i, p) in pts.iter().enumerate() {
        t.insert(p, i as u32);
        assert_eq!(count_entries(&t), i + 1);
    }
    for q in pseudo_random_points(50).iter().map(|p| [p[1], p[0]]) {
        let best = pts.iter().map(|p| sq(p, &q)).min().unwrap();
        let (x, d, v) = t.closest(&q);
        assert_eq!(d, best);
        assert_eq!(sq(&x, &q), best);
        assert_eq!(pts[*v as usize], x);
    }
}

#[test]
fn inserted_point_is_found_at_distance_zero() {
    let pts = pseudo_random_points(200);
    let mut t = RTree::<i64, u32, 5, 2>::default();
    for (i, p) in pts.iter().enumerate() {
        t.insert(p, i as u32);
        let (x, d, _) = t.closest(p);
        assert_eq!(d, 0);
        assert_eq!(x, *p);
    }
}

#[test]
fn k_closest_sorted_and_complete() {
    let pts = pseudo_random_points(300);
    let mut t = RTree::<i64, u32, 8, 2>::default();
    for (i, p) in pts.iter().enumerate() {
        t.insert(p, i as u32);
    }
    let q = [17, -250];
    let mut all: Vec<i64> = pts.iter().map(|p| sq(p, &q)).collect();
    all.sort();
    let res = t.k_closest(&q, 10);
    assert_eq!(res.len(), 10);
    let ds: Vec<i64> = res.iter().map(|r| r.1).collect();
    assert_eq!(ds, all[..10].to_vec());
    for r in &res {
        assert_eq!(pts[*r.2 as usize], r.0);
    }
    let every = t.k_closest(&q, 1000);
    assert_eq!(every.len(), 300);
    let ds: Vec<i64> = every.iter().map(|r| r.1).collect();
    assert_eq!(ds, all);
    let mut seen: Vec<u32> = every.iter().map(|r| *r.2).collect();
    seen.sort();
    assert_eq!(seen, (0..300).collect::<Vec<u32>>());
    assert!(t.k_closest(&q, 0).is_empty());
}

#[test]
fn closest_agrees_with_first_of_k_closest() {
    let pts = pseudo_random_points(120);
    let mut t = RTree::<i64, u32, 3, 2>::default();
    for (i, p) in pts.iter().enumerate() {
        t.insert(p, i as u32);
    }
    for q in [[0i64, 0], [999, -999], [-500, 20]] {
        let (_, d, _) = t.closest(&q);
        let first = &t.k_closest(&q, 1)[0];
        assert_eq!(first.1, d);
    }
}

#[test]
fn three_dimensional_tree() {
    let mut t = RTree::<i64, u32, 4, 3>::default();
    let mut pts = Vec::new();
    for i in 0..60i64 {
        let p = [i * 7 % 23, i * 5 % 17, i * 3 % 11];
        pts.push(p);
        t.insert(&p, i as u32);
    }
    let q = [10i64, 3, 9];
    let best = pts.iter().map(|p| points_distance(p, &q)).min().unwrap();
    let (_, d, _) = t.closest(&q);
    assert_eq!(d, best);
}

#[test]
fn single_slot_tree_takes_one_point() {
    let mut t = RTree::<i64, u32, 1, 0>::default();
    t.insert(&[], 5);
    let (x, d, v) = t.closest(&[]);
    assert_eq!(x, [] as [i64; 0]);
    assert_eq!(d, 0);
    assert_eq!(*v, 5);
}

#[test]
fn distance_to_enclosing_rect_is_smaller() {
    let inner = Rect([(2i64, 3), (-1, 4)]);
    let outer = Rect([(0i64, 5), (-3, 4)]);
    let x = [3i64, 0];
    for q in [[10i64, 10], [-7, 1], [2, -9], [4, 2]] {
        assert!(outer.dist_from_point(&q) <= inner.dist_from_point(&q));
        assert!(inner.dist_from_point(&q) <= points_distance(&x, &q));
    }
}

#[test]
fn every_entry_inside_root_rect() {
    let pts = pseudo_random_points(150);
    let mut t = RTree::<i64, u32, 4, 2>::default();
    for (i, p) in pts.iter().enumerate() {
        t.insert(p, i as u32);
    }
    let r = t.get_rect();
    for p in &pts {
        assert!(r.contains(p));
    }
}

#[test]
fn cloned_tree_answers_alike() {
    let pts = pseudo_random_points(80);
    let mut t = RTree::<i64, u32, 4, 2>::default();
    for (i, p) in pts.iter().enumerate() {
        t.insert(p, i as u32);
    }
    let c = t.clone();
    assert_eq!(count_entries(&c), 80);
    let q = [3i64, -44];
    let (x1, d1, v1) = t.closest(&q);
    let (x2, d2, v2) = c.clone().closest(&q);
    assert_eq!((x1, d1, *v1), (x2, d2, *v2));
    assert!(std::rc::Rc::ptr_eq(&v1, &v2));
}

/// The depth of every leaf, and whether every node below the root holds at
/// least `min_fill` children.
fn leaf_depths<const M: usize, const DIM: usize>(
    t: &RTree<i64, u32, M, DIM>,
    depth: usize,
    min_fill: usize,
    root: bool,
    out: &mut Vec<usize>,
) -> bool {
    match t {
        RTree::Leaf(_, _) => {
            out.push(depth);
            true
        }
        RTree::LeafNode(_, v) | RTree::InternalNode(_, v) => {
            let n = v.iter().flatten().count();
            let mut ok = root || n >= min_fill;
            for c in v.iter().flatten() {
                ok &= leaf_depths(c, depth + 1, min_fill, false, out);
            }
            ok
        }
    }
}

#[test]
fn insertions_keep_the_tree_balanced_and_filled() {
    let pts = pseudo_random_points(300);
    let mut t = RTree::<i64, u32, 5, 2>::default();
    for (i, p) in pts.iter().enumerate() {
        t.insert(p, i as u32);
        let mut depths = Vec::new();
        // max(1, 2 * 5 / 5) = 2
        assert!(leaf_depths(&t, 0, 2, true, &mut depths));
        assert!(depths.iter().all(|&d| d == depths[0]));
        if let RTree::InternalNode(_, v) = &t {
            assert!(v.iter().flatten().count() >= 2);
        }
    }
    let c = t.clone();
    let mut depths = Vec::new();
    assert!(leaf_depths(&c, 0, 2, true, &mut depths));
    assert_eq!(depths.len(), 300);
    assert!(depths.iter().all(|&d| d == depths[0]));
}

#[test]
fn split_halves_share_the_children() {
    let mut t = RTree::<i64, u32, 5, 2>::default();
    for i in 0..6 {
        t.insert(&[i * 10, 0], i as u32);
    }
    match &t {
        RTree::InternalNode(_, v) => {
            let halves: Vec<usize> = v
                .iter()
                .flatten()
                .map(|c| match c {
                    RTree::LeafNode(_, w) => w.iter().flatten().count(),
                    _ => panic!("a half is not a leaf node"),
                })
                .collect();
            assert_eq!(halves.len(), 2);
            assert_eq!(halves[0] + halves[1], 6);
            assert!(halves.iter().all(|&n| (2..=4).contains(&n)));
        }
        _ => panic!("the root did not split"),
    }
    assert_eq!(count_entries(&t), 6);
}

#[test]
fn fewer_nearest_entries_are_a_prefix() {
    let pts = pseudo_random_points(120);
    let mut t = RTree::<i64, u32, 4, 2>::default();
    for (i, p) in pts.iter().enumerate() {
        t.insert(p, i as u32);
    }
    let q = [17i64, -250];
    let b = t.k_closest(&q, 30);
    for k in [0usize, 1, 5, 29, 30] {
        let a = t.k_closest(&q, k);
        assert_eq!(a.len(), k);
        for i in 0..a.len() {
            assert_eq!(a[i].1, b[i].1);
        }
    }
    assert_eq!(t.k_closest(&q, 1)[0].1, t.closest(&q).1);
}

#[test]
fn queue_order_is_total_and_transitive() {
    let leaf = |x: i64| RTree::<i64, u32, 4, 2>::Leaf([x, x], std::rc::Rc::new(0));
    let (a, b) = (leaf(1), leaf(2));
    let mut big = RTree::<i64, u32, 4, 2>::default();
    big.insert(&[0, 0], 0);
    big.insert(&[4, 4], 1);
    let near = WeightedTree { key: 3, value: &a };
    let far = WeightedTree { key: 9, value: &b };
    let near_box = WeightedTree { key: 3, value: &big };
    // nearer first; as near: smaller volume first
    assert!(near.pops_before(&far) && !far.pops_before(&near));
    assert!(near.pops_before(&near_box) && !near_box.pops_before(&near));
    assert!(near_box.pops_before(&far));
    assert!(near.pops_before(&near));
}

#[test]
fn node_rects_in_pre_order() {
    let mut t = RTree::<i64, u32, 5, 2>::default();
    assert_eq!(t.node_rects(0), vec![(Rect([(0, 0), (0, 0)]), 0)]);
    for i in 0..6 {
        t.insert(&[i * 10, 0], i as u32);
    }
    let rs = t.node_rects(3);
    assert_eq!(rs.len(), 3);
    assert_eq!(rs[0], (t.get_rect(), 3));
    assert_eq!(rs[0].0, Rect([(0, 50), (0, 0)]));
    assert_eq!((rs[1].1, rs[2].1), (4, 4));
    let merged = Rect::merge(&rs[1].0, &rs[2].0);
    assert_eq!(merged, rs[0].0);
    assert_eq!(Rect::inter(&rs[1].0, &rs[2].0).volume(), 0);
}

#[test]
fn well_formedness_check() {
    let mut t = RTree::<i64, u32, 4, 2>::default();
    assert!(t.is_well_formed_root());
    for (i, p) in pseudo_random_points(40).iter().enumerate() {
        t.insert(p, i as u32);
        assert!(t.is_well_formed_root());
    }
    let leaf = RTree::<i64, u32, 4, 2>::Leaf([1, 1], std::rc::Rc::new(0));
    assert!(leaf.is_well_formed() && !leaf.is_well_formed_root());
    // a child outside the node's rectangle
    let bad = RTree::<i64, u32, 4, 2>::LeafNode(
        Rect([(0, 0), (0, 0)]),
        vec![Some(RTree::Leaf([5, 5], std::rc::Rc::new(1))), None, None, None],
    );
    assert!(!bad.is_well_formed());
    // a gap among the taken slots
    let gap = RTree::<i64, u32, 4, 2>::LeafNode(
        Rect([(0, 5), (0, 5)]),
        vec![None, Some(RTree::Leaf([5, 5], std::rc::Rc::new(1))), None, None],
    );
    assert!(!gap.is_well_formed());
    // too few slots
    let short = RTree::<i64, u32, 4, 2>::LeafNode(Rect([(0, 0), (0, 0)]), vec![None]);
    assert!(!short.is_well_formed());
    assert!(Rect([(0i64, 1), (2, 3)]).is_valid() && !Rect([(1i64, 0), (2, 3)]).is_valid());
    assert!(Rect([(0i64, 4), (0, 4)]).covers(&Rect([(1, 2), (0, 4)])));
    assert!(!Rect([(0i64, 4), (0, 4)]).covers(&Rect([(1, 5), (0, 4)])));
}

#[test]
fn split_follows_the_least_margin_axis() {
    let mut t = RTree::<i64, u32, 4, 2>::default();
    for (i, y) in [0i64, 40, 10, 30, 20].iter().enumerate() {
        t.insert(&[0, *y], i as u32);
    }
    match &t {
        RTree::InternalNode(_, v) => {
            let halves: Vec<Vec<[i64; 2]>> = v.iter().flatten().map(|c| c.points()).collect();
            assert_eq!(halves, vec![vec![[0, 0]], vec![[0, 10], [0, 20], [0, 30], [0, 40]]]);
        }
        _ => panic!("the root did not split"),
    }
    assert_eq!(t.get_rect(), Rect([(0, 0), (0, 40)]));
}

#[test]
fn insertion_widens_the_rectangle() {
    let mut t = RTree::<i64, u32, 4, 2>::default();
    t.insert(&[5, 5], 0);
    assert_eq!(t.get_rect(), Rect([(0, 5), (0, 5)]));
    t.insert(&[-2, 7], 1);
    assert_eq!(t.get_rect(), Rect([(-2, 5), (0, 7)]));
    let mut one = RTree::<i64, u32, 1, 2>::default();
    one.insert(&[5, 5], 0);
    assert_eq!(one.get_rect(), Rect([(5, 5), (5, 5)]));
}

#[test]
fn points_left_to_right() {
    let pts = pseudo_random_points(60);
    let mut t = RTree::<i64, u32, 4, 2>::default();
    for (i, p) in pts.iter().enumerate() {
        t.insert(p, i as u32);
    }
    let mut got = t.points();
    let mut want = pts.clone();
    got.sort();
    want.sort();
    assert_eq!(got, want);
    assert_eq!(RTree::<i64, u32, 4, 2>::default().points(), Vec::<[i64; 2]>::new());
}
