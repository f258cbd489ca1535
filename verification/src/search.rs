//! Best-first nearest-neighbour search: subtrees wait in a queue ordered by
//! their squared distance to the query point, nearest first.
use crate::rect::{
    lemma_dist_below_point_key, lemma_dist_monotone, lemma_encloses_reflexive,
    lemma_point_rect, point_segments, points_distance, sq_dist,
    sq_dist_upto, volume_upto, Rect,
};
use crate::rtree::{filled, lemma_filled_unique, share, RTree};
use crate::scalar::{equiv, lt, Scalar};
use std::rc::Rc;
use vstd::multiset::Multiset;
use vstd::prelude::*;

verus! {

broadcast use crate::rect::lemma_point_key_is_distance;


/// A subtree waiting in the search queue, with its squared distance to the query point.
pub struct WeightedTree<'a, S, T, const M: usize, const DIM: usize> {
    pub key: S,
    pub value: &'a RTree<S, T, M, DIM>,
}

/// The entries of the queued subtrees.
pub open spec fn queue_entries<'a, S: Scalar, T, const M: usize, const DIM: usize>(
    q: Seq<WeightedTree<'a, S, T, M, DIM>>,
) -> Multiset<([S; DIM], T)>
    decreases q.len(),
{
    if q.len() == 0 {
        Multiset::empty()
    } else {
        queue_entries(q.drop_last()).add(q.last().value.entries())
    }
}

/// The number of leaves and nodes in the queued subtrees.
pub open spec fn queue_size<'a, S: Scalar, T, const M: usize, const DIM: usize>(
    q: Seq<WeightedTree<'a, S, T, M, DIM>>,
) -> nat
    decreases q.len(),
{
    if q.len() == 0 {
        0
    } else {
        queue_size(q.drop_last()) + q.last().value.size()
    }
}

/// The volume of the rectangle of a subtree.
pub open spec fn subtree_volume<S: Scalar, T, const M: usize, const DIM: usize>(t: RTree<S, T, M, DIM>) -> S {
    match t {
        RTree::Leaf(x, _) => volume_upto(point_segments(x), DIM as int),
        _ => t.node_rect().spec_volume(),
    }
}

/// The volume of what `get_rect` returns is the subtree's volume.
pub proof fn lemma_subtree_volume<S: Scalar, T, const M: usize, const DIM: usize>(t: RTree<S, T, M, DIM>, r: Rect<S, DIM>)
    requires
        t.rect_is(r),
    ensures
        r.spec_volume() == subtree_volume(t),
{
    match t {
        RTree::Leaf(x, _) => {
            lemma_point_rect(r, x, x);
        },
        _ => {
        },
    }
}

impl<'a, S: Scalar, T, const M: usize, const DIM: usize> WeightedTree<'a, S, T, M, DIM> {
    /// The queued subtree is well formed and its key is its distance to `p`:
    /// the key of a leaf is the key of its point, the key of a node the
    /// distance to its rectangle, and no entry below is nearer than the key.
    pub open spec fn item_ok(self, p: [S; DIM]) -> bool {
        &&& self.value.wf()
        &&& self.value.is_node() ==> self.value.n_children() >= 1
        &&& match *self.value {
            RTree::Leaf(x, _) => self.key == sq_dist(x, p),
            _ => self.key == self.value.node_rect().spec_dist(p),
        }
        &&& forall|e: ([S; DIM], T)| #[trigger] self.value.entries().count(e) > 0 ==> self.key.le(sq_dist(e.0, p))
    }

    /// `self` leaves the queue before `other`: it is nearer, or as near and
    /// of no greater volume.
    pub open spec fn spec_pops_before(self, other: Self) -> bool {
        lt(self.key, other.key) || (equiv(self.key, other.key) && subtree_volume(*self.value).le(
            subtree_volume(*other.value),
        ))
    }

    pub fn pops_before(&self, other: &Self) -> (b: bool)
        ensures
            b == self.spec_pops_before(*other),
    {
        if !other.key.is_le(&self.key) {
            true
        } else if self.key.is_le(&other.key) {
            let ra = self.value.get_rect();
            let rb = other.value.get_rect();
            proof {
                lemma_subtree_volume(*self.value, ra);
                lemma_subtree_volume(*other.value, rb);
            }
            ra.volume().is_le(&rb.volume())
        } else {
            false
        }
    }
}

pub proof fn lemma_queue_push<'a, S: Scalar, T, const M: usize, const DIM: usize>(
    q: Seq<WeightedTree<'a, S, T, M, DIM>>,
    it: WeightedTree<'a, S, T, M, DIM>,
)
    ensures
        queue_entries(q.push(it)) == queue_entries(q).add(it.value.entries()),
        queue_size(q.push(it)) == queue_size(q) + it.value.size(),
{
    assert(q.push(it).drop_last() =~= q);
}

pub proof fn lemma_queue_remove<'a, S: Scalar, T, const M: usize, const DIM: usize>(
    q: Seq<WeightedTree<'a, S, T, M, DIM>>,
    i: int,
)
    requires
        0 <= i < q.len(),
    ensures
        queue_entries(q.remove(i)).add(q[i].value.entries()) =~= queue_entries(q),
        queue_size(q.remove(i)) + q[i].value.size() == queue_size(q),
    decreases q.len(),
{
    if i == q.len() - 1 {
        assert(q.remove(i) =~= q.drop_last());
    } else {
        lemma_queue_remove(q.drop_last(), i);
        assert(q.drop_last().remove(i) =~= q.remove(i).drop_last());
        assert(q.remove(i).last() == q.last());
        assert(q.drop_last()[i] == q[i]);
    }
}

/// An entry of the queued subtrees is an entry of one of them.
pub proof fn lemma_queue_member<'a, S: Scalar, T, const M: usize, const DIM: usize>(
    q: Seq<WeightedTree<'a, S, T, M, DIM>>,
    e: ([S; DIM], T),
)
    requires
        queue_entries(q).count(e) > 0,
    ensures
        exists|j: int| 0 <= j < q.len() && (#[trigger] q[j]).value.entries().count(e) > 0,
    decreases q.len(),
{
    if q.len() > 0 {
        if queue_entries(q.drop_last()).count(e) > 0 {
            lemma_queue_member(q.drop_last(), e);
            let j = choose|j: int| 0 <= j < q.drop_last().len() && (#[trigger] q.drop_last()[j]).value.entries().count(e) > 0;
            assert(q[j] == q.drop_last()[j]);
        } else {
            assert(q[q.len() - 1].value.entries().count(e) > 0);
        }
    }
}

/// Queues `node`'s children, in slot order, with their distances to `p` as keys.
fn push_children<'a, S: Scalar, T, const M: usize, const DIM: usize>(
    pq: &mut Vec<WeightedTree<'a, S, T, M, DIM>>,
    node: &'a RTree<S, T, M, DIM>,
    p: &[S; DIM],
)
    requires
        node.wf(),
        node.is_node(),
    ensures
        final(pq)@.len() == old(pq)@.len() + node.n_children(),
        forall|i: int| 0 <= i < old(pq)@.len() ==> final(pq)@[i] == old(pq)@[i],
        forall|i: int| old(pq)@.len() <= i < final(pq)@.len() ==> (#[trigger] final(pq)@[i]).item_ok(*p),
        forall|i: int|
            old(pq)@.len() <= i < final(pq)@.len() ==> node.node_rect().spec_dist(*p).le(
                (#[trigger] final(pq)@[i]).key,
            ),
        queue_entries(final(pq)@) == queue_entries(old(pq)@).add(node.entries()),
        queue_size(final(pq)@) + 1 == queue_size(old(pq)@) + node.size(),
{
    let ghost q0 = pq@;
    let (nr, v, lv) = match node {
        RTree::LeafNode(r, v) => (r, v, true),
        RTree::InternalNode(r, v) => (r, v, false),
        RTree::Leaf(_, _) => {
            proof {
                assert(false);
            }
            return ;
        },
    };
    let ghost s = v@;
    let ghost n = node.n_children();
    proof {
        lemma_filled_unique(s, n);
        RTree::<S, T, M, DIM>::lemma_slots_wf_iff(s, *nr, lv, M as int);
        assert(node.entries() == RTree::<S, T, M, DIM>::slots_entries(s, M as int));
        RTree::<S, T, M, DIM>::lemma_slots_entries_free(s, n, M as int);
        RTree::<S, T, M, DIM>::lemma_slots_size_free(s, n, M as int);
        assert(queue_entries(pq@).add(RTree::<S, T, M, DIM>::slots_entries(s, 0)) =~= queue_entries(pq@));
    }
    let mut i: usize = 0;
    while i < v.len() && v[i].is_some()
        invariant
            v@ == s,
            s.len() == M,
            filled(s, n),
            RTree::<S, T, M, DIM>::slots_wf(s, *nr, lv, M as int),
            forall|j: int| 0 <= j < M ==> #[trigger] RTree::<S, T, M, DIM>::slot_ok(s[j], *nr, lv),
            nr.valid(),
            0 <= i <= n,
            pq@.len() == q0.len() + i,
            forall|j: int| 0 <= j < q0.len() ==> pq@[j] == q0[j],
            forall|j: int| q0.len() <= j < pq@.len() ==> (#[trigger] pq@[j]).item_ok(*p),
            forall|j: int| q0.len() <= j < pq@.len() ==> nr.spec_dist(*p).le((#[trigger] pq@[j]).key),
            queue_entries(pq@) == queue_entries(q0).add(RTree::<S, T, M, DIM>::slots_entries(s, i as int)),
            queue_size(pq@) == queue_size(q0) + RTree::<S, T, M, DIM>::slots_size(s, i as int),
        decreases M - i,
    {
        match &v[i] {
            Some(t) => {
                let r = t.get_rect();
                let key = r.dist_from_point(p);
                let it = WeightedTree { key, value: t };
                proof {
                    let tt = *t;
                    assert(RTree::<S, T, M, DIM>::slot_ok(s[i as int], *nr, lv));
                    assert(RTree::<S, T, M, DIM>::child_ok(tt, *nr, lv));
                    tt.lemma_rect_is(r, *nr);
                    lemma_dist_monotone(*nr, r, *p);
                    match tt {
                        RTree::Leaf(x, val) => {
                            lemma_point_rect(r, x, *p);
                            Scalar::le_reflexive(key);
                            assert forall|e: ([S; DIM], T)| #[trigger] tt.entries().count(e) > 0 implies key.le(sq_dist(e.0, *p)) by {
                                if e != (x, *val) {
                                    assert(Multiset::singleton((x, *val)).count(e) == 0);
                                }
                            }
                        },
                        _ => {
                            lemma_encloses_reflexive(r);
                            tt.lemma_entries_inside(r);
                            assert forall|e: ([S; DIM], T)| #[trigger] tt.entries().count(e) > 0 implies key.le(sq_dist(e.0, *p)) by {
                                lemma_dist_below_point_key(r, e.0, *p);
                            }
                        },
                    }
                    assert(it.item_ok(*p));
                    lemma_queue_push(pq@, it);
                    RTree::<S, T, M, DIM>::lemma_slots_entries_unfold(s, i + 1);
                    assert(queue_entries(pq@.push(it)) =~= queue_entries(q0).add(RTree::<S, T, M, DIM>::slots_entries(s, i + 1)));
                }
                pq.push(it);
            },
            None => {
                proof {
                    assert(false);
                }
            },
        }
        i = i + 1;
    }
    proof {
        assert(i == n);
    }
}

/// The queue's order is total: of two queued subtrees, one may leave before the other.
pub proof fn lemma_pops_before_total<'a, S: Scalar, T, const M: usize, const DIM: usize>(
    a: WeightedTree<'a, S, T, M, DIM>,
    b: WeightedTree<'a, S, T, M, DIM>,
)
    ensures
        a.spec_pops_before(b) || b.spec_pops_before(a),
        a.spec_pops_before(a),
{
    Scalar::le_total(a.key, b.key);
    Scalar::le_total(subtree_volume(*a.value), subtree_volume(*b.value));
    Scalar::le_reflexive(a.key);
    Scalar::le_reflexive(subtree_volume(*a.value));
}

/// The queue's order is transitive: a subtree that leaves before one that
/// leaves before a third leaves before the third.
pub proof fn lemma_pops_before_transitive<'a, S: Scalar, T, const M: usize, const DIM: usize>(
    a: WeightedTree<'a, S, T, M, DIM>,
    b: WeightedTree<'a, S, T, M, DIM>,
    c: WeightedTree<'a, S, T, M, DIM>,
)
    requires
        a.spec_pops_before(b),
        b.spec_pops_before(c),
    ensures
        a.spec_pops_before(c),
{
    let (va, vb, vc) = (subtree_volume(*a.value), subtree_volume(*b.value), subtree_volume(*c.value));
    Scalar::le_total(a.key, c.key);
    Scalar::le_total(b.key, c.key);
    Scalar::le_total(a.key, b.key);
    if a.key.le(b.key) && b.key.le(c.key) {
        Scalar::le_transitive(a.key, b.key, c.key);
    }
    if c.key.le(a.key) && a.key.le(b.key) {
        Scalar::le_transitive(c.key, a.key, b.key);
    }
    if b.key.le(c.key) && c.key.le(a.key) {
        Scalar::le_transitive(b.key, c.key, a.key);
    }
    if va.le(vb) && vb.le(vc) {
        Scalar::le_transitive(va, vb, vc);
    }
}

/// Takes the subtree that leaves the queue first: the nearest, and among
/// equally near ones one of least volume.
fn pop_best<'a, S: Scalar, T, const M: usize, const DIM: usize>(
    pq: &mut Vec<WeightedTree<'a, S, T, M, DIM>>,
) -> (best: WeightedTree<'a, S, T, M, DIM>)
    requires
        old(pq)@.len() > 0,
    ensures
        exists|i: int|
            0 <= i < old(pq)@.len() && best == old(pq)@[i] && final(pq)@ == old(pq)@.remove(i),
        forall|j: int| 0 <= j < old(pq)@.len() ==> best.spec_pops_before(#[trigger] old(pq)@[j]),
{
    let mut b: usize = 0;
    proof {
        lemma_pops_before_total(pq@[0], pq@[0]);
    }
    for j in 1..pq.len()
        invariant
            b < j <= pq@.len(),
            forall|k: int| 0 <= k < j ==> pq@[b as int].spec_pops_before(#[trigger] pq@[k]),
    {
        let ghost kb = pq@[b as int];
        let ghost kj = pq@[j as int];
        proof {
            lemma_pops_before_total(kb, kj);
            lemma_pops_before_total(kj, kj);
        }
        if pq[j].pops_before(&pq[b]) && !pq[b].pops_before(&pq[j]) {
            proof {
                assert forall|k: int| 0 <= k < j + 1 implies kj.spec_pops_before(#[trigger] pq@[k]) by {
                    if k < j {
                        lemma_pops_before_transitive(kj, kb, pq@[k]);
                    }
                }
            }
            b = j;
        }
    }
    pq.remove(b)
}

impl<S: Scalar, T, const M: usize, const DIM: usize> RTree<S, T, M, DIM> {
    /// The entry nearest to `p`: its point, its squared distance to `p`, and its value.
    pub fn closest(&self, p: &[S; DIM]) -> (res: ([S; DIM], S, Rc<T>))
        requires
            self.wf_root(),
            self.entries().len() > 0,
        ensures
            self.entries().count((res.0, *res.2)) > 0,
            res.1 == sq_dist(res.0, *p),
            forall|e: ([S; DIM], T)| #[trigger] self.entries().count(e) > 0 ==> res.1.le(sq_dist(e.0, *p)),
    {
        let mut pq: Vec<WeightedTree<S, T, M, DIM>> = Vec::new();
        proof {
            assert(queue_entries(pq@) =~= Multiset::empty());
        }
        push_children(&mut pq, self, p);
        proof {
            assert(queue_entries(pq@) =~= self.entries());
        }
        loop
            invariant
                self.wf_root(),
                self.entries().len() > 0,
                forall|i: int| 0 <= i < pq@.len() ==> (#[trigger] pq@[i]).item_ok(*p),
                queue_entries(pq@) == self.entries(),
            decreases queue_size(pq@),
        {
            let ghost q0 = pq@;
            if pq.len() == 0 {
                proof {
                    assert(queue_entries(q0) =~= Multiset::empty());
                }
            }
            let best = pop_best(&mut pq);
            let ghost bi = choose|i: int| 0 <= i < q0.len() && best == q0[i] && pq@ == q0.remove(i);
            proof {
                lemma_queue_remove(q0, bi);
                assert(best.item_ok(*p));
                assert forall|i: int| 0 <= i < pq@.len() implies (#[trigger] pq@[i]).item_ok(*p) by {
                    if i < bi {
                        assert(pq@[i] == q0[i]);
                    } else {
                        assert(pq@[i] == q0[i + 1]);
                    }
                }
            }
            match best.value {
                RTree::Leaf(x, e) => {
                    let d = points_distance(x, p);
                    let v = share(e);
                    proof {
                        assert(best.value.entries().count((*x, **e)) > 0);
                        assert(self.entries().count((*x, *v)) > 0);
                        assert forall|e2: ([S; DIM], T)| #[trigger] self.entries().count(e2) > 0 implies sq_dist(*x, *p).le(sq_dist(e2.0, *p)) by {
                            lemma_queue_member(q0, e2);
                            let j = choose|j: int| 0 <= j < q0.len() && (#[trigger] q0[j]).value.entries().count(e2) > 0;
                            assert(q0[j].item_ok(*p));
                            assert(best.spec_pops_before(q0[j]));
                            Scalar::le_total(best.key, q0[j].key);
                            Scalar::le_transitive(best.key, q0[j].key, sq_dist(e2.0, *p));
                        }
                    }
                    return (*x, d, v);
                },
                _ => {
                    let ghost q1 = pq@;
                    push_children(&mut pq, best.value, p);
                    proof {
                        assert forall|i: int| 0 <= i < pq@.len() implies (#[trigger] pq@[i]).item_ok(*p) by {
                            if i < q1.len() {
                                assert(pq@[i] == q1[i]);
                            }
                        }
                    }
                },
            }
        }
    }
}

/// The `(point, value)` entry of a search result.
pub open spec fn result_entry<S, T, const DIM: usize>(r: ([S; DIM], S, Rc<T>)) -> ([S; DIM], T) {
    (r.0, *r.2)
}

/// The `(point, value)` entries of a list of search results.
pub open spec fn result_entries<S, T, const DIM: usize>(rs: Seq<([S; DIM], S, Rc<T>)>) -> Multiset<([S; DIM], T)>
    decreases rs.len(),
{
    if rs.len() == 0 {
        Multiset::empty()
    } else {
        result_entries(rs.drop_last()).insert((rs.last().0, *rs.last().2))
    }
}

pub proof fn lemma_result_entries_len<S, T, const DIM: usize>(rs: Seq<([S; DIM], S, Rc<T>)>)
    ensures
        result_entries(rs).len() == rs.len(),
    decreases rs.len(),
{
    if rs.len() > 0 {
        lemma_result_entries_len(rs.drop_last());
    }
}

impl<S: Scalar, T, const M: usize, const DIM: usize> RTree<S, T, M, DIM> {
    /// The `k` entries nearest to `p` (all entries if there are fewer),
    /// nearest first: each with its point, its squared distance to `p`, and its value.
    pub fn k_closest(&self, p: &[S; DIM], k: usize) -> (res: Vec<([S; DIM], S, Rc<T>)>)
        requires
            self.wf_root(),
        ensures
            res@.len() == if k <= self.entries().len() { k as nat } else { self.entries().len() },
            nearest_first(*self, *p, res@),
    {
        let mut pq: Vec<WeightedTree<S, T, M, DIM>> = Vec::new();
        proof {
            assert(queue_entries(pq@) =~= Multiset::empty());
        }
        push_children(&mut pq, self, p);
        let mut res: Vec<([S; DIM], S, Rc<T>)> = Vec::new();
        let mut k = k;
        let ghost k0 = k;
        proof {
            assert(result_entries(res@).add(queue_entries(pq@)) =~= self.entries());
        }
        while k > 0 && !pq.is_empty()
            invariant
                self.wf_root(),
                res@.len() + k == k0,
                forall|i: int| 0 <= i < pq@.len() ==> (#[trigger] pq@[i]).item_ok(*p),
                result_entries(res@).add(queue_entries(pq@)) == self.entries(),
                forall|i: int| 0 <= i < res@.len() ==> (#[trigger] res@[i]).1 == sq_dist_upto(res@[i].0@, p@, DIM as int),
                forall|a: int, b: int|
                    0 <= a < b < res@.len() ==> sq_dist((#[trigger] res@[a]).0, *p).le(sq_dist((#[trigger] res@[b]).0, *p)),
                forall|i: int, j: int|
                    0 <= i < res@.len() && 0 <= j < pq@.len() ==> sq_dist((#[trigger] res@[i]).0, *p).le((#[trigger] pq@[j]).key),
            decreases queue_size(pq@),
        {
            let ghost q0 = pq@;
            let ghost r0 = res@;
            let best = pop_best(&mut pq);
            let ghost bi = choose|i: int| 0 <= i < q0.len() && best == q0[i] && pq@ == q0.remove(i);
            proof {
                lemma_queue_remove(q0, bi);
                assert(best.item_ok(*p));
                assert forall|i: int| 0 <= i < pq@.len() implies (#[trigger] pq@[i]).item_ok(*p) && pq@[i] == q0[if i < bi { i } else { i + 1 }] by {
                    if i < bi {
                        assert(pq@[i] == q0[i]);
                    } else {
                        assert(pq@[i] == q0[i + 1]);
                    }
                }
                assert forall|j: int| 0 <= j < pq@.len() implies best.key.le(#[trigger] pq@[j].key) by {
                    let jj = if j < bi { j } else { j + 1 };
                    assert(best.spec_pops_before(q0[jj]));
                    Scalar::le_total(best.key, q0[jj].key);
                }
                assert forall|i: int| 0 <= i < r0.len() implies sq_dist((#[trigger] r0[i]).0, *p).le(best.key) by {
                    assert(sq_dist(r0[i].0, *p).le(q0[bi].key));
                }
            }
            match best.value {
                RTree::Leaf(x, e) => {
                    let d = points_distance(x, p);
                    let v = share(e);
                    let ghost item = (*x, d, v);
                    proof {
                        let n0 = result_entries(r0);
                        assert(best.value.entries() =~= Multiset::singleton((*x, *v)));
                        assert(r0.push(item).drop_last() =~= r0);
                        assert(result_entries(r0.push(item)) == n0.insert((*x, *v)));
                        assert(result_entries(r0.push(item)).add(queue_entries(pq@)) =~= self.entries());
                        assert forall|a: int, b: int| 0 <= a < b < r0.len() + 1 implies sq_dist((#[trigger] r0.push(item)[a]).0, *p).le(sq_dist((#[trigger] r0.push(item)[b]).0, *p)) by {
                            assert(r0.push(item)[a] == r0[a]);
                            if b < r0.len() {
                                assert(r0.push(item)[b] == r0[b]);
                            }
                        }
                        assert forall|i: int, j: int| 0 <= i < r0.len() + 1 && 0 <= j < pq@.len() implies sq_dist((#[trigger] r0.push(item)[i]).0, *p).le((#[trigger] pq@[j]).key) by {
                            if i < r0.len() {
                                assert(r0.push(item)[i] == r0[i]);
                                let jj = if j < bi { j } else { j + 1 };
                                assert(pq@[j] == q0[jj]);
                            } else {
                                assert(best.key.le(pq@[j].key));
                            }
                        }
                    }
                    res.push((*x, d, v));
                    k = k - 1;
                },
                _ => {
                    let ghost q1 = pq@;
                    push_children(&mut pq, best.value, p);
                    proof {
                        assert(result_entries(res@).add(queue_entries(pq@)) =~= self.entries());
                        assert forall|i: int| 0 <= i < pq@.len() implies (#[trigger] pq@[i]).item_ok(*p) by {
                            if i < q1.len() {
                                assert(pq@[i] == q1[i]);
                            }
                        }
                        assert forall|i: int, j: int| 0 <= i < res@.len() && 0 <= j < pq@.len() implies sq_dist((#[trigger] res@[i]).0, *p).le((#[trigger] pq@[j]).key) by {
                            if j < q1.len() {
                                assert(pq@[j] == q1[j]);
                                let jj = if j < bi { j } else { j + 1 };
                                assert(q1[j] == q0[jj]);
                            } else {
                                assert(best.value.node_rect().spec_dist(*p).le(pq@[j].key));
                                Scalar::le_transitive(sq_dist(res@[i].0, *p), best.key, pq@[j].key);
                            }
                        }
                    }
                },
            }
        }
        proof {
            lemma_result_entries_len(res@);
            if pq@.len() == 0 {
                assert(queue_entries(pq@) =~= Multiset::empty());
                assert(result_entries(res@) =~= self.entries());
            }
            assert(self.entries().sub(result_entries(res@)) =~= queue_entries(pq@));
            assert forall|i: int, e: ([S; DIM], T)| 0 <= i < res@.len() && #[trigger] self.entries().sub(result_entries(res@)).count(e) > 0 implies sq_dist((#[trigger] res@[i]).0, *p).le(sq_dist(e.0, *p)) by {
                lemma_queue_member(pq@, e);
                let j = choose|j: int| 0 <= j < pq@.len() && (#[trigger] pq@[j]).value.entries().count(e) > 0;
                assert(pq@[j].item_ok(*p));
                Scalar::le_transitive(sq_dist(res@[i].0, *p), pq@[j].key, sq_dist(e.0, *p));
            }
            assert(result_entries(res@).subset_of(self.entries()));
        }
        res
    }
}

/// A point just inserted is found by a nearest-neighbour query at its own
/// position: after `insert(p, value)` turns `before` into `after`, the
/// distance that `closest(p)` returns on `after` is zero.
pub proof fn lemma_insert_then_closest<S: Scalar, T, const M: usize, const DIM: usize>(
    before: RTree<S, T, M, DIM>,
    after: RTree<S, T, M, DIM>,
    p: [S; DIM],
    value: T,
    res: ([S; DIM], S, Rc<T>),
)
    requires
        after.entries() == before.entries().insert((p, value)),
        res.1 == sq_dist(res.0, p),
        forall|e: ([S; DIM], T)| #[trigger] after.entries().count(e) > 0 ==> res.1.le(sq_dist(e.0, p)),
    ensures
        after.entries().count((p, value)) > 0,
        equiv(res.1, S::spec_zero()),
{
    assert(after.entries().count((p, value)) > 0);
    assert(res.1.le(sq_dist(p, p)));
    crate::rect::lemma_sq_dist(p, p);
    crate::rect::lemma_sq_dist(res.0, p);
}

/// `closest(p)` and the first of `k_closest(p, 1)` return equal distances.
pub proof fn lemma_closest_is_first_of_k_closest<S: Scalar, T, const M: usize, const DIM: usize>(
    t: RTree<S, T, M, DIM>,
    p: [S; DIM],
    c: ([S; DIM], S, Rc<T>),
    ks: Seq<([S; DIM], S, Rc<T>)>,
)
    requires
        t.entries().count((c.0, *c.2)) > 0,
        c.1 == sq_dist(c.0, p),
        forall|e: ([S; DIM], T)| #[trigger] t.entries().count(e) > 0 ==> c.1.le(sq_dist(e.0, p)),
        ks.len() == 1,
        nearest_first(t, p, ks),
    ensures
        equiv(c.1, ks[0].1),
{
    let e0 = result_entry(ks[0]);
    assert(ks.drop_last() =~= Seq::<([S; DIM], S, Rc<T>)>::empty());
    assert(result_entries(ks.drop_last()) =~= Multiset::empty());
    assert(ks.last() == ks[0]);
    assert(result_entries(ks) =~= Multiset::singleton(e0));
    assert(t.entries().count(e0) > 0);
    assert(ks[0].1 == sq_dist(ks[0].0, p));
    let ec = result_entry(c);
    if ec == e0 {
        Scalar::le_reflexive(c.1);
    } else {
        assert(t.entries().sub(result_entries(ks)).count(ec) > 0);
        assert(ks[0].1.le(sq_dist(ec.0, p)));
    }
}

/// When `k` is at least the number of entries, `k_closest` returns every entry.
pub proof fn lemma_k_closest_returns_all<S: Scalar, T, const M: usize, const DIM: usize>(
    t: RTree<S, T, M, DIM>,
    ks: Seq<([S; DIM], S, Rc<T>)>,
)
    requires
        result_entries(ks).subset_of(t.entries()),
        ks.len() == t.entries().len(),
    ensures
        result_entries(ks) == t.entries(),
{
    lemma_result_entries_len(ks);
    let rest = t.entries().sub(result_entries(ks));
    assert(rest.len() == 0);
    assert forall|e: ([S; DIM], T)| #[trigger] result_entries(ks).count(e) == t.entries().count(e) by {
        if rest.count(e) > 0 {
            assert(rest.len() > 0);
        }
    }
    assert(result_entries(ks) =~= t.entries());
}

/// The results of a query split at `n` hold the entries of the two parts.
pub proof fn lemma_result_entries_split<S, T, const DIM: usize>(rs: Seq<([S; DIM], S, Rc<T>)>, n: int)
    requires
        0 <= n <= rs.len(),
    ensures
        result_entries(rs) =~= result_entries(rs.take(n)).add(result_entries(rs.skip(n))),
    decreases rs.len(),
{
    if n == rs.len() {
        assert(rs.take(n) =~= rs);
        assert(rs.skip(n).len() == 0);
        assert(result_entries(rs.skip(n)) =~= Multiset::empty());
    } else {
        let d = rs.drop_last();
        lemma_result_entries_split(d, n);
        assert(d.take(n) =~= rs.take(n));
        assert(rs.skip(n).drop_last() =~= d.skip(n));
        assert(rs.skip(n).last() == rs.last());
    }
}

/// An entry of the results is the entry of one result.
pub proof fn lemma_result_entries_member<S, T, const DIM: usize>(rs: Seq<([S; DIM], S, Rc<T>)>, e: ([S; DIM], T))
    requires
        result_entries(rs).count(e) > 0,
    ensures
        exists|j: int| 0 <= j < rs.len() && result_entry(#[trigger] rs[j]) == e,
    decreases rs.len(),
{
    if rs.len() > 0 {
        let d = rs.drop_last();
        if result_entries(d).count(e) > 0 {
            lemma_result_entries_member(d, e);
            let j = choose|j: int| 0 <= j < d.len() && result_entry(#[trigger] d[j]) == e;
            assert(rs[j] == d[j]);
        } else {
            assert(result_entry(rs[rs.len() - 1]) == e);
        }
    }
}

/// `rs` answers a query for the entries of `t` nearest to `p`, as `k_closest`
/// does: entries of `t` with their squared distances to `p`, nearest first,
/// and no entry left out nearer than any of them.
pub open spec fn nearest_first<S: Scalar, T, const M: usize, const DIM: usize>(
    t: RTree<S, T, M, DIM>,
    p: [S; DIM],
    rs: Seq<([S; DIM], S, Rc<T>)>,
) -> bool {
    &&& result_entries(rs).subset_of(t.entries())
    &&& forall|i: int| 0 <= i < rs.len() ==> (#[trigger] rs[i]).1 == sq_dist(rs[i].0, p)
    &&& forall|a: int, b: int| 0 <= a < b < rs.len() ==> (#[trigger] rs[a]).1.le((#[trigger] rs[b]).1)
    &&& forall|i: int, e: ([S; DIM], T)|
        0 <= i < rs.len() && #[trigger] t.entries().sub(result_entries(rs)).count(e) > 0
            ==> (#[trigger] rs[i]).1.le(sq_dist(e.0, p))
}

/// Fewer than `i + 1` entries of `t` are nearer to `p` than the result at
/// position `i` of an answer `r`: no `i + 1` entries of `t`, listed in `q`
/// with their distances, are all nearer.
pub proof fn lemma_nearer_than_rank<S: Scalar, T, const M: usize, const DIM: usize>(
    t: RTree<S, T, M, DIM>,
    p: [S; DIM],
    r: Seq<([S; DIM], S, Rc<T>)>,
    q: Seq<([S; DIM], S, Rc<T>)>,
    i: int,
)
    requires
        nearest_first(t, p, r),
        result_entries(q).subset_of(t.entries()),
        forall|j: int| 0 <= j < q.len() ==> (#[trigger] q[j]).1 == sq_dist(q[j].0, p),
        0 <= i < r.len(),
        i < q.len(),
    ensures
        exists|j: int| 0 <= j <= i && r[i].1.le((#[trigger] q[j]).1),
{
    if forall|j: int| 0 <= j <= i ==> lt((#[trigger] q[j]).1, r[i].1) {
        let d = r[i].1;
        let x = result_entries(q.take(i + 1));
        let y = result_entries(r.take(i));
        let z = result_entries(r.skip(i));
        let big = t.entries();
        lemma_result_entries_split(q, i + 1);
        lemma_result_entries_split(r, i);
        assert forall|e: ([S; DIM], T)| #[trigger] x.count(e) <= y.count(e) by {
            if x.count(e) > 0 {
                lemma_result_entries_member(q.take(i + 1), e);
                let j = choose|j: int| 0 <= j < q.take(i + 1).len() && result_entry(#[trigger] q.take(i + 1)[j]) == e;
                assert(q.take(i + 1)[j] == q[j]);
                assert(lt(q[j].1, d));
                assert(q[j].1 == sq_dist(e.0, p));
                assert(result_entries(q).count(e) >= x.count(e));
                if big.sub(result_entries(r)).count(e) > 0 {
                    assert(d.le(sq_dist(e.0, p)));
                }
                if z.count(e) > 0 {
                    lemma_result_entries_member(r.skip(i), e);
                    let k = choose|k: int| 0 <= k < r.skip(i).len() && result_entry(#[trigger] r.skip(i)[k]) == e;
                    assert(r.skip(i)[k] == r[i + k]);
                    if k == 0 {
                        Scalar::le_reflexive(d);
                    } else {
                        assert(d.le(r[i + k].1));
                    }
                }
            }
        }
        assert(x.subset_of(y));
        lemma_result_entries_len(q.take(i + 1));
        lemma_result_entries_len(r.take(i));
        assert(y.sub(x).len() == y.len() - x.len());
    }
}

/// Asking for fewer nearest entries gives a prefix of the answer for more:
/// of two answers of lengths `min(k1, n)` and `min(k2, n)` with `k1 <= k2`,
/// the first is as long as `min(k1, n)`, and position by position the two
/// distances are equal.
pub proof fn lemma_k_closest_prefix<S: Scalar, T, const M: usize, const DIM: usize>(
    t: RTree<S, T, M, DIM>,
    p: [S; DIM],
    k1: nat,
    k2: nat,
    a: Seq<([S; DIM], S, Rc<T>)>,
    b: Seq<([S; DIM], S, Rc<T>)>,
)
    requires
        k1 <= k2,
        a.len() == if k1 <= t.entries().len() { k1 } else { t.entries().len() },
        b.len() == if k2 <= t.entries().len() { k2 } else { t.entries().len() },
        nearest_first(t, p, a),
        nearest_first(t, p, b),
    ensures
        a.len() == if k1 <= b.len() { k1 } else { b.len() },
        forall|i: int| 0 <= i < a.len() ==> equiv(#[trigger] a[i].1, b[i].1),
{
    assert forall|i: int| 0 <= i < a.len() implies equiv(#[trigger] a[i].1, b[i].1) by {
        Scalar::le_total(a[i].1, b[i].1);
        if lt(a[i].1, b[i].1) {
            assert forall|j: int| 0 <= j <= i implies lt((#[trigger] a[j].1), b[i].1) by {
                if j < i {
                    if b[i].1.le(a[j].1) {
                        Scalar::le_transitive(b[i].1, a[j].1, a[i].1);
                    }
                }
            }
            lemma_nearer_than_rank(t, p, b, a, i);
        }
        if lt(b[i].1, a[i].1) {
            assert forall|j: int| 0 <= j <= i implies lt((#[trigger] b[j].1), a[i].1) by {
                if j < i {
                    if a[i].1.le(b[j].1) {
                        Scalar::le_transitive(a[i].1, b[j].1, b[i].1);
                    }
                }
            }
            lemma_nearer_than_rank(t, p, a, b, i);
        }
    }
}

} // verus!
