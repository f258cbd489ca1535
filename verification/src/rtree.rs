//! The tree: points with values in the leaves, bounding rectangles in the
//! nodes, at most `M` children per node kept in `M` slots whose taken ones
//! come first.
use crate::rect::{
    lemma_encloses_transitive, lemma_has_point_iff_encloses, lemma_point_rect, margin_upto, point_segments, spec_segments_intersection,
    volume_upto, Rect,
};
use crate::scalar::{lemma_pair_le_total, lemma_pair_le_transitive, lt, pair_is_le, pair_le, smax, smin, Scalar};
use std::rc::Rc;
use vstd::multiset::Multiset;
use vstd::prelude::*;

verus! {

/// `M` is the maximum number of children per node.
#[derive(Debug)]
pub enum RTree<S, T, const M: usize, const DIM: usize> {
    /// A node whose children are nodes.
    InternalNode(Rect<S, DIM>, Vec<Option<RTree<S, T, M, DIM>>>),
    /// A node whose children are leaves.
    LeafNode(Rect<S, DIM>, Vec<Option<RTree<S, T, M, DIM>>>),
    /// A point and its value.
    Leaf([S; DIM], Rc<T>),
}

/// The outcome of inserting into a node: the grown node, or its two halves.
pub(crate) enum Inserted<S, T, const M: usize, const DIM: usize> {
    Fits(RTree<S, T, M, DIM>),
    Splits(RTree<S, T, M, DIM>, RTree<S, T, M, DIM>),
}

/// The first `k` slots are taken and the others are free.
pub open spec fn filled<A>(s: Seq<Option<A>>, k: int) -> bool {
    &&& 0 <= k <= s.len()
    &&& forall|i: int| 0 <= i < k ==> (#[trigger] s[i]) is Some
    &&& forall|i: int| k <= i < s.len() ==> (#[trigger] s[i]) is None
}

/// The number of taken slots, where the taken slots come first.
pub open spec fn taken<A>(s: Seq<Option<A>>) -> int {
    choose|k: int| filled(s, k)
}

pub proof fn lemma_filled_unique<A>(s: Seq<Option<A>>, k: int)
    requires
        filled(s, k),
    ensures
        taken(s) == k,
{
    let j = taken(s);
    assert(filled(s, j));
    if j < k {
        assert(s[j] is Some);
    }
    if k < j {
        assert(s[k] is Some);
    }
}

impl<S: Scalar, T, const M: usize, const DIM: usize> RTree<S, T, M, DIM> {
    pub open spec fn is_node(self) -> bool {
        !(self is Leaf)
    }

    /// The rectangle stored in a node.
    pub open spec fn node_rect(self) -> Rect<S, DIM> {
        match self {
            RTree::InternalNode(r, _) => r,
            RTree::LeafNode(r, _) => r,
            RTree::Leaf(_, _) => arbitrary(),
        }
    }

    /// The child slots of a node.
    pub open spec fn slots(self) -> Seq<Option<Self>> {
        match self {
            RTree::InternalNode(_, c) => c@,
            RTree::LeafNode(_, c) => c@,
            RTree::Leaf(_, _) => Seq::empty(),
        }
    }

    /// The number of children of a node.
    pub open spec fn n_children(self) -> int {
        taken(self.slots())
    }

    /// The subtree lies inside `r`: its point, or its node's rectangle.
    pub open spec fn inside(self, r: Rect<S, DIM>) -> bool {
        match self {
            RTree::Leaf(x, _) => r.has_point(x),
            _ => r.encloses(self.node_rect()),
        }
    }

    /// The `(point, value)` entries stored in the subtree.
    pub open spec fn entries(self) -> Multiset<([S; DIM], T)>
        decreases self, 0int,
    {
        match self {
            RTree::Leaf(x, v) => Multiset::singleton((x, *v)),
            RTree::LeafNode(_, c) => Self::slots_entries(c@, c@.len() as int),
            RTree::InternalNode(_, c) => Self::slots_entries(c@, c@.len() as int),
        }
    }

    /// The entries of the subtrees in the first `n` slots.
    pub open spec fn slots_entries(s: Seq<Option<Self>>, n: int) -> Multiset<([S; DIM], T)>
        decreases s, n,
    {
        if n <= 0 || n > s.len() {
            Multiset::empty()
        } else {
            Self::slots_entries(s, n - 1).add(
                match s[n - 1] {
                    Some(c) => c.entries(),
                    None => Multiset::empty(),
                },
            )
        }
    }

    /// The subtree is well formed: every node has `M` slots, taken ones
    /// first, and a valid rectangle that holds its children; a leaf node's
    /// children are leaves; an internal node has children, and they are
    /// well-formed nodes with children.
    pub open spec fn wf(self) -> bool
        decreases self, 0int,
    {
        match self {
            RTree::Leaf(_, _) => true,
            RTree::LeafNode(r, c) => {
                &&& c@.len() == M
                &&& exists|k: int| filled(c@, k)
                &&& r.valid()
                &&& Self::slots_wf(c@, r, true, c@.len() as int)
            },
            RTree::InternalNode(r, c) => {
                &&& c@.len() == M
                &&& exists|k: int| filled(c@, k)
                &&& taken(c@) >= 1
                &&& r.valid()
                &&& Self::slots_wf(c@, r, false, c@.len() as int)
            },
        }
    }

    /// The subtrees in the first `n` slots are fit children of a node with rectangle `r`.
    pub open spec fn slots_wf(s: Seq<Option<Self>>, r: Rect<S, DIM>, leaf_level: bool, n: int) -> bool
        decreases s, n,
    {
        if n <= 0 || n > s.len() {
            true
        } else {
            &&& Self::slots_wf(s, r, leaf_level, n - 1)
            &&& match s[n - 1] {
                Some(c) => Self::child_ok(c, r, leaf_level),
                None => true,
            }
        }
    }

    /// `c` fits as a child of a node with rectangle `r`: it lies inside `r`;
    /// at the leaf level it is a leaf, otherwise a well-formed node with children.
    pub open spec fn child_ok(c: Self, r: Rect<S, DIM>, leaf_level: bool) -> bool
        decreases c, 1int,
    {
        &&& c.inside(r)
        &&& if leaf_level {
            c is Leaf
        } else {
            &&& c.is_node()
            &&& c.wf()
            &&& taken(c.slots()) >= 1
        }
    }

    /// A tree that queries and insertions accept: a well-formed node.
    pub open spec fn wf_root(self) -> bool {
        self.is_node() && self.wf()
    }

    /// The rectangle of the subtree: its node's rectangle, or the degenerate
    /// rectangle of its point.
    pub fn get_rect(&self) -> (r: Rect<S, DIM>)
        ensures
            match self {
                RTree::Leaf(x, _) => r.is_point_rect(*x),
                _ => r == self.node_rect(),
            },
    {
        match self {
            RTree::InternalNode(r, _) => *r,
            RTree::LeafNode(r, _) => *r,
            RTree::Leaf(p, _) => Rect::from_point(p),
        }
    }

    pub fn is_leaf(&self) -> (b: bool)
        ensures
            b == (self is Leaf),
    {
        matches!(self, RTree::Leaf(_, _))
    }

    pub fn is_internal_node(&self) -> (b: bool)
        ensures
            b == (self is InternalNode),
    {
        matches!(self, RTree::InternalNode(_, _))
    }

    /// The number of taken slots, found by binary search on the boundary
    /// between the taken slots and the free ones.
    pub fn n_taken<A>(v: &Vec<Option<A>>) -> (n: usize)
        requires
            v@.len() >= 1,
            exists|k: int| filled(v@, k),
        ensures
            n == taken(v@),
    {
        let ghost k = taken(v@);
        let mut a: usize = 0;
        let mut b: usize = v.len();
        while b - a > 1
            invariant
                filled(v@, k),
                0 <= a < b <= v@.len(),
                a > 0 ==> v@[a as int] is Some,
                b < v@.len() ==> v@[b as int] is None,
            decreases b - a,
        {
            let m = a + (b - a) / 2;
            if v[m].is_none() {
                b = m;
            } else {
                a = m;
            }
        }
        if v[a].is_none() {
            a
        } else {
            a + 1
        }
    }
}

/// The entries held by one slot.
pub open spec fn slot_entries<S: Scalar, T, const M: usize, const DIM: usize>(o: Option<RTree<S, T, M, DIM>>) -> Multiset<([S; DIM], T)> {
    match o {
        Some(c) => c.entries(),
        None => Multiset::empty(),
    }
}

/// The entries of a sequence of subtrees.
pub open spec fn seq_entries<S: Scalar, T, const M: usize, const DIM: usize>(s: Seq<RTree<S, T, M, DIM>>) -> Multiset<([S; DIM], T)>
    decreases s.len(),
{
    if s.len() == 0 {
        Multiset::empty()
    } else {
        seq_entries(s.drop_last()).add(s.last().entries())
    }
}

impl<S: Scalar, T, const M: usize, const DIM: usize> RTree<S, T, M, DIM> {
    pub proof fn lemma_slots_entries_unfold(s: Seq<Option<Self>>, n: int)
        requires
            0 < n <= s.len(),
        ensures
            Self::slots_entries(s, n) == Self::slots_entries(s, n - 1).add(slot_entries(s[n - 1])),
    {
    }

    /// The entries of the first `n` slots depend on those slots only.
    pub proof fn lemma_slots_entries_prefix(s: Seq<Option<Self>>, t: Seq<Option<Self>>, n: int)
        requires
            0 <= n <= s.len(),
            n <= t.len(),
            forall|i: int| 0 <= i < n ==> s[i] == t[i],
        ensures
            Self::slots_entries(s, n) == Self::slots_entries(t, n),
        decreases n,
    {
        if n > 0 {
            Self::lemma_slots_entries_prefix(s, t, n - 1);
        }
    }

    /// Free slots add no entries.
    pub proof fn lemma_slots_entries_free(s: Seq<Option<Self>>, k: int, n: int)
        requires
            0 <= k <= n <= s.len(),
            forall|i: int| k <= i < n ==> (#[trigger] s[i]) is None,
        ensures
            Self::slots_entries(s, n) == Self::slots_entries(s, k),
        decreases n,
    {
        if n > k {
            Self::lemma_slots_entries_free(s, k, n - 1);
        }
    }

    /// Replacing the subtree in slot `i` replaces its entries.
    pub proof fn lemma_slots_entries_update(s: Seq<Option<Self>>, i: int, x: Option<Self>, n: int)
        requires
            0 <= i < n <= s.len(),
        ensures
            Self::slots_entries(s.update(i, x), n).add(slot_entries(s[i])) =~= Self::slots_entries(s, n).add(slot_entries(x)),
        decreases n,
    {
        let t = s.update(i, x);
        Self::lemma_slots_entries_unfold(s, n);
        Self::lemma_slots_entries_unfold(t, n);
        if n - 1 == i {
            Self::lemma_slots_entries_prefix(s, t, n - 1);
            assert(t[n - 1] == x);
        } else {
            Self::lemma_slots_entries_update(s, i, x, n - 1);
            assert(t[n - 1] == s[n - 1]);
            let a = Self::slots_entries(t, n - 1);
            let b = Self::slots_entries(s, n - 1);
            assert(a.add(slot_entries(s[i])) =~= b.add(slot_entries(x)));
            assert forall|e| #[trigger] a.add(slot_entries(s[n - 1])).add(slot_entries(s[i])).count(e) == b.add(slot_entries(s[n - 1])).add(slot_entries(x)).count(e) by {
                assert(a.add(slot_entries(s[i])).count(e) == b.add(slot_entries(x)).count(e));
            }
        }
    }

    /// Slots that hold the subtrees of `v` in order, then free slots, hold the entries of `v`.
    pub proof fn lemma_slots_entries_of_seq(s: Seq<Option<Self>>, v: Seq<Self>, n: int)
        requires
            0 <= n <= v.len(),
            v.len() <= s.len(),
            forall|i: int| 0 <= i < v.len() ==> #[trigger] s[i] == Some(v[i]),
        ensures
            Self::slots_entries(s, n) == seq_entries(v.take(n)),
        decreases n,
    {
        if n > 0 {
            Self::lemma_slots_entries_of_seq(s, v, n - 1);
            assert(v.take(n).drop_last() =~= v.take(n - 1));
        }
    }

    /// The points of all entries of a well-formed subtree lie in every
    /// rectangle that the subtree lies inside.
    pub proof fn lemma_entries_inside(self, r: Rect<S, DIM>)
        requires
            self.wf(),
            self.inside(r),
        ensures
            forall|e: ([S; DIM], T)| #[trigger] self.entries().count(e) > 0 ==> r.has_point(e.0),
        decreases self, 0int,
    {
        match self {
            RTree::Leaf(x, v) => {
                assert(self.entries() == Multiset::singleton((x, *v)));
                assert(r.has_point(x));
                assert forall|e: ([S; DIM], T)| #[trigger] self.entries().count(e) > 0 implies r.has_point(e.0) by {
                    if e != (x, *v) {
                        assert(Multiset::singleton((x, *v)).count(e) == 0);
                    }
                }
            },
            RTree::LeafNode(nr, c) => {
                Self::lemma_slots_entries_inside(c@, nr, true, c@.len() as int, r);
                assert(self.entries() == Self::slots_entries(c@, c@.len() as int));
            },
            RTree::InternalNode(nr, c) => {
                Self::lemma_slots_entries_inside(c@, nr, false, c@.len() as int, r);
                assert(self.entries() == Self::slots_entries(c@, c@.len() as int));
            },
        }
    }

    pub proof fn lemma_slots_entries_inside(s: Seq<Option<Self>>, nr: Rect<S, DIM>, lv: bool, n: int, r: Rect<S, DIM>)
        requires
            Self::slots_wf(s, nr, lv, n),
            r.encloses(nr),
        ensures
            forall|e: ([S; DIM], T)| #[trigger] Self::slots_entries(s, n).count(e) > 0 ==> r.has_point(e.0),
        decreases s, n,
    {
        if n <= 0 || n > s.len() {
        } else {
            Self::lemma_slots_entries_inside(s, nr, lv, n - 1, r);
            Self::lemma_slots_entries_unfold(s, n);
            match s[n - 1] {
                Some(c) => {
                    assert(Self::child_ok(c, nr, lv));
                    match c {
                        RTree::Leaf(x, _) => {
                            crate::rect::lemma_encloses_has_point(r, nr, x);
                        },
                        _ => {
                            lemma_encloses_transitive(r, nr, c.node_rect());
                        },
                    }
                    c.lemma_entries_inside(r);
                    assert forall|e: ([S; DIM], T)| #[trigger] Self::slots_entries(s, n).count(e) > 0 implies r.has_point(e.0) by {
                        if Self::slots_entries(s, n - 1).count(e) == 0 {
                            assert(c.entries().count(e) > 0);
                        }
                    }
                },
                None => {
                    assert(Self::slots_entries(s, n) =~= Self::slots_entries(s, n - 1));
                },
            }
        }
    }

    /// A well-formed node with children, or a leaf, holds at least one entry.
    pub proof fn lemma_entries_nonempty(self)
        requires
            self.wf(),
            self.is_node() ==> self.n_children() >= 1,
        ensures
            self.entries().len() > 0,
        decreases self, 0int,
    {
        match self {
            RTree::Leaf(x, v) => {
            },
            RTree::LeafNode(nr, c) => {
                lemma_filled_unique(c@, taken(c@));
                Self::lemma_slots_entries_nonempty(c@, nr, true, c@.len() as int);
            },
            RTree::InternalNode(nr, c) => {
                lemma_filled_unique(c@, taken(c@));
                Self::lemma_slots_entries_nonempty(c@, nr, false, c@.len() as int);
            },
        }
    }

    pub proof fn lemma_slots_entries_nonempty(s: Seq<Option<Self>>, nr: Rect<S, DIM>, lv: bool, n: int)
        requires
            Self::slots_wf(s, nr, lv, n),
            0 < n <= s.len(),
            s[0] is Some,
        ensures
            Self::slots_entries(s, n).len() > 0,
        decreases s, n,
    {
        if n > 1 {
            Self::lemma_slots_entries_nonempty(s, nr, lv, n - 1);
        } else {
            let c = s[0]->Some_0;
            assert(Self::child_ok(c, nr, lv));
            c.lemma_entries_nonempty();
        }
    }
}

impl<S: Scalar, T, const M: usize, const DIM: usize> Default for RTree<S, T, M, DIM> {
    /// An empty tree: a leaf node with free slots and the rectangle of the origin.
    fn default() -> (t: Self)
        ensures
            t is LeafNode,
            t.wf(),
            t.n_children() == 0,
            t.is_rtree(),
            t.node_rect().is_empty_rect(),
            t.entries() =~= Multiset::empty(),
    {
        let r = Rect::empty_rect();
        let mut c: Vec<Option<Self>> = Vec::new();
        while c.len() < M
            invariant
                c@.len() <= M,
                forall|i: int| 0 <= i < c@.len() ==> (#[trigger] c@[i]) is None,
            decreases M - c@.len(),
        {
            c.push(None);
        }
        proof {
            assert(filled(c@, 0));
            lemma_filled_unique(c@, 0);
            crate::rect::lemma_empty_rect(r, [S::spec_zero(); DIM]);
            Self::lemma_slots_wf_free(c@, r, true, c@.len() as int);
            Self::lemma_slots_entries_free(c@, 0, c@.len() as int);
            assert(filled(c@, 0));
            assert(RTree::<S, T, M, DIM>::LeafNode(r, c).wf());
            assert(RTree::<S, T, M, DIM>::LeafNode(r, c).balanced(1));
        }
        RTree::LeafNode(r, c)
    }
}

impl<S: Scalar, T, const M: usize, const DIM: usize> RTree<S, T, M, DIM> {
    /// One slot holds a fit child or nothing.
    pub open spec fn slot_ok(o: Option<Self>, r: Rect<S, DIM>, lv: bool) -> bool {
        match o {
            Some(c) => Self::child_ok(c, r, lv),
            None => true,
        }
    }

    /// The recursive definition of `slots_wf` says that every one of the first `n` slots is fine.
    pub proof fn lemma_slots_wf_iff(s: Seq<Option<Self>>, r: Rect<S, DIM>, lv: bool, n: int)
        requires
            0 <= n <= s.len(),
        ensures
            Self::slots_wf(s, r, lv, n) <==> forall|i: int| 0 <= i < n ==> #[trigger] Self::slot_ok(s[i], r, lv),
        decreases n,
    {
        if n > 0 {
            Self::lemma_slots_wf_iff(s, r, lv, n - 1);
            if Self::slots_wf(s, r, lv, n) {
                assert forall|i: int| 0 <= i < n implies #[trigger] Self::slot_ok(s[i], r, lv) by {
                    if i < n - 1 {
                        assert(Self::slot_ok(s[i], r, lv));
                    }
                }
            }
            if forall|i: int| 0 <= i < n ==> #[trigger] Self::slot_ok(s[i], r, lv) {
                assert(Self::slot_ok(s[n - 1], r, lv));
                assert forall|i: int| 0 <= i < n - 1 implies #[trigger] Self::slot_ok(s[i], r, lv) by {
                    assert(Self::slot_ok(s[i], r, lv));
                }
            }
        }
    }

    pub proof fn lemma_slots_wf_free(s: Seq<Option<Self>>, r: Rect<S, DIM>, lv: bool, n: int)
        requires
            n <= s.len(),
            forall|i: int| 0 <= i < n ==> (#[trigger] s[i]) is None,
        ensures
            Self::slots_wf(s, r, lv, n),
        decreases n,
    {
        if n > 0 {
            Self::lemma_slots_wf_free(s, r, lv, n - 1);
        }
    }
}

impl<S: Scalar, T, const M: usize, const DIM: usize> RTree<S, T, M, DIM> {
    /// Every leaf of the subtree lies `h` levels below it, and every node
    /// strictly below it holds at least `min_fill()` children.
    pub open spec fn balanced(self, h: int) -> bool
        decreases self, 0int,
    {
        match self {
            RTree::Leaf(_, _) => h == 0,
            RTree::LeafNode(_, _) => h == 1,
            RTree::InternalNode(_, c) => Self::slots_balanced(c@, h - 1, c@.len() as int),
        }
    }

    /// The subtrees in the first `n` slots are balanced at height `h`, and
    /// those that are nodes hold at least `min_fill()` children each.
    pub open spec fn slots_balanced(s: Seq<Option<Self>>, h: int, n: int) -> bool
        decreases s, n,
    {
        if n <= 0 || n > s.len() {
            true
        } else {
            &&& Self::slots_balanced(s, h, n - 1)
            &&& match s[n - 1] {
                Some(c) => c.balanced(h) && (c.is_node() ==> c.n_children() >= Self::min_fill()),
                None => true,
            }
        }
    }

    /// One slot holds nothing, or a subtree balanced at height `h` that, as a
    /// node, holds at least `min_fill()` children.
    pub open spec fn slot_balanced(o: Option<Self>, h: int) -> bool {
        match o {
            Some(c) => c.balanced(h) && (c.is_node() ==> c.n_children() >= Self::min_fill()),
            None => true,
        }
    }

    /// Every subtree of `v` can be a child at height `h` of a node below the root.
    pub open spec fn all_balanced(v: Seq<Self>, h: int) -> bool {
        forall|i: int| 0 <= i < v.len() ==> Self::slot_balanced(Some(#[trigger] v[i]), h)
    }

    /// A tree as `default` and `insert` build it: a well-formed node whose
    /// leaves all lie at one depth, whose nodes below the root hold at least
    /// `min_fill()` children each, and which, as an internal node, holds at
    /// least two.
    pub open spec fn is_rtree(self) -> bool {
        &&& self.wf_root()
        &&& exists|h: int| self.balanced(h)
        &&& (self is InternalNode ==> self.n_children() >= 2)
    }

    pub proof fn lemma_slots_balanced_iff(s: Seq<Option<Self>>, h: int, n: int)
        requires
            0 <= n <= s.len(),
        ensures
            Self::slots_balanced(s, h, n) <==> forall|i: int| 0 <= i < n ==> #[trigger] Self::slot_balanced(s[i], h),
        decreases n,
    {
        if n > 0 {
            Self::lemma_slots_balanced_iff(s, h, n - 1);
            if Self::slots_balanced(s, h, n) {
                assert forall|i: int| 0 <= i < n implies #[trigger] Self::slot_balanced(s[i], h) by {
                    if i < n - 1 {
                        assert(Self::slot_balanced(s[i], h));
                    }
                }
            }
            if forall|i: int| 0 <= i < n ==> #[trigger] Self::slot_balanced(s[i], h) {
                assert(Self::slot_balanced(s[n - 1], h));
                assert forall|i: int| 0 <= i < n - 1 implies #[trigger] Self::slot_balanced(s[i], h) by {
                    assert(Self::slot_balanced(s[i], h));
                }
            }
        }
    }
}

impl<S: Scalar, T, const M: usize, const DIM: usize> RTree<S, T, M, DIM> {
    /// Every subtree of `v` is a leaf.
    pub open spec fn all_leaves(v: Seq<Self>) -> bool {
        forall|i: int| 0 <= i < v.len() ==> (#[trigger] v[i]) is Leaf
    }

    /// Every subtree of `v` is a well-formed node with children.
    pub open spec fn all_subnodes(v: Seq<Self>) -> bool {
        forall|i: int| #![trigger v[i]] 0 <= i < v.len() ==> v[i].is_node() && v[i].wf() && v[i].n_children() >= 1
    }

    /// The subtrees of `v` can be the children of one node.
    pub open spec fn uniform(v: Seq<Self>) -> bool {
        Self::all_leaves(v) || Self::all_subnodes(v)
    }

    /// Every subtree of `v` lies inside `big`.
    pub open spec fn all_inside(v: Seq<Self>, big: Rect<S, DIM>) -> bool {
        forall|i: int| #![trigger v[i]] 0 <= i < v.len() ==> v[i].inside(big)
    }

    /// `r` is what `get_rect` returns for this subtree.
    pub open spec fn rect_is(self, r: Rect<S, DIM>) -> bool {
        match self {
            RTree::Leaf(x, _) => r.is_point_rect(x),
            _ => r == self.node_rect(),
        }
    }

    pub proof fn lemma_rect_is(self, r: Rect<S, DIM>, big: Rect<S, DIM>)
        requires
            self.rect_is(r),
        ensures
            self.inside(big) <==> big.encloses(r),
            self.wf() ==> r.valid(),
    {
        match self {
            RTree::Leaf(x, _) => {
                lemma_has_point_iff_encloses(big, r, x);
                lemma_point_rect(r, x, x);
            },
            _ => {
            },
        }
    }

    /// A subtree inside `r` is inside every rectangle that encloses `r`.
    pub proof fn lemma_inside_grow(self, r: Rect<S, DIM>, big: Rect<S, DIM>)
        requires
            self.inside(r),
            big.encloses(r),
        ensures
            self.inside(big),
    {
        match self {
            RTree::Leaf(x, _) => {
                crate::rect::lemma_encloses_has_point(big, r, x);
            },
            _ => {
                lemma_encloses_transitive(big, r, self.node_rect());
            },
        }
    }

    /// The subtrees in the taken slots of a node, in slot order.
    pub open spec fn children(self) -> Seq<Self> {
        Seq::new(self.n_children() as nat, |i: int| self.slots()[i]->Some_0)
    }

    /// The interval on `axis` of the rectangle got by merging, from the left,
    /// the rectangle of `v[0]` with those of `v[0]`, ..., `v[n - 1]`.
    pub open spec fn span(v: Seq<Self>, axis: int, n: int) -> (S, S)
        decreases n,
    {
        if n <= 0 {
            v[0].key(axis)
        } else {
            let a = Self::span(v, axis, n - 1);
            let b = v[n - 1].key(axis);
            (smin(a.0, b.0), smax(a.1, b.1))
        }
    }

    /// A node whose children are the subtrees of `v`, in order, with the
    /// smallest rectangle that holds them; an empty tree if `v` is empty.
    fn from_vec(v: Vec<Self>) -> (t: Self)
        requires
            v@.len() <= M,
            Self::uniform(v@),
        ensures
            t.wf(),
            t.is_node(),
            t.entries() == seq_entries(v@),
            t.n_children() == v@.len(),
            t.slots().len() == M,
            forall|i: int| 0 <= i < v@.len() ==> #[trigger] t.slots()[i] == Some(v@[i]),
            forall|i: int| v@.len() <= i < M ==> (#[trigger] t.slots()[i]) is None,
            t.children() == v@,
            v@.len() > 0 ==> forall|h: int| #[trigger] Self::all_balanced(v@, h) ==> t.balanced(h + 1),
            v@.len() > 0 ==> forall|a: int| 0 <= a < DIM ==> #[trigger] t.node_rect().0[a] == Self::span(v@, a, v@.len() as int),
            v@.len() > 0 ==> (t is LeafNode <==> Self::all_leaves(v@)),
            v@.len() > 0 ==> forall|big: Rect<S, DIM>| Self::all_inside(v@, big) ==> #[trigger] t.inside(big),
    {
        if v.len() == 0 {
            let t = Self::default();
            proof {
                assert(seq_entries(v@) =~= Multiset::empty());
                lemma_filled_unique(t.slots(), 0);
                assert(t.children() =~= v@);
            }
            return t;
        }
        let ghost v0 = v@;
        let mut bb = v[0].get_rect();
        proof {
            v0[0].lemma_rect_is(bb, bb);
            if Self::all_subnodes(v0) {
                assert(v0[0].wf());
            }
            assert forall|big: Rect<S, DIM>| Self::all_inside(v0, big) implies big.encloses(bb) by {
                assert(v0[0].inside(big));
                v0[0].lemma_rect_is(bb, big);
            }
            assert forall|a: int| 0 <= a < DIM implies #[trigger] bb.0[a] == Self::span(v0, a, 0) by {
            }
        }
        for i in 0..v.len()
            invariant
                v@ == v0,
                Self::uniform(v0),
                bb.valid(),
                forall|a: int| 0 <= a < DIM ==> #[trigger] bb.0[a] == Self::span(v0, a, i as int),
                forall|j: int| 0 <= j < i ==> #[trigger] v0[j].inside(bb),
                forall|big: Rect<S, DIM>| Self::all_inside(v0, big) ==> #[trigger] big.encloses(bb),
        {
            let ri = v[i].get_rect();
            let nb = Rect::merge(&bb, &ri);
            proof {
                crate::rect::lemma_merge(nb, bb, ri);
                v0[i as int].lemma_rect_is(ri, nb);
                assert forall|j: int| 0 <= j <= i implies #[trigger] v0[j].inside(nb) by {
                    if j < i {
                        v0[j].lemma_inside_grow(bb, nb);
                    }
                }
                assert forall|big: Rect<S, DIM>| Self::all_inside(v0, big) implies #[trigger] big.encloses(nb) by {
                    assert(v0[i as int].inside(big));
                    v0[i as int].lemma_rect_is(ri, big);
                }
                assert forall|a: int| 0 <= a < DIM implies #[trigger] nb.0[a] == Self::span(v0, a, i + 1) by {
                    assert(ri.0[a] == v0[i as int].key(a));
                    assert(bb.0[a] == Self::span(v0, a, i as int));
                }
            }
            bb = nb;
        }
        let mut leaf = true;
        for i in 0..v.len()
            invariant
                v@ == v0,
                leaf == (forall|j: int| 0 <= j < i ==> (#[trigger] v0[j]) is Leaf),
        {
            if !v[i].is_leaf() {
                leaf = false;
            }
        }
        let n = v.len();
        let mut v = v;
        let mut children: Vec<Option<Self>> = Vec::new();
        while v.len() > 0
            invariant
                children@.len() + v@.len() == n,
                n == v0.len(),
                v@ == v0.subrange(children@.len() as int, n as int),
                forall|j: int| 0 <= j < children@.len() ==> #[trigger] children@[j] == Some(v0[j]),
            decreases v@.len(),
        {
            let x = v.remove(0);
            children.push(Some(x));
        }
        while children.len() < M
            invariant
                n <= children@.len() <= M,
                n == v0.len(),
                forall|j: int| 0 <= j < n ==> #[trigger] children@[j] == Some(v0[j]),
                forall|j: int| n <= j < children@.len() ==> (#[trigger] children@[j]) is None,
            decreases M - children@.len(),
        {
            children.push(None);
        }
        proof {
            assert(filled(children@, n as int));
            lemma_filled_unique(children@, n as int);
            assert forall|i: int| 0 <= i < M implies #[trigger] Self::slot_ok(children@[i], bb, leaf) by {
                if i < n {
                    let c = v0[i];
                    assert(children@[i] == Some(c));
                    if !leaf {
                        assert(!Self::all_leaves(v0));
                        assert(c.is_node() && c.wf() && c.n_children() >= 1);
                    }
                }
            }
            Self::lemma_slots_wf_iff(children@, bb, leaf, M as int);
            Self::lemma_slots_entries_free(children@, n as int, M as int);
            Self::lemma_slots_entries_of_seq(children@, v0, n as int);
            assert(v0.take(n as int) =~= v0);
            if leaf {
                assert(Self::all_leaves(v0));
            }
            let t = RTree::<S, T, M, DIM>::LeafNode(bb, children);
            assert(t.children() =~= v0);
            let u = RTree::<S, T, M, DIM>::InternalNode(bb, children);
            assert(u.children() =~= v0);
            assert forall|h: int| #[trigger] Self::all_balanced(v0, h) implies (if leaf { t } else { u }).balanced(h + 1) by {
                if leaf {
                    assert(v0[0] is Leaf);
                    assert(Self::slot_balanced(Some(v0[0]), h));
                } else {
                    assert forall|i: int| 0 <= i < M implies #[trigger] Self::slot_balanced(children@[i], h) by {
                        if i < n {
                            assert(Self::slot_balanced(Some(v0[i]), h));
                        }
                    }
                    Self::lemma_slots_balanced_iff(children@, h, M as int);
                }
            }
        }
        if leaf {
            RTree::LeafNode(bb, children)
        } else {
            RTree::InternalNode(bb, children)
        }
    }
}

/// `a + r = b + e` follows from `a + c = b + l` and `l + r = c + e`.
pub proof fn lemma_multiset_exchange<A>(a: Multiset<A>, b: Multiset<A>, c: Multiset<A>, l: Multiset<A>, r: Multiset<A>, e: Multiset<A>)
    requires
        a.add(c) == b.add(l),
        l.add(r) == c.add(e),
    ensures
        a.add(r) == b.add(e),
{
    assert forall|x: A| #[trigger] a.add(r).count(x) == b.add(e).count(x) by {
        assert(a.add(c).count(x) == b.add(l).count(x));
        assert(l.add(r).count(x) == c.add(e).count(x));
        assert(a.add(c).count(x) == a.count(x) + c.count(x));
        assert(b.add(l).count(x) == b.count(x) + l.count(x));
        assert(l.add(r).count(x) == l.count(x) + r.count(x));
        assert(c.add(e).count(x) == c.count(x) + e.count(x));
        assert(a.add(r).count(x) == a.count(x) + r.count(x));
        assert(b.add(e).count(x) == b.count(x) + e.count(x));
    }
    assert(a.add(r) =~= b.add(e));
}

pub proof fn lemma_seq_entries_push<S: Scalar, T, const M: usize, const DIM: usize>(s: Seq<RTree<S, T, M, DIM>>, x: RTree<S, T, M, DIM>)
    ensures
        seq_entries(s.push(x)) == seq_entries(s).add(x.entries()),
{
    assert(s.push(x).drop_last() =~= s);
}

pub proof fn lemma_seq_entries_remove<S: Scalar, T, const M: usize, const DIM: usize>(s: Seq<RTree<S, T, M, DIM>>, i: int)
    requires
        0 <= i < s.len(),
    ensures
        seq_entries(s.remove(i)).add(s[i].entries()) =~= seq_entries(s),
    decreases s.len(),
{
    if i == s.len() - 1 {
        assert(s.remove(i) =~= s.drop_last());
    } else {
        lemma_seq_entries_remove(s.drop_last(), i);
        assert(s.drop_last().remove(i) =~= s.remove(i).drop_last());
        assert(s.remove(i).last() == s.last());
        assert(s.drop_last()[i] == s[i]);
    }
}

impl<S: Scalar, T, const M: usize, const DIM: usize> RTree<S, T, M, DIM> {
    /// The interval of the subtree's rectangle on `axis`, by which splits sort.
    pub open spec fn key(self, axis: int) -> (S, S) {
        match self {
            RTree::Leaf(x, _) => (x[axis], x[axis]),
            _ => self.node_rect().0[axis],
        }
    }

    fn key_exec(&self, axis: usize) -> (k: (S, S))
        requires
            axis < DIM,
        ensures
            k == self.key(axis as int),
    {
        self.get_rect().0[axis]
    }

    /// The first position among `s[0..n]` whose interval on `axis` is least
    /// (lexicographically); 0 where `n <= 1`.
    pub open spec fn first_least(s: Seq<Self>, axis: int, n: int) -> int
        decreases n,
    {
        if n <= 1 {
            0
        } else {
            let b = Self::first_least(s, axis, n - 1);
            if pair_le(s[b].key(axis), s[n - 1].key(axis)) {
                b
            } else {
                n - 1
            }
        }
    }

    pub proof fn lemma_first_least_range(s: Seq<Self>, axis: int, n: int)
        requires
            1 <= n,
        ensures
            0 <= Self::first_least(s, axis, n) < n,
        decreases n,
    {
        if n > 1 {
            Self::lemma_first_least_range(s, axis, n - 1);
        }
    }

    /// `s` ordered by the intervals on `axis`, lexicographically, equal ones
    /// keeping their order: the first least subtree, then the rest so ordered.
    pub open spec fn sorted_by_axis(s: Seq<Self>, axis: int) -> Seq<Self>
        decreases s.len(),
    {
        let b = Self::first_least(s, axis, s.len() as int);
        if s.len() == 0 || b < 0 || b >= s.len() {
            s
        } else {
            seq![s[b]] + Self::sorted_by_axis(s.remove(b), axis)
        }
    }

    /// The subtrees of `w` ordered by their interval on `axis` (lexicographically),
    /// equal ones keeping their order.
    fn sort_by_axis(w: Vec<Self>, axis: usize) -> (res: Vec<Self>)
        requires
            axis < DIM,
        ensures
            res@ == Self::sorted_by_axis(w@, axis as int),
            res@.len() == w@.len(),
            res@.to_multiset() == w@.to_multiset(),
            seq_entries(res@) == seq_entries(w@),
            forall|i: int| 0 <= i < res@.len() ==> w@.contains(#[trigger] res@[i]),
            forall|a: int, b: int|
                0 <= a < b < res@.len() ==> pair_le(
                    (#[trigger] res@[a]).key(axis as int),
                    (#[trigger] res@[b]).key(axis as int),
                ),
    {
        let ghost w0 = w@;
        let mut w = w;
        let mut res: Vec<Self> = Vec::new();
        proof {
            broadcast use vstd::seq_lib::group_to_multiset_ensures;
            assert(seq_entries(res@) =~= Multiset::empty());
            assert(seq_entries(res@).add(seq_entries(w@)) =~= seq_entries(w0));
            assert(res@.to_multiset().add(w@.to_multiset()) =~= w0.to_multiset());
            assert(res@ + Self::sorted_by_axis(w@, axis as int) =~= Self::sorted_by_axis(w0, axis as int));
        }
        while w.len() > 0
            invariant
                axis < DIM,
                res@.len() + w@.len() == w0.len(),
                res@ + Self::sorted_by_axis(w@, axis as int) == Self::sorted_by_axis(w0, axis as int),
                res@.to_multiset().add(w@.to_multiset()) == w0.to_multiset(),
                seq_entries(res@).add(seq_entries(w@)) == seq_entries(w0),
                forall|i: int| 0 <= i < res@.len() ==> w0.contains(#[trigger] res@[i]),
                forall|i: int| 0 <= i < w@.len() ==> w0.contains(#[trigger] w@[i]),
                forall|a: int, b: int|
                    0 <= a < b < res@.len() ==> pair_le(
                        (#[trigger] res@[a]).key(axis as int),
                        (#[trigger] res@[b]).key(axis as int),
                    ),
                forall|a: int, j: int|
                    0 <= a < res@.len() && 0 <= j < w@.len() ==> pair_le(
                        (#[trigger] res@[a]).key(axis as int),
                        (#[trigger] w@[j]).key(axis as int),
                    ),
            decreases w@.len(),
        {
            let mut best: usize = 0;
            let mut best_key = w[0].key_exec(axis);
            proof {
                lemma_pair_le_total(best_key, best_key);
            }
            for j in 1..w.len()
                invariant
                    axis < DIM,
                    best < j <= w@.len(),
                    best == Self::first_least(w@, axis as int, j as int),
                    best_key == w@[best as int].key(axis as int),
                    forall|k: int| 0 <= k < j ==> pair_le(best_key, #[trigger] w@[k].key(axis as int)),
            {
                let kj = w[j].key_exec(axis);
                if !pair_is_le(&best_key, &kj) {
                    proof {
                        lemma_pair_le_total(best_key, kj);
                        lemma_pair_le_total(kj, kj);
                        assert forall|k: int| 0 <= k < j + 1 implies pair_le(kj, #[trigger] w@[k].key(axis as int)) by {
                            if k < j {
                                lemma_pair_le_transitive(kj, best_key, w@[k].key(axis as int));
                            }
                        }
                    }
                    best = j;
                    best_key = kj;
                }
            }
            let ghost wb = w@;
            let ghost rb = res@;
            let x = w.remove(best);
            proof {
                assert(Self::sorted_by_axis(wb, axis as int) == seq![wb[best as int]] + Self::sorted_by_axis(wb.remove(best as int), axis as int));
                assert(rb.push(x) + Self::sorted_by_axis(w@, axis as int) =~= rb + Self::sorted_by_axis(wb, axis as int));
                broadcast use vstd::seq_lib::group_to_multiset_ensures;
                assert(wb.contains(x));
                assert(rb.push(x).to_multiset().add(w@.to_multiset()) =~= w0.to_multiset());
                lemma_seq_entries_remove(wb, best as int);
                lemma_seq_entries_push(rb, x);
                assert(seq_entries(res@.push(x)).add(seq_entries(w@)) =~= seq_entries(w0));
                assert(w0.contains(x));
                assert forall|i: int| 0 <= i < w@.len() implies w0.contains(#[trigger] w@[i]) by {
                    if i < best {
                        assert(w@[i] == wb[i]);
                    } else {
                        assert(w@[i] == wb[i + 1]);
                    }
                }
                assert forall|a: int, j: int|
                    0 <= a < rb.len() + 1 && 0 <= j < w@.len() implies pair_le(
                        (#[trigger] rb.push(x)[a]).key(axis as int),
                        (#[trigger] w@[j]).key(axis as int),
                    ) by {
                    let jj = if j < best { j } else { j + 1 };
                    assert(w@[j] == wb[jj]);
                    if a < rb.len() {
                        assert(rb.push(x)[a] == rb[a]);
                    }
                }
                assert forall|a: int, b: int|
                    0 <= a < b < rb.len() + 1 implies pair_le(
                        (#[trigger] rb.push(x)[a]).key(axis as int),
                        (#[trigger] rb.push(x)[b]).key(axis as int),
                    ) by {
                    assert(rb.push(x)[a] == rb[a]);
                    if b < rb.len() {
                        assert(rb.push(x)[b] == rb[b]);
                    } else {
                        assert(wb[best as int] == x);
                    }
                }
            }
            res.push(x);
        }
        proof {
            broadcast use vstd::seq_lib::group_to_multiset_ensures;
            assert(seq_entries(w@) =~= Multiset::empty());
            assert(seq_entries(res@) =~= seq_entries(w0));
            assert(res@.to_multiset() =~= w0.to_multiset());
            assert(Self::sorted_by_axis(w@, axis as int) =~= Seq::<Self>::empty());
            assert(res@ =~= res@ + Self::sorted_by_axis(w@, axis as int));
        }
        res
    }
}

pub proof fn lemma_seq_entries_split<S: Scalar, T, const M: usize, const DIM: usize>(s: Seq<RTree<S, T, M, DIM>>, k: int)
    requires
        0 <= k <= s.len(),
    ensures
        seq_entries(s.subrange(0, k)).add(seq_entries(s.subrange(k, s.len() as int))) =~= seq_entries(s),
    decreases s.len(),
{
    if k == s.len() {
        assert(s.subrange(0, k) =~= s);
        assert(seq_entries(s.subrange(k, s.len() as int)) =~= Multiset::empty());
    } else {
        let d = s.drop_last();
        lemma_seq_entries_split(d, k);
        assert(d.subrange(0, k) =~= s.subrange(0, k));
        assert(s.subrange(k, s.len() as int).drop_last() =~= d.subrange(k, d.len() as int));
        assert(s.subrange(k, s.len() as int).last() == s.last());
    }
}

impl<S: Scalar, T, const M: usize, const DIM: usize> RTree<S, T, M, DIM> {
    /// The intervals of the subtree's rectangle, axis by axis.
    pub open spec fn segs(self) -> Seq<(S, S)> {
        Seq::new(DIM as nat, |a: int| self.key(a))
    }

    /// Axis by axis, the smallest interval that holds those of `x` and `y`.
    pub open spec fn merge_segs(x: Seq<(S, S)>, y: Seq<(S, S)>) -> Seq<(S, S)> {
        Seq::new(DIM as nat, |a: int| (smin(x[a].0, y[a].0), smax(x[a].1, y[a].1)))
    }

    /// Axis by axis, the intersection of the intervals of `x` and `y`, as `Rect::inter` takes it.
    pub open spec fn inter_segs(x: Seq<(S, S)>, y: Seq<(S, S)>) -> Seq<(S, S)> {
        Seq::new(DIM as nat, |a: int| spec_segments_intersection(x[a], y[a]))
    }

    /// The box of the first group at cut candidate `i` (from 1): the
    /// rectangle of `w[0]` merged, in turn, with those of `w[m - 1]`, ...,
    /// `w[m + i - 2]`.
    pub open spec fn first_box(w: Seq<Self>, m: int, i: int) -> Seq<(S, S)>
        decreases i,
    {
        if i <= 0 {
            w[0].segs()
        } else {
            Self::merge_segs(Self::first_box(w, m, i - 1), w[m + i - 2].segs())
        }
    }

    /// The rectangle of `w[0]` merged, in turn, with those of `w[start]`, ..., `w[end - 1]`.
    pub open spec fn tail_box(w: Seq<Self>, start: int, end: int) -> Seq<(S, S)>
        decreases end - start,
    {
        if end <= start {
            w[0].segs()
        } else {
            Self::merge_segs(Self::tail_box(w, start, end - 1), w[end - 1].segs())
        }
    }

    /// The score of cut candidate `i` of `w`, at the cut `m - 1 + i`: the
    /// margins of the two boxes added up, and the volume of their overlap.
    /// The second box is that of `w[0]` and of the subtrees from the cut on.
    pub open spec fn cut_score(w: Seq<Self>, m: int, i: int) -> (S, S) {
        let f = Self::first_box(w, m, i);
        let g = Self::tail_box(w, m - 1 + i, w.len() as int);
        (
            margin_upto(f, DIM as int).spec_plus(margin_upto(g, DIM as int)),
            volume_upto(Self::inter_segs(f, g), DIM as int),
        )
    }

    /// The best of the cut candidates `1..=n` of `w`, with its score: the
    /// least score by `pair_le`, a later candidate winning a tie; the cut `m`
    /// with an infinite score where `n` is 0.
    pub open spec fn best_cut(w: Seq<Self>, m: int, n: int) -> (int, (S, S))
        decreases n,
    {
        if n <= 0 {
            (m, (S::spec_infinity(), S::spec_infinity()))
        } else {
            let prev = Self::best_cut(w, m, n - 1);
            let sc = Self::cut_score(w, m, n);
            if pair_le(sc, prev.1) {
                (m - 1 + n, sc)
            } else {
                prev
            }
        }
    }

    /// The margins of the cut candidates `1..=n` of `w`, added up from the left.
    pub open spec fn total_margin(w: Seq<Self>, m: int, n: int) -> S
        decreases n,
    {
        if n <= 0 {
            S::spec_zero()
        } else {
            Self::total_margin(w, m, n - 1).spec_plus(Self::cut_score(w, m, n).0)
        }
    }

    /// The number of cut candidates of `M + 1` subtrees: the cuts that leave
    /// at least `min_fill()` subtrees on each side.
    pub open spec fn cut_count() -> int {
        M - 2 * Self::min_fill() + 2
    }

    /// `w` sorted along axis 0, then that along axis 1, ..., up to axis `n - 1`.
    pub open spec fn sorted_upto(w: Seq<Self>, n: int) -> Seq<Self>
        decreases n,
    {
        if n <= 0 {
            w
        } else {
            Self::sorted_by_axis(Self::sorted_upto(w, n - 1), n - 1)
        }
    }

    /// The axis chosen among axes `0..n` for splitting `w`, with its total
    /// margin and its best cut: each axis is scored on `w` sorted along the
    /// axes up to it; the least total margin wins, a later axis winning a tie.
    pub open spec fn axis_choice(w: Seq<Self>, n: int) -> (int, S, int)
        decreases n,
    {
        if n <= 0 {
            (0, S::spec_infinity(), 1)
        } else {
            let prev = Self::axis_choice(w, n - 1);
            let ws = Self::sorted_upto(w, n);
            let tm = Self::total_margin(ws, Self::min_fill(), Self::cut_count());
            if tm.le(prev.1) {
                (n - 1, tm, Self::best_cut(ws, Self::min_fill(), Self::cut_count()).0)
            } else {
                prev
            }
        }
    }

    /// The order in which `w` is cut: sorted along all axes in turn, then along the chosen one.
    pub open spec fn split_order(w: Seq<Self>) -> Seq<Self> {
        Self::sorted_by_axis(Self::sorted_upto(w, DIM as int), Self::axis_choice(w, DIM as int).0)
    }

    /// The first group's box at cut candidate `i` is the box of `w[0]` and
    /// of the subtrees `w[m - 1]`, ..., `w[m + i - 2]`.
    pub proof fn lemma_first_box_is_tail_box(w: Seq<Self>, m: int, i: int)
        requires
            0 <= i,
        ensures
            Self::first_box(w, m, i) == Self::tail_box(w, m - 1, m - 1 + i),
        decreases i,
    {
        if i > 0 {
            Self::lemma_first_box_is_tail_box(w, m, i - 1);
        }
    }

    /// A box that scores a cut holds the subtrees it groups, `w[0]` and
    /// `w[start]`, ..., `w[end - 1]`: on every axis its interval holds each
    /// of theirs.
    pub proof fn lemma_tail_box_bounds(w: Seq<Self>, start: int, end: int)
        requires
            0 <= start <= end <= w.len(),
            1 <= w.len(),
        ensures
            forall|a: int, j: int|
                0 <= a < DIM && (j == 0 || start <= j < end) ==> (#[trigger] Self::tail_box(w, start, end)[a]).0.le(
                    (#[trigger] w[j].key(a)).0,
                ) && w[j].key(a).1.le(Self::tail_box(w, start, end)[a].1),
        decreases end - start,
    {
        let tb = Self::tail_box(w, start, end);
        if end <= start {
            assert forall|a: int, j: int|
                0 <= a < DIM && (j == 0 || start <= j < end) implies (#[trigger] tb[a]).0.le((#[trigger] w[j].key(a)).0)
                && w[j].key(a).1.le(tb[a].1) by {
                S::le_reflexive(w[0].key(a).0);
                S::le_reflexive(w[0].key(a).1);
            }
        } else {
            Self::lemma_tail_box_bounds(w, start, end - 1);
            let pb = Self::tail_box(w, start, end - 1);
            assert forall|a: int, j: int|
                0 <= a < DIM && (j == 0 || start <= j < end) implies (#[trigger] tb[a]).0.le((#[trigger] w[j].key(a)).0)
                && w[j].key(a).1.le(tb[a].1) by {
                let x = w[end - 1].key(a);
                assert(tb[a] == (smin(pb[a].0, x.0), smax(pb[a].1, x.1)));
                crate::scalar::lemma_min_max(pb[a].0, x.0);
                crate::scalar::lemma_min_max(pb[a].1, x.1);
                if j != end - 1 {
                    assert(pb[a].0.le(w[j].key(a).0) && w[j].key(a).1.le(pb[a].1));
                    S::le_transitive(tb[a].0, pb[a].0, w[j].key(a).0);
                    S::le_transitive(w[j].key(a).1, pb[a].1, tb[a].1);
                }
            }
        }
    }

    /// On every axis, the low end of a box that scores a cut is the low end
    /// of the interval of one of the subtrees it groups.
    pub proof fn lemma_tail_box_low_end(w: Seq<Self>, start: int, end: int, a: int)
        requires
            0 <= start <= end <= w.len(),
            1 <= w.len(),
            0 <= a < DIM,
        ensures
            exists|j: int| (j == 0 || start <= j < end) && Self::tail_box(w, start, end)[a].0 == (#[trigger] w[j].key(a)).0,
        decreases end - start,
    {
        if end <= start {
            assert(Self::tail_box(w, start, end)[a].0 == w[0int].key(a).0);
        } else {
            let x = w[end - 1].key(a);
            let pb = Self::tail_box(w, start, end - 1);
            crate::scalar::lemma_min_max(pb[a].0, x.0);
            assert(Self::tail_box(w, start, end)[a].0 == smin(pb[a].0, x.0));
            if smin(pb[a].0, x.0) == x.0 {
                assert(Self::tail_box(w, start, end)[a].0 == w[end - 1].key(a).0);
            } else {
                Self::lemma_tail_box_low_end(w, start, end - 1, a);
                let j = choose|j: int| (j == 0 || start <= j < end - 1) && pb[a].0 == (#[trigger] w[j].key(a)).0;
                assert(Self::tail_box(w, start, end)[a].0 == w[j].key(a).0);
            }
        }
    }

    /// On every axis, the high end of a box that scores a cut is the high
    /// end of the interval of one of the subtrees it groups.
    pub proof fn lemma_tail_box_high_end(w: Seq<Self>, start: int, end: int, a: int)
        requires
            0 <= start <= end <= w.len(),
            1 <= w.len(),
            0 <= a < DIM,
        ensures
            exists|j: int| (j == 0 || start <= j < end) && Self::tail_box(w, start, end)[a].1 == (#[trigger] w[j].key(a)).1,
        decreases end - start,
    {
        if end <= start {
            assert(Self::tail_box(w, start, end)[a].1 == w[0int].key(a).1);
        } else {
            let x = w[end - 1].key(a);
            let pb = Self::tail_box(w, start, end - 1);
            crate::scalar::lemma_min_max(pb[a].1, x.1);
            assert(Self::tail_box(w, start, end)[a].1 == smax(pb[a].1, x.1));
            if smax(pb[a].1, x.1) == x.1 {
                assert(Self::tail_box(w, start, end)[a].1 == w[end - 1].key(a).1);
            } else {
                Self::lemma_tail_box_high_end(w, start, end - 1, a);
                let j = choose|j: int| (j == 0 || start <= j < end - 1) && pb[a].1 == (#[trigger] w[j].key(a)).1;
                assert(Self::tail_box(w, start, end)[a].1 == w[j].key(a).1);
            }
        }
    }

    /// The best of the cut candidates `1..=n` is one of them, and its score
    /// is at most that of every candidate (lexicographically by margin, then
    /// overlap).
    pub proof fn lemma_best_cut_least(w: Seq<Self>, m: int, n: int)
        requires
            1 <= n,
        ensures
            1 <= Self::best_cut(w, m, n).0 - m + 1 <= n,
            Self::best_cut(w, m, n).1 == Self::cut_score(w, m, Self::best_cut(w, m, n).0 - m + 1),
            forall|i: int| 1 <= i <= n ==> pair_le(Self::best_cut(w, m, n).1, #[trigger] Self::cut_score(w, m, i)),
        decreases n,
    {
        let sc = Self::cut_score(w, m, n);
        let prev = Self::best_cut(w, m, n - 1);
        lemma_pair_le_total(sc, prev.1);
        lemma_pair_le_total(sc, sc);
        if n == 1 {
            S::infinity_greatest(sc.0);
            S::infinity_greatest(sc.1);
            assert(pair_le(sc, prev.1));
        } else {
            Self::lemma_best_cut_least(w, m, n - 1);
            if pair_le(sc, prev.1) {
                assert forall|i: int| 1 <= i <= n implies pair_le(sc, #[trigger] Self::cut_score(w, m, i)) by {
                    if i < n {
                        lemma_pair_le_transitive(sc, prev.1, Self::cut_score(w, m, i));
                    }
                }
            }
        }
    }

    /// The axis chosen among axes `0..n` has a total margin no greater than
    /// that of any of them, each scored on the subtrees sorted along the axes
    /// up to it, and the cut chosen with it is that axis's best cut.
    pub proof fn lemma_axis_choice_least(w: Seq<Self>, n: int)
        requires
            1 <= n,
        ensures
            0 <= Self::axis_choice(w, n).0 < n,
            Self::axis_choice(w, n).1 == Self::total_margin(
                Self::sorted_upto(w, Self::axis_choice(w, n).0 + 1),
                Self::min_fill(),
                Self::cut_count(),
            ),
            Self::axis_choice(w, n).2 == Self::best_cut(
                Self::sorted_upto(w, Self::axis_choice(w, n).0 + 1),
                Self::min_fill(),
                Self::cut_count(),
            ).0,
            forall|a: int|
                0 <= a < n ==> Self::axis_choice(w, n).1.le(
                    #[trigger] Self::total_margin(Self::sorted_upto(w, a + 1), Self::min_fill(), Self::cut_count()),
                ),
        decreases n,
    {
        let tm = Self::total_margin(Self::sorted_upto(w, n), Self::min_fill(), Self::cut_count());
        let prev = Self::axis_choice(w, n - 1);
        S::le_total(tm, prev.1);
        S::le_reflexive(tm);
        if n == 1 {
            S::infinity_greatest(tm);
        } else {
            Self::lemma_axis_choice_least(w, n - 1);
            if tm.le(prev.1) {
                assert forall|a: int| 0 <= a < n implies tm.le(
                    #[trigger] Self::total_margin(Self::sorted_upto(w, a + 1), Self::min_fill(), Self::cut_count()),
                ) by {
                    if a < n - 1 {
                        S::le_transitive(
                            tm,
                            prev.1,
                            Self::total_margin(Self::sorted_upto(w, a + 1), Self::min_fill(), Self::cut_count()),
                        );
                    }
                }
            } else {
                assert forall|a: int| 0 <= a < n implies prev.1.le(
                    #[trigger] Self::total_margin(Self::sorted_upto(w, a + 1), Self::min_fill(), Self::cut_count()),
                ) by {
                    if a == n - 1 {
                        assert(Self::sorted_upto(w, a + 1) == Self::sorted_upto(w, n));
                    }
                }
            }
        }
    }

    proof fn lemma_rect_segs(t: Self, r: Rect<S, DIM>)
        requires
            t.rect_is(r),
        ensures
            r.0@ == t.segs(),
    {
        assert(r.0@ =~= t.segs());
    }

    /// Scores the cut candidates of the sorted subtrees `w`: their total
    /// margin and the best cut.
    fn score_axis(w: &Vec<Self>, m: usize) -> (res: (S, usize))
        requires
            M >= 2,
            w@.len() == M + 1,
            m == Self::min_fill(),
            1 <= m,
            2 * m <= M,
        ensures
            res.0 == Self::total_margin(w@, m as int, Self::cut_count()),
            res.1 == Self::best_cut(w@, m as int, Self::cut_count()).0,
            m <= res.1 <= M + 1 - m,
    {
        let mut best_split_index = m;
        let mut best_margin_overlap = (S::infinity(), S::infinity());
        let mut total_margin = S::zero();
        let mut first_bbox = w[0].get_rect();
        proof {
            Self::lemma_rect_segs(w@[0], first_bbox);
        }
        let upper = M - 2 * m + 2;
        for i in 1..upper + 1
            invariant
                1 <= m,
                2 * m <= M,
                m == Self::min_fill(),
                upper == M - 2 * m + 2,
                w@.len() == M + 1,
                m <= best_split_index <= M - m + 1,
                first_bbox.0@ == Self::first_box(w@, m as int, i - 1),
                (best_split_index as int, best_margin_overlap) == Self::best_cut(w@, m as int, i - 1),
                total_margin == Self::total_margin(w@, m as int, i - 1),
        {
            let ri = w[m - 1 + i - 1].get_rect();
            let fb = Rect::merge(&first_bbox, &ri);
            proof {
                Self::lemma_rect_segs(w@[m - 1 + i - 1], ri);
                assert(fb.0@ =~= Self::first_box(w@, m as int, i as int));
            }
            first_bbox = fb;
            let mut second_bbox = w[0].get_rect();
            proof {
                Self::lemma_rect_segs(w@[0], second_bbox);
            }
            for j in (m - 1 + i)..w.len()
                invariant
                    w@.len() == M + 1,
                    m - 1 + i <= j,
                    second_bbox.0@ == Self::tail_box(w@, (m - 1 + i) as int, j as int),
            {
                let rj = w[j].get_rect();
                let sb = Rect::merge(&second_bbox, &rj);
                proof {
                    Self::lemma_rect_segs(w@[j as int], rj);
                    assert(sb.0@ =~= Self::tail_box(w@, (m - 1 + i) as int, j + 1));
                }
                second_bbox = sb;
            }
            let margin = first_bbox.margin().plus(&second_bbox.margin());
            let it = first_bbox.inter(&second_bbox);
            proof {
                assert(it.0@ =~= Self::inter_segs(first_bbox.0@, second_bbox.0@));
            }
            let overlap = it.volume();
            proof {
                assert((margin, overlap) == Self::cut_score(w@, m as int, i as int));
            }
            if pair_is_le(&(margin, overlap), &best_margin_overlap) {
                best_margin_overlap = (margin, overlap);
                best_split_index = m - 1 + i;
            }
            total_margin = total_margin.plus(&margin);
        }
        (total_margin, best_split_index)
    }

    /// The least number of children of a node below the root: `2 * M / 5`,
    /// and at least one.
    pub open spec fn min_fill() -> int {
        if (2 * M as int) / 5 > 1 {
            (2 * M as int) / 5
        } else {
            1
        }
    }

    /// No child of `l` comes after a child of `r` in the order of their
    /// intervals on `axis`: the two nodes are a cut of that order.
    pub open spec fn cut_along(l: Self, r: Self, axis: int) -> bool {
        forall|i: int, j: int|
            0 <= i < l.n_children() && 0 <= j < r.n_children() ==> pair_le(
                (#[trigger] l.children()[i]).key(axis),
                (#[trigger] r.children()[j]).key(axis),
            )
    }

    /// The subtrees held by slots that are all taken.
    pub open spec fn kids(s: Seq<Option<Self>>) -> Seq<Self> {
        Seq::new(s.len(), |i: int| s[i]->Some_0)
    }

    /// Splits the `M` children in `vec` and the extra subtree `t` in two
    /// groups, each made a node.  For each axis the subtrees are sorted by
    /// their interval on that axis and the candidate split points are scored
    /// by margin, then overlap; the axis with the least total margin wins and
    /// the subtrees, sorted along it, are cut at its best split point
    /// (`split_order`, `axis_choice`).  Each of the two nodes gets at least
    /// `min_fill()` of the `M + 1` subtrees.
    #[verifier::rlimit(80)]
    fn split(vec: Vec<Option<Self>>, t: Self) -> (res: (Self, Self))
        requires
            M >= 2,
            DIM >= 1,
            vec@.len() == M,
            forall|i: int| 0 <= i < M ==> (#[trigger] vec@[i]) is Some,
            Self::uniform(Self::kids(vec@).push(t)),
        ensures
            res.0.wf(),
            res.0.is_node(),
            res.0.n_children() >= 1,
            res.1.wf(),
            res.1.is_node(),
            res.1.n_children() >= 1,
            res.0 is LeafNode <==> Self::all_leaves(Self::kids(vec@).push(t)),
            res.1 is LeafNode <==> Self::all_leaves(Self::kids(vec@).push(t)),
            res.0.entries().add(res.1.entries()) == Self::slots_entries(vec@, M as int).add(t.entries()),
            forall|big: Rect<S, DIM>|
                Self::all_inside(Self::kids(vec@).push(t), big) ==> #[trigger] res.0.inside(big),
            forall|big: Rect<S, DIM>|
                Self::all_inside(Self::kids(vec@).push(t), big) ==> #[trigger] res.1.inside(big),
            res.0.n_children() + res.1.n_children() == M + 1,
            Self::min_fill() <= res.0.n_children(),
            Self::min_fill() <= res.1.n_children(),
            (res.0.children() + res.1.children()).to_multiset() == Self::kids(vec@).push(t).to_multiset(),
            forall|h: int| #[trigger] Self::all_balanced(Self::kids(vec@).push(t), h) ==> res.0.balanced(h + 1) && res.1.balanced(h + 1),
            exists|a: int| 0 <= a < DIM && #[trigger] Self::cut_along(res.0, res.1, a),
            res.0.children() == Self::split_order(Self::kids(vec@).push(t)).take(
                Self::axis_choice(Self::kids(vec@).push(t), DIM as int).2,
            ),
            res.1.children() == Self::split_order(Self::kids(vec@).push(t)).skip(
                Self::axis_choice(Self::kids(vec@).push(t), DIM as int).2,
            ),
    {
        let ghost vec0 = vec@;
        let ghost w0 = Self::kids(vec0).push(t);
        let mut vec = vec;
        let mut w: Vec<Self> = Vec::new();
        while vec.len() > 0
            invariant
                vec0.len() == M,
                forall|i: int| 0 <= i < M ==> (#[trigger] vec0[i]) is Some,
                w@.len() + vec@.len() == M,
                vec@ == vec0.subrange(w@.len() as int, M as int),
                w@ == Self::kids(vec0).subrange(0, w@.len() as int),
            decreases vec@.len(),
        {
            let o = vec.remove(0);
            match o {
                Some(x) => {
                    w.push(x);
                },
                None => {
                    assert(false);
                },
            }
            proof {
                assert(w@ =~= Self::kids(vec0).subrange(0, w@.len() as int));
            }
        }
        w.push(t);
        proof {
            assert(w@ =~= w0);
            Self::lemma_slots_entries_of_seq(vec0, Self::kids(vec0), M as int);
            assert(Self::kids(vec0).take(M as int) =~= Self::kids(vec0));
            lemma_seq_entries_push(Self::kids(vec0), t);
        }
        let q = M / 5 * 2 + (M % 5) * 2 / 5;
        let m: usize = if q > 1 {
            q
        } else {
            1
        };
        assert(2 * m <= M && m == Self::min_fill()) by (nonlinear_arith)
            requires
                M >= 2,
                q == (M / 5) * 2 + ((M % 5) * 2) / 5,
                m == if q > 1 { q } else { 1 },
                Self::min_fill() == if (2 * M as int) / 5 > 1 { (2 * M as int) / 5 } else { 1 },
                M == 5 * (M / 5) + M % 5,
                M % 5 < 5,
        ;
        let mut min_axis: usize = 0;
        let mut min_axis_margin = S::infinity();
        let mut min_axis_best_split_index: usize = 1;
        for axis in 0..DIM
            invariant
                M >= 2,
                1 <= m,
                2 * m <= M,
                m == Self::min_fill(),
                w@.len() == M + 1,
                w@.to_multiset() == w0.to_multiset(),
                seq_entries(w@) == seq_entries(w0),
                forall|i: int| 0 <= i < w@.len() ==> w0.contains(#[trigger] w@[i]),
                min_axis < DIM,
                1 <= min_axis_best_split_index <= M,
                axis == 0 ==> min_axis_margin == S::spec_infinity(),
                axis > 0 ==> m <= min_axis_best_split_index <= M + 1 - m,
                w@ == Self::sorted_upto(w0, axis as int),
                (min_axis as int, min_axis_margin, min_axis_best_split_index as int) == Self::axis_choice(w0, axis as int),
        {
            w = Self::sort_by_axis(w, axis);
            let (total_margin, best_split_index) = Self::score_axis(&w, m);
            proof {
                S::infinity_greatest(total_margin);
            }
            if total_margin.is_le(&min_axis_margin) {
                min_axis_margin = total_margin;
                min_axis = axis;
                min_axis_best_split_index = best_split_index;
            }
            proof {
                assert forall|i: int| 0 <= i < w@.len() implies w0.contains(#[trigger] w@[i]) by {
                }
            }
        }
        let ghost wb = w@;
        w = Self::sort_by_axis(w, min_axis);
        let ghost ws = w@;
        proof {
            assert(ws == Self::split_order(w0));
        }
        let right = w.split_off(min_axis_best_split_index);
        proof {
            let k = min_axis_best_split_index as int;
            assert(w@ =~= ws.subrange(0, k));
            assert(right@ =~= ws.subrange(k, ws.len() as int));
            lemma_seq_entries_split(ws, k);
            assert forall|i: int| 0 <= i < ws.len() implies w0.contains(#[trigger] ws[i]) by {
                assert(wb.contains(ws[i]));
            }
            if Self::all_leaves(w0) {
                assert forall|i: int| 0 <= i < w@.len() implies (#[trigger] w@[i]) is Leaf by {
                    assert(w0.contains(ws[i]));
                }
                assert forall|i: int| 0 <= i < right@.len() implies (#[trigger] right@[i]) is Leaf by {
                    assert(w0.contains(ws[i + k]));
                }
            } else {
                assert(Self::all_subnodes(w0));
                assert forall|i: int| #![trigger w@[i]] 0 <= i < w@.len() implies w@[i].is_node() && w@[i].wf() && w@[i].n_children() >= 1 by {
                    assert(w0.contains(ws[i]));
                }
                assert forall|i: int| #![trigger right@[i]] 0 <= i < right@.len() implies right@[i].is_node() && right@[i].wf() && right@[i].n_children() >= 1 by {
                    assert(w0.contains(ws[i + k]));
                }
                assert(!(w@[0] is Leaf));
                assert(!(right@[0] is Leaf));
            }
        }
        proof {
            let k = min_axis_best_split_index as int;
            assert forall|h: int| #[trigger] Self::all_balanced(w0, h) implies Self::all_balanced(w@, h) && Self::all_balanced(right@, h) by {
                assert forall|i: int| 0 <= i < w@.len() implies Self::slot_balanced(Some(#[trigger] w@[i]), h) by {
                    assert(w0.contains(ws[i]));
                    let j = choose|j: int| 0 <= j < w0.len() && w0[j] == ws[i];
                    assert(Self::slot_balanced(Some(w0[j]), h));
                }
                assert forall|i: int| 0 <= i < right@.len() implies Self::slot_balanced(Some(#[trigger] right@[i]), h) by {
                    assert(w0.contains(ws[i + k]));
                    let j = choose|j: int| 0 <= j < w0.len() && w0[j] == ws[i + k];
                    assert(Self::slot_balanced(Some(w0[j]), h));
                }
            }
        }
        let ghost wl = w@;
        let ghost wr = right@;
        let l = Self::from_vec(w);
        let r = Self::from_vec(right);
        proof {
            let k = min_axis_best_split_index as int;
            assert(l.children() + r.children() =~= ws);
            assert(l.children() =~= ws.take(k));
            assert(r.children() =~= ws.skip(k));
            let a = min_axis as int;
            assert forall|i: int, j: int| 0 <= i < l.n_children() && 0 <= j < r.n_children() implies pair_le(
                (#[trigger] l.children()[i]).key(a),
                (#[trigger] r.children()[j]).key(a),
            ) by {
                assert(l.children()[i] == ws[i]);
                assert(r.children()[j] == ws[k + j]);
            }
            assert(Self::cut_along(l, r, a));
            assert forall|h: int| #[trigger] Self::all_balanced(w0, h) implies l.balanced(h + 1) && r.balanced(h + 1) by {
                assert(Self::all_balanced(wl, h));
                assert(Self::all_balanced(wr, h));
            }
            assert forall|big: Rect<S, DIM>| Self::all_inside(w0, big) implies #[trigger] l.inside(big) && r.inside(big) by {
                assert forall|i: int| #![trigger ws[i]] 0 <= i < ws.len() implies ws[i].inside(big) by {
                    assert(w0.contains(ws[i]));
                }
                assert(Self::all_inside(ws.subrange(0, k), big));
                assert(Self::all_inside(ws.subrange(k, ws.len() as int), big));
            }
        }
        (l, r)
    }
}

impl<S: Scalar, T, const M: usize, const DIM: usize> RTree<S, T, M, DIM> {
    /// Inserting into this node cannot fail: a split needs at least two
    /// slots and one dimension, and the choice of a child in an internal node
    /// looks at the first `DIM` slots, so it needs `DIM <= M`.  A leaf node
    /// with a free slot takes the point without either.
    pub open spec fn insert_ok(self) -> bool {
        ||| M >= 2 && DIM >= 1 && (DIM <= M || self is LeafNode)
        ||| self is LeafNode && M >= 1 && self.n_children() < M
    }

    /// A node of a tree with at least two slots per node and from one to `M`
    /// dimensions accepts every insertion.
    pub proof fn lemma_insert_ok(self)
        requires
            M >= 2,
            1 <= DIM <= M,
        ensures
            self.insert_ok(),
    {
    }

    /// `new` lies inside every rectangle that encloses the rectangle of `old` and holds `p`.
    pub open spec fn grown_by(new: Self, old: Self, p: [S; DIM]) -> bool {
        forall|big: Rect<S, DIM>|
            big.encloses(old.node_rect()) && big.has_point(p) ==> #[trigger] new.inside(big)
    }

    proof fn lemma_merge_point(bb: Rect<S, DIM>, nb: Rect<S, DIM>, pr: Rect<S, DIM>, p: [S; DIM])
        requires
            pr.is_point_rect(p),
            nb.is_merge_of(bb, pr),
        ensures
            nb.encloses(bb),
            nb.has_point(p),
            bb.valid() ==> nb.valid(),
            forall|big: Rect<S, DIM>| big.encloses(bb) && big.has_point(p) ==> #[trigger] big.encloses(nb),
    {
        crate::rect::lemma_merge(nb, bb, pr);
        lemma_has_point_iff_encloses(nb, pr, p);
        assert forall|big: Rect<S, DIM>| big.encloses(bb) && big.has_point(p) implies #[trigger] big.encloses(nb) by {
            lemma_has_point_iff_encloses(big, pr, p);
        }
    }

    /// The intervals of `r` widened to hold the point `p`.
    pub open spec fn grown_segs(r: Rect<S, DIM>, p: [S; DIM]) -> Seq<(S, S)> {
        Seq::new(DIM as nat, |i: int| (smin(r.0[i].0, p[i]), smax(r.0[i].1, p[i])))
    }

    /// How much the volume of `r` grows when `r` is widened to hold `p`.
    pub open spec fn enlargement(r: Rect<S, DIM>, p: [S; DIM]) -> S {
        volume_upto(Self::grown_segs(r, p), DIM as int).spec_minus(r.spec_volume())
    }

    /// The child chosen for `p` among the first `n` slots, with the
    /// enlargement and the volume that rank it: the taken slot whose
    /// rectangle grows least, ties going to the smaller volume and then to
    /// the later slot; slot 0 where no slot ranks below the start value.
    pub open spec fn choice_upto(s: Seq<Option<Self>>, p: [S; DIM], n: int) -> (int, S, S)
        decreases n,
    {
        if n <= 0 {
            (0, S::spec_infinity(), S::spec_zero())
        } else {
            let prev = Self::choice_upto(s, p, n - 1);
            match s[n - 1] {
                Some(c) => {
                    let e = Self::enlargement(c.node_rect(), p);
                    let vol = c.node_rect().spec_volume();
                    if pair_le((e, vol), (prev.1, prev.2)) {
                        (n - 1, e, vol)
                    } else {
                        prev
                    }
                },
                None => prev,
            }
        }
    }

    /// The slot of the child of an internal node that receives `p`: the
    /// choice among its first `DIM` slots.
    pub open spec fn chosen_slot(self, p: [S; DIM]) -> int {
        Self::choice_upto(self.slots(), p, DIM as int).0
    }

    proof fn lemma_choice_upto(s: Seq<Option<Self>>, p: [S; DIM], n: int)
        requires
            0 <= n <= s.len(),
            forall|j: int|
                #![trigger s[j]]
                0 <= j < n && s[j] is Some ==> lt(
                    volume_upto(Self::grown_segs(s[j]->Some_0.node_rect(), p), DIM as int).spec_minus(
                        s[j]->Some_0.node_rect().spec_volume(),
                    ),
                    S::spec_infinity(),
                ),
        ensures
            ({
                let c = Self::choice_upto(s, p, n);
                &&& (exists|j: int| 0 <= j < n && #[trigger] s[j] is Some) ==> {
                    &&& 0 <= c.0 < n
                    &&& s[c.0] is Some
                    &&& c.1 == volume_upto(Self::grown_segs(s[c.0]->Some_0.node_rect(), p), DIM as int).spec_minus(
                        s[c.0]->Some_0.node_rect().spec_volume(),
                    )
                    &&& c.2 == s[c.0]->Some_0.node_rect().spec_volume()
                }
                &&& !(exists|j: int| 0 <= j < n && #[trigger] s[j] is Some) ==> c.1 == S::spec_infinity() && c.2
                    == S::spec_zero()
                &&& forall|j: int|
                    #![trigger s[j]]
                    0 <= j < n && s[j] is Some ==> pair_le(
                        (c.1, c.2),
                        (
                            volume_upto(Self::grown_segs(s[j]->Some_0.node_rect(), p), DIM as int).spec_minus(
                                s[j]->Some_0.node_rect().spec_volume(),
                            ),
                            s[j]->Some_0.node_rect().spec_volume(),
                        ),
                    )
            }),
        decreases n,
    {
        if n > 0 {
            Self::lemma_choice_upto(s, p, n - 1);
            let prev = Self::choice_upto(s, p, n - 1);
            match s[n - 1] {
                Some(c) => {
                    let r = c.node_rect();
                    let sc = (volume_upto(Self::grown_segs(r, p), DIM as int).spec_minus(r.spec_volume()), r.spec_volume());
                    lemma_pair_le_total(sc, (prev.1, prev.2));
                    lemma_pair_le_total(sc, sc);
                    S::le_reflexive(sc.1);
                    if pair_le(sc, (prev.1, prev.2)) {
                        assert forall|j: int| #![trigger s[j]] 0 <= j < n && s[j] is Some implies pair_le(
                            sc,
                            (
                                volume_upto(Self::grown_segs(s[j]->Some_0.node_rect(), p), DIM as int).spec_minus(
                                    s[j]->Some_0.node_rect().spec_volume(),
                                ),
                                s[j]->Some_0.node_rect().spec_volume(),
                            ),
                        ) by {
                            if j < n - 1 {
                                lemma_pair_le_transitive(
                                    sc,
                                    (prev.1, prev.2),
                                    (
                                        volume_upto(Self::grown_segs(s[j]->Some_0.node_rect(), p), DIM as int).spec_minus(
                                            s[j]->Some_0.node_rect().spec_volume(),
                                        ),
                                        s[j]->Some_0.node_rect().spec_volume(),
                                    ),
                                );
                            }
                        }
                    } else {
                        if !(exists|j: int| 0 <= j < n - 1 && #[trigger] s[j] is Some) {
                            assert(lt(sc.0, S::spec_infinity()));
                        }
                        assert(s[n - 1] is Some);
                    }
                },
                None => {
                    if exists|j: int| 0 <= j < n && #[trigger] s[j] is Some {
                        let j = choose|j: int| 0 <= j < n && #[trigger] s[j] is Some;
                        assert(j < n - 1);
                    }
                },
            }
        }
    }

    /// The child of an internal node that receives `p` is, among the first
    /// `DIM` slots that the choice looks at, one whose rectangle grows least
    /// in volume when widened to hold `p`, and among those one of least
    /// volume: for every taken slot `j` there, the pair (growth, volume) of
    /// the chosen child is at most that of slot `j`, lexicographically.  Left
    /// out: growths that reach the greatest value, from which the choice starts.
    pub proof fn lemma_chosen_child_grows_least(self, p: [S; DIM])
        requires
            self is InternalNode,
            self.wf(),
            1 <= DIM <= M,
            forall|j: int|
                #![trigger self.slots()[j]]
                0 <= j < DIM && self.slots()[j] is Some ==> lt(
                    volume_upto(Self::grown_segs(self.slots()[j]->Some_0.node_rect(), p), DIM as int).spec_minus(
                        self.slots()[j]->Some_0.node_rect().spec_volume(),
                    ),
                    S::spec_infinity(),
                ),
        ensures
            0 <= self.chosen_slot(p) < DIM,
            self.slots()[self.chosen_slot(p)] is Some,
            forall|j: int|
                #![trigger self.slots()[j]]
                0 <= j < DIM && self.slots()[j] is Some ==> pair_le(
                    (
                        volume_upto(
                            Self::grown_segs(self.slots()[self.chosen_slot(p)]->Some_0.node_rect(), p),
                            DIM as int,
                        ).spec_minus(self.slots()[self.chosen_slot(p)]->Some_0.node_rect().spec_volume()),
                        self.slots()[self.chosen_slot(p)]->Some_0.node_rect().spec_volume(),
                    ),
                    (
                        volume_upto(Self::grown_segs(self.slots()[j]->Some_0.node_rect(), p), DIM as int).spec_minus(
                            self.slots()[j]->Some_0.node_rect().spec_volume(),
                        ),
                        self.slots()[j]->Some_0.node_rect().spec_volume(),
                    ),
                ),
    {
        let s = self.slots();
        lemma_filled_unique(s, taken(s));
        assert(s[0] is Some);
        Self::lemma_choice_upto(s, p, DIM as int);
    }

    /// Inserting `p` splits this node: it is full and, as an internal node,
    /// the insertion into its chosen child splits that child.
    pub open spec fn overflows(self, p: [S; DIM]) -> bool
        decreases self,
    {
        match self {
            RTree::Leaf(_, _) => false,
            RTree::LeafNode(_, c) => taken(c@) == M,
            RTree::InternalNode(_, c) => {
                let k = Self::choice_upto(c@, p, DIM as int).0;
                &&& taken(c@) == M
                &&& 0 <= k < c@.len()
                &&& match c@[k] {
                    Some(child) => child.overflows(p),
                    None => false,
                }
            },
        }
    }

    /// What becomes of a node into which `(p, value)` was inserted: the node,
    /// grown, or two nodes that share its entries and the new one.
    pub(crate) open spec fn insertion_done(out: Inserted<S, T, M, DIM>, old: Self, p: [S; DIM], value: T) -> bool {
        match out {
            Inserted::Fits(t) => {
                &&& t.wf()
                &&& t.is_node()
                &&& (t is LeafNode <==> old is LeafNode)
                &&& t.n_children() >= old.n_children()
                &&& t.entries() == old.entries().insert((p, value))
                &&& Self::grown_by(t, old, p)
            },
            Inserted::Splits(l, r) => {
                &&& M >= 2
                &&& l.wf() && l.is_node() && l.n_children() >= Self::min_fill()
                &&& r.wf() && r.is_node() && r.n_children() >= Self::min_fill()
                &&& (l is LeafNode <==> old is LeafNode)
                &&& (r is LeafNode <==> old is LeafNode)
                &&& l.entries().add(r.entries()) == old.entries().insert((p, value))
                &&& Self::grown_by(l, old, p)
                &&& Self::grown_by(r, old, p)
            },
        }
    }

    /// The insertion kept the height: a node whose leaves all lay `h` levels
    /// down gives a node, or two nodes, whose leaves all lie `h` levels down.
    pub(crate) open spec fn insertion_balanced(out: Inserted<S, T, M, DIM>, old: Self) -> bool {
        forall|h: int| #[trigger] old.balanced(h) ==> match out {
            Inserted::Fits(t) => t.balanced(h),
            Inserted::Splits(l, r) => l.balanced(h) && r.balanced(h),
        }
    }

    /// After an insertion that fitted, every child of `old` but the one in
    /// slot `k` is still in its slot.
    pub(crate) open spec fn others_kept(out: Inserted<S, T, M, DIM>, old: Self, k: int) -> bool {
        match out {
            Inserted::Fits(t) => forall|i: int|
                0 <= i < old.n_children() && i != k ==> #[trigger] t.slots()[i] == old.slots()[i],
            Inserted::Splits(_, _) => true,
        }
    }

    /// The slot whose subtree an insertion of `p` changes: the chosen child
    /// in an internal node, the first free slot in a leaf node.
    pub open spec fn insertion_slot(self, p: [S; DIM]) -> int {
        if self is InternalNode {
            self.chosen_slot(p)
        } else {
            self.n_children()
        }
    }

    /// The intervals of a node's rectangle after `p` went into it without a
    /// split: its old rectangle widened to hold `p`; in a leaf node of a
    /// single slot, the degenerate rectangle of `p`.
    pub open spec fn grown_rect(old: Self, p: [S; DIM]) -> Seq<(S, S)> {
        if old is LeafNode && M == 1 {
            point_segments(p)
        } else {
            Self::grown_segs(old.node_rect(), p)
        }
    }

    /// After an insertion that fitted, the node's rectangle is `grown_rect`.
    pub(crate) open spec fn rect_grown(out: Inserted<S, T, M, DIM>, old: Self, p: [S; DIM]) -> bool {
        match out {
            Inserted::Fits(t) => t.node_rect().0@ == Self::grown_rect(old, p),
            Inserted::Splits(_, _) => true,
        }
    }

    pub(crate) open spec fn as_inserted(res: Option<(Self, Self)>, t: Self) -> Inserted<S, T, M, DIM> {
        match res {
            None => Inserted::Fits(t),
            Some((l, r)) => Inserted::Splits(l, r),
        }
    }

    /// Inserts the point in a leaf node: into its first free slot, or, when
    /// all slots are taken, by splitting the node.
    #[verifier::spinoff_prover]
    fn insert_at_leaf_level(r: Rect<S, DIM>, v: Vec<Option<Self>>, p: &[S; DIM], value: T) -> (out: Inserted<S, T, M, DIM>)
        requires
            RTree::<S, T, M, DIM>::LeafNode(r, v).wf(),
            RTree::<S, T, M, DIM>::LeafNode(r, v).insert_ok(),
        ensures
            Self::insertion_done(out, RTree::LeafNode(r, v), *p, value),
            Self::insertion_balanced(out, RTree::LeafNode(r, v)),
            (out is Splits) == RTree::<S, T, M, DIM>::LeafNode(r, v).overflows(*p),
            Self::others_kept(out, RTree::LeafNode(r, v), RTree::<S, T, M, DIM>::LeafNode(r, v).n_children()),
            Self::rect_grown(out, RTree::LeafNode(r, v), *p),
    {
        let ghost old_self = RTree::<S, T, M, DIM>::LeafNode(r, v);
        let ghost r0 = r;
        let ghost v0 = v@;
        let mut r = r;
        let mut v = v;
        proof {
            lemma_filled_unique(v0, taken(v0));
            Self::lemma_slots_wf_iff(v0, r0, true, M as int);
        }
        let n = Self::n_taken(&v);
        let pr = Rect::from_point(p);
        let leaf = RTree::Leaf(*p, Rc::new(value));
        proof {
            lemma_point_rect(pr, *p, *p);
            assert(leaf.entries() =~= Multiset::singleton((*p, value)));
            assert(old_self.entries().insert((*p, value)) =~= old_self.entries().add(Multiset::singleton((*p, value))));
        }
        if n >= M {
            proof {
                assert forall|i: int| 0 <= i < M implies (#[trigger] v0[i]) is Some by {
                }
                let w0 = Self::kids(v0).push(leaf);
                assert forall|i: int| 0 <= i < w0.len() implies (#[trigger] w0[i]) is Leaf by {
                    if i < M {
                        assert(Self::slot_ok(v0[i], r0, true));
                    }
                }
                assert forall|big: Rect<S, DIM>| big.encloses(r0) && big.has_point(*p) implies Self::all_inside(w0, big) by {
                    assert forall|i: int| #![trigger w0[i]] 0 <= i < w0.len() implies w0[i].inside(big) by {
                        if i < M {
                            assert(Self::slot_ok(v0[i], r0, true));
                            w0[i].lemma_inside_grow(r0, big);
                        }
                    }
                }
                Self::lemma_slots_entries_free(v0, M as int, v0.len() as int);
                assert forall|i: int| 0 <= i < w0.len() implies Self::slot_balanced(Some(#[trigger] w0[i]), 0) by {
                    if i < M {
                        assert(Self::slot_ok(v0[i], r0, true));
                    }
                }
                assert(Self::all_balanced(w0, 0));
            }
            let (a, b) = Self::split(v, leaf);
            return Inserted::Splits(a, b);
        }
        v[n] = Some(leaf);
        if v.len() == 1 {
            r = Rect::from_point(p);
        }
        let nr = Rect::merge(&r, &pr);
        proof {
            if M == 1 {
                assert(nr.0@ =~= point_segments(*p));
            } else {
                assert(nr.0@ =~= Self::grown_segs(r0, *p));
            }
            let v1 = v@;
            assert(v1 == v0.update(n as int, Some(leaf)));
            assert(filled(v1, n + 1));
            lemma_filled_unique(v1, n + 1);
            Self::lemma_merge_point(r, nr, pr, *p);
            if M == 1 {
                lemma_point_rect(r, *p, *p);
            }
            assert forall|i: int| 0 <= i < M implies #[trigger] Self::slot_ok(v1[i], nr, true) by {
                if i != n {
                    assert(Self::slot_ok(v0[i], r0, true));
                    if i < n {
                        assert(M != 1);
                        v0[i]->Some_0.lemma_inside_grow(r0, nr);
                    }
                }
            }
            Self::lemma_slots_wf_iff(v1, nr, true, M as int);
            Self::lemma_slots_entries_update(v0, n as int, Some(leaf), M as int);
            assert(v0[n as int] is None);
            assert(slot_entries(v0[n as int]) =~= Multiset::empty());
            assert(Self::slots_entries(v1, M as int).add(Multiset::empty()) =~= Self::slots_entries(v1, M as int));
            assert(old_self.entries() == Self::slots_entries(v0, M as int));
            assert(RTree::<S, T, M, DIM>::LeafNode(nr, v).entries() == Self::slots_entries(v1, M as int));
            assert forall|big: Rect<S, DIM>| big.encloses(r0) && big.has_point(*p) implies big.encloses(nr) by {
                if M == 1 {
                    lemma_has_point_iff_encloses(big, r, *p);
                    crate::rect::lemma_merge(nr, r, pr);
                }
            }
        }
        Inserted::Fits(RTree::LeafNode(nr, v))
    }

    /// Completes an insertion into an internal node once the chosen child
    /// (taken out of slot `min_i`) has received the point: the child goes
    /// back, or its two halves take its slot and the first free one, or, with
    /// no free slot, the node is split.
    #[verifier::spinoff_prover]
    #[verifier::rlimit(40)]
    fn finish_internal(
        nb: Rect<S, DIM>,
        v: Vec<Option<Self>>,
        n: usize,
        min_i: usize,
        child: Self,
        res: Option<(Self, Self)>,
        Ghost(old_node): Ghost<Self>,
        Ghost(child0): Ghost<Self>,
        p: &[S; DIM],
        Ghost(value): Ghost<T>,
    ) -> (out: Inserted<S, T, M, DIM>)
        requires
            M >= 2,
            DIM >= 1,
            old_node is InternalNode,
            old_node.wf(),
            filled(old_node.slots(), n as int),
            min_i < n,
            old_node.slots()[min_i as int] == Some(child0),
            v@ == old_node.slots().remove(min_i as int),
            nb.encloses(old_node.node_rect()),
            nb.has_point(*p),
            nb.valid(),
            nb.0@ == Self::grown_segs(old_node.node_rect(), *p),
            forall|big: Rect<S, DIM>| big.encloses(old_node.node_rect()) && big.has_point(*p) ==> #[trigger] big.encloses(nb),
            Self::insertion_done(Self::as_inserted(res, child), child0, *p, value),
            Self::insertion_balanced(Self::as_inserted(res, child), child0),
            child0.is_node(),
        ensures
            Self::insertion_done(out, old_node, *p, value),
            Self::insertion_balanced(out, old_node),
            (out is Splits) == (res is Some && n == M),
            Self::others_kept(out, old_node, min_i as int),
            Self::rect_grown(out, old_node, *p),
    {
        let ghost old_self = old_node;
        let ghost bb0 = old_node.node_rect();
        let ghost v0 = old_node.slots();
        let mut v = v;
        proof {
            lemma_filled_unique(v0, n as int);
            Self::lemma_slots_wf_iff(v0, bb0, false, M as int);
            assert(Self::slot_ok(v0[min_i as int], bb0, false));
            lemma_encloses_transitive(nb, bb0, child0.node_rect());
            assert(old_self.entries() == Self::slots_entries(v0, M as int));
            assert(old_self.entries().insert((*p, value)) =~= old_self.entries().add(Multiset::singleton((*p, value))));
        }
        match res {
            None => {
                v.insert(min_i, Some(child));
                proof {
                    let v1 = v@;
                    assert(v1 =~= v0.update(min_i as int, Some(child)));
                    assert(filled(v1, n as int));
                    lemma_filled_unique(v1, n as int);
                    assert(child.inside(nb));
                    assert forall|i: int| 0 <= i < M implies #[trigger] Self::slot_ok(v1[i], nb, false) by {
                        if i != min_i && i < n {
                            assert(Self::slot_ok(v0[i], bb0, false));
                            v0[i]->Some_0.lemma_inside_grow(bb0, nb);
                        }
                    }
                    Self::lemma_slots_wf_iff(v1, nb, false, M as int);
                    Self::lemma_slots_entries_update(v0, min_i as int, Some(child), M as int);
                    assert(child0.entries().insert((*p, value)) =~= child0.entries().add(Multiset::singleton((*p, value))));
                    assert(child.entries().add(Multiset::empty()) =~= child.entries());
                    lemma_multiset_exchange(
                        Self::slots_entries(v1, M as int),
                        Self::slots_entries(v0, M as int),
                        child0.entries(),
                        child.entries(),
                        Multiset::empty(),
                        Multiset::singleton((*p, value)),
                    );
                    assert(Self::slots_entries(v1, M as int).add(Multiset::empty()) =~= Self::slots_entries(v1, M as int));
                    assert(child.entries().add(Multiset::empty()) =~= child0.entries().add(Multiset::singleton((*p, value))));
                    assert forall|h: int| #[trigger] old_node.balanced(h) implies RTree::<S, T, M, DIM>::InternalNode(nb, v).balanced(h) by {
                        Self::lemma_slots_balanced_iff(v0, h - 1, M as int);
                        assert(Self::slot_balanced(v0[min_i as int], h - 1));
                        assert forall|i: int| 0 <= i < M implies #[trigger] Self::slot_balanced(v1[i], h - 1) by {
                            if i != min_i {
                                assert(Self::slot_balanced(v0[i], h - 1));
                            }
                        }
                        Self::lemma_slots_balanced_iff(v1, h - 1, M as int);
                    }
                    let t = RTree::<S, T, M, DIM>::InternalNode(nb, v);
                    assert(t.wf());
                    assert(t.entries() == old_node.entries().insert((*p, value)));
                    assert(Self::grown_by(t, old_node, *p));
                    assert(Self::insertion_done(Inserted::Fits(t), old_node, *p, value));
                }
                Inserted::Fits(RTree::InternalNode(nb, v))
            },
            Some((l, r)) => {
                v.insert(min_i, Some(l));
                let ghost v1 = v@;
                proof {
                    assert(v1 =~= v0.update(min_i as int, Some(l)));
                    assert(l.inside(nb));
                    assert(r.inside(nb));
                    Self::lemma_slots_entries_update(v0, min_i as int, Some(l), M as int);
                }
                if n >= M {
                    proof {
                        let w0 = Self::kids(v1).push(r);
                        assert forall|i: int| 0 <= i < M implies (#[trigger] v1[i]) is Some by {
                        }
                        assert forall|i: int| #![trigger w0[i]] 0 <= i < w0.len() implies w0[i].is_node() && w0[i].wf() && w0[i].n_children() >= 1 && w0[i].inside(nb) by {
                            if i < M && i != min_i {
                                assert(Self::slot_ok(v0[i], bb0, false));
                                v0[i]->Some_0.lemma_inside_grow(bb0, nb);
                            }
                        }
                        assert(Self::all_subnodes(w0));
                        assert(!(w0[0] is Leaf));
                        assert forall|big: Rect<S, DIM>| big.encloses(bb0) && big.has_point(*p) implies Self::all_inside(w0, big) by {
                            assert(big.encloses(nb));
                            assert forall|i: int| #![trigger w0[i]] 0 <= i < w0.len() implies w0[i].inside(big) by {
                                w0[i].lemma_inside_grow(nb, big);
                            }
                        }
                        Self::lemma_slots_entries_free(v1, M as int, v1.len() as int);
                        lemma_multiset_exchange(
                            Self::slots_entries(v1, M as int),
                            Self::slots_entries(v0, M as int),
                            child0.entries(),
                            l.entries(),
                            r.entries(),
                            Multiset::singleton((*p, value)),
                        );
                    }
                    let ghost w0 = Self::kids(v1).push(r);
                    let (a, b) = Self::split(v, r);
                    proof {
                        assert forall|h: int| #[trigger] old_node.balanced(h) implies a.balanced(h) && b.balanced(h) by {
                            Self::lemma_slots_balanced_iff(v0, h - 1, M as int);
                            assert(Self::slot_balanced(v0[min_i as int], h - 1));
                            assert forall|i: int| 0 <= i < w0.len() implies Self::slot_balanced(Some(#[trigger] w0[i]), h - 1) by {
                                if i < M && i != min_i {
                                    assert(Self::slot_balanced(v0[i], h - 1));
                                }
                            }
                            assert(Self::all_balanced(w0, h - 1));
                        }
                    }
                    return Inserted::Splits(a, b);
                }
                v[n] = Some(r);
                proof {
                    let v2 = v@;
                    assert(v2 == v1.update(n as int, Some(r)));
                    assert(filled(v2, n + 1));
                    lemma_filled_unique(v2, n + 1);
                    assert forall|i: int| 0 <= i < M implies #[trigger] Self::slot_ok(v2[i], nb, false) by {
                        if i != min_i && i < n {
                            assert(Self::slot_ok(v0[i], bb0, false));
                            v0[i]->Some_0.lemma_inside_grow(bb0, nb);
                        }
                    }
                    Self::lemma_slots_wf_iff(v2, nb, false, M as int);
                    Self::lemma_slots_entries_update(v1, n as int, Some(r), M as int);
                    assert(v1[n as int] is None);
                    assert(Self::slots_entries(v2, M as int).add(Multiset::empty()) =~= Self::slots_entries(v2, M as int));
                    lemma_multiset_exchange(
                        Self::slots_entries(v1, M as int),
                        Self::slots_entries(v0, M as int),
                        child0.entries(),
                        l.entries(),
                        r.entries(),
                        Multiset::singleton((*p, value)),
                    );
                    assert forall|h: int| #[trigger] old_node.balanced(h) implies RTree::<S, T, M, DIM>::InternalNode(nb, v).balanced(h) by {
                        Self::lemma_slots_balanced_iff(v0, h - 1, M as int);
                        assert(Self::slot_balanced(v0[min_i as int], h - 1));
                        assert forall|i: int| 0 <= i < M implies #[trigger] Self::slot_balanced(v2[i], h - 1) by {
                            if i != min_i && i != n {
                                assert(Self::slot_balanced(v0[i], h - 1));
                            }
                        }
                        Self::lemma_slots_balanced_iff(v2, h - 1, M as int);
                    }
                    let t = RTree::<S, T, M, DIM>::InternalNode(nb, v);
                    assert(t.wf());
                    assert(t.entries() == old_node.entries().insert((*p, value)));
                    assert(Self::grown_by(t, old_node, *p));
                    assert(Self::insertion_done(Inserted::Fits(t), old_node, *p, value));
                }
                Inserted::Fits(RTree::InternalNode(nb, v))
            },
        }
    }

    /// Inserts the point in the subtree; returns the two halves when the node
    /// had to be split (exactly when it `overflows`), and leaves the node then
    /// in no particular state.  Heights are kept, and of the node's children
    /// only the one in its `insertion_slot` changes.
    pub(crate) fn _insert(&mut self, p: &[S; DIM], value: T) -> (res: Option<(Self, Self)>)
        requires
            old(self).wf(),
            old(self).is_node(),
            old(self).insert_ok(),
        ensures
            Self::insertion_done(Self::as_inserted(res, *final(self)), *old(self), *p, value),
            Self::insertion_balanced(Self::as_inserted(res, *final(self)), *old(self)),
            (res is Some) == old(self).overflows(*p),
            Self::others_kept(Self::as_inserted(res, *final(self)), *old(self), old(self).insertion_slot(*p)),
            Self::rect_grown(Self::as_inserted(res, *final(self)), *old(self), *p),
        decreases *old(self),
    {
        let ghost old_self = *self;
        let mut node = RTree::LeafNode(Rect::empty_rect(), Vec::new());
        core::mem::swap(self, &mut node);
        let out = match node {
            RTree::Leaf(_, _) => {
                proof {
                    assert(false);
                }
                return None;
            },
            RTree::LeafNode(r, v) => Self::insert_at_leaf_level(r, v, p, value),
            RTree::InternalNode(bb, v) => {
                let ghost bb0 = bb;
                let ghost v0 = v@;
                let mut v = v;
                proof {
                    lemma_filled_unique(v0, taken(v0));
                    Self::lemma_slots_wf_iff(v0, bb0, false, M as int);
                }
                let n = Self::n_taken(&v);
                let pr = Rect::from_point(p);
                let nb = Rect::merge(&bb, &pr);
                proof {
                    lemma_point_rect(pr, *p, *p);
                    Self::lemma_merge_point(bb, nb, pr, *p);
                    assert(nb.0@ =~= Self::grown_segs(bb0, *p));
                }
                let mut min_i: usize = 0;
                let mut min_enlargement = S::infinity();
                let mut min_rect_volume = S::zero();
                for i in 0..DIM
                    invariant
                        DIM <= M,
                        v@ == v0,
                        v0.len() == M,
                        filled(v0, n as int),
                        n >= 1,
                        min_i < n,
                        pr.is_point_rect(*p),
                        forall|j: int| 0 <= j < M ==> #[trigger] Self::slot_ok(v0[j], bb0, false),
                        (min_i as int, min_enlargement, min_rect_volume) == Self::choice_upto(v0, *p, i as int),
                {
                    match &v[i] {
                        Some(child) => {
                            let r = child.get_rect();
                            let mr = Rect::merge(&r, &pr);
                            proof {
                                assert(Self::slot_ok(v0[i as int], bb0, false));
                                assert(mr.0@ =~= Self::grown_segs(r, *p));
                            }
                            let enlargement = mr.volume().minus(&r.volume());
                            let vol = r.volume();
                            if pair_is_le(&(enlargement, vol), &(min_enlargement, min_rect_volume)) {
                                min_i = i;
                                min_enlargement = enlargement;
                                min_rect_volume = vol;
                            }
                        },
                        None => {
                        },
                    }
                }
                let slot = v.remove(min_i);
                let mut child = match slot {
                    Some(c) => c,
                    None => {
                        proof {
                            assert(false);
                        }
                        return None;
                    },
                };
                let ghost child0 = child;
                proof {
                    assert(child0 == v0[min_i as int]->Some_0);
                    assert(Self::slot_ok(v0[min_i as int], bb0, false));
                    assert(old_self.chosen_slot(*p) == min_i);
                    assert(old_self.overflows(*p) == (n == M && child0.overflows(*p)));
                }
                let res = child._insert(p, value);
                Self::finish_internal(
                    nb,
                    v,
                    n,
                    min_i,
                    child,
                    res,
                    Ghost(old_self),
                    Ghost(child0),
                    p,
                    Ghost(value),
                )
            },
        };
        match out {
            Inserted::Fits(t) => {
                *self = t;
                None
            },
            Inserted::Splits(l, r) => Some((l, r)),
        }
    }

    /// Inserts the point `p` with its value; a split of the root makes a new
    /// internal root with the two halves as children.
    pub fn insert(&mut self, p: &[S; DIM], value: T)
        requires
            old(self).wf_root(),
            old(self).insert_ok(),
        ensures
            final(self).wf_root(),
            final(self).entries() == old(self).entries().insert((*p, value)),
            Self::grown_by(*final(self), *old(self), *p),
            old(self).is_rtree() ==> final(self).is_rtree(),
            !old(self).overflows(*p) ==> (*final(self) is LeafNode <==> *old(self) is LeafNode),
            !old(self).overflows(*p) ==> forall|h: int| #[trigger] old(self).balanced(h) ==> final(self).balanced(h),
            old(self).overflows(*p) ==> *final(self) is InternalNode && final(self).n_children() == 2,
            old(self).overflows(*p) ==> forall|h: int| #[trigger] old(self).balanced(h) ==> final(self).balanced(h + 1),
            !old(self).overflows(*p) ==> final(self).node_rect().0@ == Self::grown_rect(*old(self), *p),
            !old(self).overflows(*p) ==> forall|i: int|
                0 <= i < old(self).n_children() && i != old(self).insertion_slot(*p) ==> #[trigger] final(self).slots()[i]
                    == old(self).slots()[i],
            old(self).overflows(*p) ==> final(self).node_rect().is_merge_of(
                final(self).children()[0].node_rect(),
                final(self).children()[1].node_rect(),
            ),
    {
        let ghost old_self = *self;
        let res = self._insert(p, value);
        if res.is_none() {
            proof {
                if old_self.is_rtree() {
                    let h = choose|h: int| old_self.balanced(h);
                    assert(self.balanced(h));
                }
            }
        }
        if let Some((l, r)) = res {
            let lr = l.get_rect();
            let rr = r.get_rect();
            let bb = Rect::merge(&lr, &rr);
            proof {
                crate::rect::lemma_merge(bb, lr, rr);
                l.lemma_rect_is(lr, bb);
                r.lemma_rect_is(rr, bb);
            }
            let ghost l0 = l;
            let ghost r0 = r;
            let mut children: Vec<Option<Self>> = Vec::new();
            children.push(Some(l));
            children.push(Some(r));
            while children.len() < M
                invariant
                    2 <= children@.len() <= M,
                    children@[0] == Some(l0),
                    children@[1] == Some(r0),
                    forall|i: int| 2 <= i < children@.len() ==> (#[trigger] children@[i]) is None,
                decreases M - children@.len(),
            {
                children.push(None);
            }
            proof {
                let c = children@;
                assert(filled(c, 2));
                lemma_filled_unique(c, 2);
                assert forall|i: int| 0 <= i < M implies #[trigger] Self::slot_ok(c[i], bb, false) by {
                }
                Self::lemma_slots_wf_iff(c, bb, false, M as int);
                Self::lemma_slots_entries_free(c, 2, M as int);
                Self::lemma_slots_entries_unfold(c, 2);
                Self::lemma_slots_entries_unfold(c, 1);
                assert(Self::slots_entries(c, 2) =~= l0.entries().add(r0.entries()));
            }
            let ghost c = children@;
            *self = RTree::InternalNode(bb, children);
            proof {
                assert forall|h: int| #[trigger] old_self.balanced(h) implies self.balanced(h + 1) by {
                    assert forall|i: int| 0 <= i < M implies #[trigger] Self::slot_balanced(c[i], h) by {
                    }
                    Self::lemma_slots_balanced_iff(c, h, M as int);
                }
                if old_self.is_rtree() {
                    let h = choose|h: int| old_self.balanced(h);
                    assert(self.balanced(h + 1));
                }
                assert forall|big: Rect<S, DIM>| big.encloses(old(self).node_rect()) && big.has_point(*p) implies #[trigger] self.inside(big) by {
                    assert(l0.inside(big));
                    assert(r0.inside(big));
                    l0.lemma_rect_is(lr, big);
                    r0.lemma_rect_is(rr, big);
                }
            }
        }
    }
}

impl<S: Scalar, T, const M: usize, const DIM: usize> RTree<S, T, M, DIM> {
    /// The number of leaves and nodes in the subtree.
    pub open spec fn size(self) -> nat
        decreases self, 0int,
    {
        match self {
            RTree::Leaf(_, _) => 1,
            RTree::LeafNode(_, c) => 1 + Self::slots_size(c@, c@.len() as int),
            RTree::InternalNode(_, c) => 1 + Self::slots_size(c@, c@.len() as int),
        }
    }

    /// Free slots add nothing to the size.
    pub proof fn lemma_slots_size_free(s: Seq<Option<Self>>, k: int, n: int)
        requires
            0 <= k <= n <= s.len(),
            forall|i: int| k <= i < n ==> (#[trigger] s[i]) is None,
        ensures
            Self::slots_size(s, n) == Self::slots_size(s, k),
        decreases n,
    {
        if n > k {
            Self::lemma_slots_size_free(s, k, n - 1);
        }
    }

    /// The sizes of the subtrees in the first `n` slots, added up.
    pub open spec fn slots_size(s: Seq<Option<Self>>, n: int) -> nat
        decreases s, n,
    {
        if n <= 0 || n > s.len() {
            0
        } else {
            Self::slots_size(s, n - 1) + match s[n - 1] {
                Some(c) => c.size(),
                None => 0,
            }
        }
    }
}

impl<S: Scalar, T, const M: usize, const DIM: usize> RTree<S, T, M, DIM> {
    /// A subtree in a slot is no larger than all the slots together.
    pub proof fn lemma_slots_size_child(s: Seq<Option<Self>>, n: int, i: int)
        requires
            0 <= i < n <= s.len(),
            s[i] is Some,
        ensures
            s[i]->Some_0.size() <= Self::slots_size(s, n),
        decreases n,
    {
        if i < n - 1 {
            Self::lemma_slots_size_child(s, n - 1, i);
        }
    }

    /// The points of the leaves of the subtree, left to right.
    pub open spec fn leaf_points(self) -> Seq<[S; DIM]>
        decreases self, 0int,
    {
        match self {
            RTree::Leaf(x, _) => seq![x],
            RTree::LeafNode(_, c) => Self::slots_points(c@, c@.len() as int),
            RTree::InternalNode(_, c) => Self::slots_points(c@, c@.len() as int),
        }
    }

    /// The points of the leaves under the first `n` slots, left to right.
    pub open spec fn slots_points(s: Seq<Option<Self>>, n: int) -> Seq<[S; DIM]>
        decreases s, n,
    {
        if n <= 0 || n > s.len() {
            Seq::empty()
        } else {
            Self::slots_points(s, n - 1) + match s[n - 1] {
                Some(c) => c.leaf_points(),
                None => Seq::empty(),
            }
        }
    }

    /// The points of the leaves, left to right: what a picture of the tree marks.
    pub fn points(&self) -> (res: Vec<[S; DIM]>)
        ensures
            res@ == self.leaf_points(),
        decreases self,
    {
        match self {
            RTree::Leaf(x, _) => {
                let res = vec![*x];
                proof {
                    assert(res@ =~= self.leaf_points());
                }
                res
            },
            RTree::LeafNode(_, c) => Self::slot_points(c),
            RTree::InternalNode(_, c) => Self::slot_points(c),
        }
    }

    fn slot_points(c: &Vec<Option<Self>>) -> (res: Vec<[S; DIM]>)
        ensures
            res@ == Self::slots_points(c@, c@.len() as int),
        decreases c@,
    {
        let mut res: Vec<[S; DIM]> = Vec::new();
        for i in 0..c.len()
            invariant
                res@ == Self::slots_points(c@, i as int),
        {
            match &c[i] {
                Some(ch) => {
                    proof {
                        assert(decreases_to!(c@ => *ch));
                    }
                    let mut sub = ch.points();
                    res.append(&mut sub);
                    proof {
                        assert(res@ =~= Self::slots_points(c@, i + 1));
                    }
                },
                None => {
                    proof {
                        assert(res@ =~= Self::slots_points(c@, i + 1));
                    }
                },
            }
        }
        res
    }

    /// The rectangles of the nodes of the subtree in pre-order, each with its
    /// depth counted from `depth` at this node.
    pub open spec fn rects_by_depth(self, depth: int) -> Seq<(Rect<S, DIM>, int)>
        decreases self, 0int,
    {
        match self {
            RTree::Leaf(_, _) => Seq::empty(),
            RTree::LeafNode(r, _) => seq![(r, depth)],
            RTree::InternalNode(r, c) => seq![(r, depth)] + Self::slots_rects(c@, depth + 1, c@.len() as int),
        }
    }

    /// The rectangles, in pre-order, of the subtrees in the first `n` slots.
    pub open spec fn slots_rects(s: Seq<Option<Self>>, depth: int, n: int) -> Seq<(Rect<S, DIM>, int)>
        decreases s, n,
    {
        if n <= 0 || n > s.len() {
            Seq::empty()
        } else {
            Self::slots_rects(s, depth, n - 1) + match s[n - 1] {
                Some(c) => c.rects_by_depth(depth),
                None => Seq::empty(),
            }
        }
    }

    /// The rectangles of the nodes in pre-order, each with its depth, this
    /// node's depth being `depth`: what a picture of the tree draws.
    pub fn node_rects(&self, depth: usize) -> (res: Vec<(Rect<S, DIM>, usize)>)
        requires
            depth + self.size() <= usize::MAX,
        ensures
            res@.map_values(|x: (Rect<S, DIM>, usize)| (x.0, x.1 as int)) == self.rects_by_depth(depth as int),
        decreases self,
    {
        match self {
            RTree::Leaf(_, _) => {
                let res: Vec<(Rect<S, DIM>, usize)> = Vec::new();
                proof {
                    assert(res@.map_values(|x: (Rect<S, DIM>, usize)| (x.0, x.1 as int)) =~= self.rects_by_depth(depth as int));
                }
                res
            },
            RTree::LeafNode(r, _) => {
                let res = vec![(*r, depth)];
                proof {
                    assert(res@.map_values(|x: (Rect<S, DIM>, usize)| (x.0, x.1 as int)) =~= self.rects_by_depth(depth as int));
                }
                res
            },
            RTree::InternalNode(r, c) => {
                let mut res = vec![(*r, depth)];
                let ghost head = seq![(*r, depth as int)];
                proof {
                    assert(res@.map_values(|x: (Rect<S, DIM>, usize)| (x.0, x.1 as int)) =~= head + Self::slots_rects(c@, depth + 1, 0));
                }
                for i in 0..c.len()
                    invariant
                        depth + self.size() <= usize::MAX,
                        *self == RTree::<S, T, M, DIM>::InternalNode(*r, *c),
                        head == seq![(*r, depth as int)],
                        res@.map_values(|x: (Rect<S, DIM>, usize)| (x.0, x.1 as int)) == head + Self::slots_rects(c@, depth + 1, i as int),
                {
                    let ghost before = res@;
                    match &c[i] {
                        Some(ch) => {
                            proof {
                                assert(decreases_to!(*self => *ch));
                                Self::lemma_slots_size_child(c@, c@.len() as int, i as int);
                            }
                            let mut sub = ch.node_rects(depth + 1);
                            let ghost sub0 = sub@;
                            res.append(&mut sub);
                            proof {
                                let f = |x: (Rect<S, DIM>, usize)| (x.0, x.1 as int);
                                assert(res@ =~= before + sub0);
                                assert((before + sub0).map_values(f) =~= before.map_values(f) + sub0.map_values(f));
                                assert(head + Self::slots_rects(c@, depth + 1, i + 1) =~= head + Self::slots_rects(c@, depth + 1, i as int) + ch.rects_by_depth(depth + 1));
                            }
                        },
                        None => {
                            proof {
                                assert(Self::slots_rects(c@, depth + 1, i + 1) =~= Self::slots_rects(c@, depth + 1, i as int));
                            }
                        },
                    }
                }
                res
            },
        }
    }
}

impl<S: Scalar, T, const M: usize, const DIM: usize> RTree<S, T, M, DIM> {
    /// Whether the subtree is well formed: what `insert`, `closest` and
    /// `k_closest` ask of a tree built by other means than theirs.
    pub fn is_well_formed(&self) -> (b: bool)
        ensures
            b == self.wf(),
        decreases self,
    {
        let (r, c, leaf_level) = match self {
            RTree::Leaf(_, _) => {
                return true;
            },
            RTree::LeafNode(r, c) => (r, c, true),
            RTree::InternalNode(r, c) => (r, c, false),
        };
        proof {
            assert(!(self is Leaf));
            assert(self.wf() == (c@.len() == M && (exists|n: int| filled(c@, n)) && (!leaf_level ==> taken(c@) >= 1) && r.valid()
                && Self::slots_wf(c@, *r, leaf_level, c@.len() as int)));
        }
        if c.len() != M {
            return false;
        }
        let mut k: usize = 0;
        while k < c.len() && c[k].is_some()
            invariant
                k <= c@.len(),
                forall|j: int| 0 <= j < k ==> (#[trigger] c@[j]) is Some,
            decreases c@.len() - k,
        {
            k = k + 1;
        }
        for j in k..c.len()
            invariant
                k <= c@.len(),
                forall|i: int| 0 <= i < k ==> (#[trigger] c@[i]) is Some,
                k < c@.len() ==> c@[k as int] is None,
                forall|i: int| k <= i < j ==> (#[trigger] c@[i]) is None,
                self.wf() == (c@.len() == M && (exists|n: int| filled(c@, n)) && (!leaf_level ==> taken(c@) >= 1) && r.valid()
                    && Self::slots_wf(c@, *r, leaf_level, c@.len() as int)),
        {
            if c[j].is_some() {
                proof {
                    assert forall|n: int| !filled(c@, n) by {
                        if filled(c@, n) {
                            if n < k {
                                assert(c@[n] is Some);
                            } else if n > k {
                                assert(c@[k as int] is Some);
                            } else {
                                assert(c@[j as int] is None);
                            }
                        }
                    }
                }
                return false;
            }
        }
        proof {
            assert(filled(c@, k as int));
            lemma_filled_unique(c@, k as int);
        }
        if !leaf_level && k == 0 {
            return false;
        }
        if !r.is_valid() {
            return false;
        }
        proof {
            Self::lemma_slots_wf_iff(c@, *r, leaf_level, M as int);
        }
        for i in 0..c.len()
            invariant
                c@.len() == M,
                !(self is Leaf),
                self.wf() == (c@.len() == M && (exists|n: int| filled(c@, n)) && (!leaf_level ==> taken(c@) >= 1) && r.valid()
                    && Self::slots_wf(c@, *r, leaf_level, c@.len() as int)),
                filled(c@, k as int),
                taken(c@) == k,
                r.valid(),
                !leaf_level ==> k >= 1,
                Self::slots_wf(c@, *r, leaf_level, M as int) <==> forall|j: int| 0 <= j < M ==> #[trigger] Self::slot_ok(c@[j], *r, leaf_level),
                forall|j: int| 0 <= j < i ==> #[trigger] Self::slot_ok(c@[j], *r, leaf_level),
                self is LeafNode ==> leaf_level && *self == RTree::<S, T, M, DIM>::LeafNode(*r, *c),
                self is InternalNode ==> !leaf_level && *self == RTree::<S, T, M, DIM>::InternalNode(*r, *c),
        {
            match &c[i] {
                Some(ch) => {
                    let inside = match ch {
                        RTree::Leaf(x, _) => r.contains(x),
                        RTree::LeafNode(cr, _) => r.covers(cr),
                        RTree::InternalNode(cr, _) => r.covers(cr),
                    };
                    proof {
                        assert(c@[i as int] == Some(*ch));
                        assert(Self::slot_ok(c@[i as int], *r, leaf_level) == Self::child_ok(*ch, *r, leaf_level));
                    }
                    if !inside {
                        return false;
                    }
                    if leaf_level {
                        if !ch.is_leaf() {
                            return false;
                        }
                    } else {
                        if ch.is_leaf() {
                            return false;
                        }
                        proof {
                            assert(*self == RTree::<S, T, M, DIM>::InternalNode(*r, *c));
                            assert(decreases_to!(*self => *c));
                            assert(decreases_to!(*self => c@[i as int]));
                            assert(decreases_to!(*self => *ch));
                        }
                        if !ch.is_well_formed() {
                            return false;
                        }
                        let cs = match ch {
                            RTree::LeafNode(_, cs) => cs,
                            RTree::InternalNode(_, cs) => cs,
                            RTree::Leaf(_, _) => {
                                return false;
                            },
                        };
                        if cs.len() == 0 || Self::n_taken(cs) == 0 {
                            proof {
                                if cs@.len() == 0 {
                                    assert(filled(cs@, 0));
                                    lemma_filled_unique(cs@, 0);
                                }
                            }
                            return false;
                        }
                    }
                },
                None => {},
            }
        }
        true
    }

    /// Whether the tree is one that queries and insertions accept.
    pub fn is_well_formed_root(&self) -> (b: bool)
        ensures
            b == self.wf_root(),
    {
        !self.is_leaf() && self.is_well_formed()
    }
}

/// A shared handle on the value that `r` holds (`Rc::clone`).
#[verifier::external_body]
pub(crate) fn share<T>(r: &Rc<T>) -> (c: Rc<T>)
    ensures
        c == *r,
{
    Rc::clone(r)
}

impl<S: Scalar, T, const M: usize, const DIM: usize> RTree<S, T, M, DIM> {
    /// `a` is a copy of `b` as far as the specifications can tell: the same
    /// kind, point or rectangle, slot pattern, entries and well-formedness.
    pub open spec fn alike(a: Self, b: Self) -> bool {
        &&& a.entries() == b.entries()
        &&& a.wf() == b.wf()
        &&& (a is Leaf <==> b is Leaf)
        &&& (a is LeafNode <==> b is LeafNode)
        &&& (a is Leaf ==> a == b)
        &&& (a.is_node() ==> a.node_rect() == b.node_rect())
        &&& a.slots().len() == b.slots().len()
        &&& forall|i: int| 0 <= i < a.slots().len() ==> ((#[trigger] a.slots()[i]) is Some <==> b.slots()[i] is Some)
        &&& b.wf() ==> a.n_children() == b.n_children()
        &&& b.wf() ==> forall|h: int| #[trigger] a.balanced(h) == b.balanced(h)
    }

    pub open spec fn slots_alike(s: Seq<Option<Self>>, t: Seq<Option<Self>>) -> bool {
        &&& s.len() == t.len()
        &&& forall|i: int| 0 <= i < s.len() ==> match (#[trigger] s[i], t[i]) {
            (Some(a), Some(b)) => Self::alike(a, b),
            (None, None) => true,
            _ => false,
        }
    }

    proof fn lemma_alike_taken(s: Seq<Option<Self>>, t: Seq<Option<Self>>)
        requires
            s.len() == t.len(),
            forall|i: int| 0 <= i < s.len() ==> ((#[trigger] s[i]) is Some <==> t[i] is Some),
        ensures
            (exists|k: int| filled(s, k)) == (exists|k: int| filled(t, k)),
            (exists|k: int| filled(t, k)) ==> taken(s) == taken(t),
    {
        if exists|k: int| filled(t, k) {
            let k = taken(t);
            assert(filled(t, k));
            assert(filled(s, k));
            lemma_filled_unique(s, k);
        }
        if exists|k: int| filled(s, k) {
            let k = taken(s);
            assert(filled(s, k));
            assert forall|i: int| 0 <= i < k implies (#[trigger] t[i]) is Some by {
                assert(s[i] is Some);
            }
            assert forall|i: int| k <= i < t.len() implies (#[trigger] t[i]) is None by {
                assert(s[i] is None);
            }
            assert(filled(t, k));
        }
    }

    proof fn lemma_slots_alike(s: Seq<Option<Self>>, t: Seq<Option<Self>>, r: Rect<S, DIM>, lv: bool, n: int)
        requires
            Self::slots_alike(s, t),
            0 <= n <= s.len(),
        ensures
            Self::slots_entries(s, n) == Self::slots_entries(t, n),
            Self::slots_wf(s, r, lv, n) == Self::slots_wf(t, r, lv, n),
            Self::slots_wf(t, r, false, n) ==> forall|h: int| #[trigger] Self::slots_balanced(s, h, n) == Self::slots_balanced(t, h, n),
        decreases n,
    {
        if n > 0 {
            Self::lemma_slots_alike(s, t, r, lv, n - 1);
            if Self::slots_wf(t, r, false, n) {
                assert(Self::slots_wf(t, r, false, n - 1));
                assert forall|h: int| #[trigger] Self::slots_balanced(s, h, n) == Self::slots_balanced(t, h, n) by {
                    assert(Self::slots_balanced(s, h, n - 1) == Self::slots_balanced(t, h, n - 1));
                    match (s[n - 1], t[n - 1]) {
                        (Some(a), Some(b)) => {
                            assert(Self::alike(a, b));
                            assert(Self::child_ok(b, r, false));
                            assert(a.balanced(h) == b.balanced(h));
                        },
                        _ => {
                        },
                    }
                }
            }
            Self::lemma_slots_entries_unfold(s, n);
            Self::lemma_slots_entries_unfold(t, n);
            match (s[n - 1], t[n - 1]) {
                (Some(a), Some(b)) => {
                    assert(Self::alike(a, b));
                    Self::lemma_alike_taken(a.slots(), b.slots());
                    assert(Self::child_ok(a, r, lv) == Self::child_ok(b, r, lv));
                },
                _ => {
                },
            }
        }
    }

    fn clone_slots(c: &Vec<Option<Self>>) -> (res: Vec<Option<Self>>)
        ensures
            Self::slots_alike(res@, c@),
        decreases c@,
    {
        let mut res: Vec<Option<Self>> = Vec::new();
        for i in 0..c.len()
            invariant
                res@.len() == i,
                forall|j: int| 0 <= j < i ==> match (#[trigger] res@[j], c@[j]) {
                    (Some(a), Some(b)) => Self::alike(a, b),
                    (None, None) => true,
                    _ => false,
                },
        {
            match &c[i] {
                Some(t) => {
                    proof {
                        assert(decreases_to!(c@ => *t));
                    }
                    res.push(Some(t.clone()));
                },
                None => res.push(None),
            }
        }
        res
    }
}

impl<S: Scalar, T, const M: usize, const DIM: usize> Clone for RTree<S, T, M, DIM> {
    /// A copy of the tree whose leaves share their values with this one.
    fn clone(&self) -> (t: Self)
        ensures
            Self::alike(t, *self),
            self.is_rtree() ==> t.is_rtree(),
        decreases self,
    {
        match self {
            RTree::Leaf(x, v) => RTree::Leaf(*x, share(v)),
            RTree::LeafNode(r, c) => {
                let c2 = Self::clone_slots(c);
                proof {
                    Self::lemma_slots_alike(c2@, c@, *r, true, c@.len() as int);
                    Self::lemma_alike_taken(c2@, c@);
                    if self.is_rtree() {
                        assert(RTree::<S, T, M, DIM>::LeafNode(*r, c2).balanced(1));
                    }
                }
                RTree::LeafNode(*r, c2)
            },
            RTree::InternalNode(r, c) => {
                let c2 = Self::clone_slots(c);
                proof {
                    Self::lemma_slots_alike(c2@, c@, *r, false, c@.len() as int);
                    Self::lemma_alike_taken(c2@, c@);
                    let t = RTree::<S, T, M, DIM>::InternalNode(*r, c2);
                    if self.wf() {
                        assert(Self::slots_wf(c@, *r, false, c@.len() as int));
                        assert forall|h: int| #[trigger] t.balanced(h) == self.balanced(h) by {
                            assert(Self::slots_balanced(c2@, h - 1, c@.len() as int) == Self::slots_balanced(c@, h - 1, c@.len() as int));
                        }
                    }
                    if self.is_rtree() {
                        let h = choose|h: int| self.balanced(h);
                        assert(t.balanced(h));
                    }
                }
                RTree::InternalNode(*r, c2)
            },
        }
    }
}

} // verus!
