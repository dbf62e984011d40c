//! A point k-d tree: every inner node stores the median point of its region
//! and splits the rest on alternating axes.
//!
//! This module has the tree, what it means to build one, and the building.
//! The queries are in [`crate::kd_search`].

use vstd::prelude::*;
use vstd::multiset::Multiset;
use crate::aabb::{AABB, Point};
use crate::order::{
    apart, lemma_count_one, lemma_item_of, lemma_stable_sort, lemma_stable_sort_of_same_items,
    sort_by_axis, stable_sort, untied, Keyed,
};

verus! {

/// A k-d tree over points of the plane.
///
/// `Leaf(point, region)` holds one point. `Split(left, right, axis, pivot,
/// region)` holds the pivot itself and two subtrees, cut along `axis` at the
/// pivot's coordinate. `Empty` stands for a side without points.
#[derive(Debug, PartialEq, Eq)]
pub enum KDTree {
    Empty,
    Leaf([u32; 2], AABB),
    Split(Box<KDTree>, Box<KDTree>, usize, [u32; 2], AABB),
}

/// Every point of `pts` lies in `bb` or on one of its upper edges.
pub open spec fn covered(pts: Seq<Point>, bb: AABB) -> bool {
    forall|i: int| 0 <= i < pts.len() ==> bb.bounds(#[trigger] pts[i])
}

/// The axis that follows `axis` in the alternation.
pub open spec fn next_axis(axis: usize) -> usize {
    ((axis + 1) % 2) as usize
}

impl Clone for KDTree {
    fn clone(&self) -> (r: Self)
        ensures
            r == *self,
    {
        self.copy()
    }
}

impl KDTree {
    /// A copy of the tree.
    fn copy(&self) -> (r: Self)
        ensures
            r == *self,
        decreases self,
    {
        match self {
            KDTree::Empty => KDTree::Empty,
            KDTree::Leaf(p, bb) => KDTree::Leaf(*p, *bb),
            KDTree::Split(l, r, a, p, bb) => KDTree::Split(
                Box::new(l.copy()),
                Box::new(r.copy()),
                *a,
                *p,
                *bb,
            ),
        }
    }

    /// The points of the tree from left to right: a left subtree, then the
    /// pivot, then the right subtree.
    pub open spec fn inorder(self) -> Seq<Point>
        decreases self,
    {
        match self {
            KDTree::Empty => Seq::empty(),
            KDTree::Leaf(p, _) => seq![p],
            KDTree::Split(l, r, _, p, _) => l.inorder() + seq![p] + r.inorder(),
        }
    }

    /// The points that the tree stores, leaves and pivots, with multiplicity.
    pub open spec fn points(self) -> Multiset<Point> {
        self.inorder().to_multiset()
    }

    /// The invariant that the queries rely on. At every `Split` the axis is 0
    /// or 1, a child is present, no point of the left subtree lies above the
    /// pivot along the axis and none of the right subtree below it. No point
    /// at or below a node lies left of the node's region or below it.
    pub open spec fn wf(self) -> bool
        decreases self,
    {
        match self {
            KDTree::Empty => true,
            KDTree::Leaf(p, bb) => bb.precedes(p),
            KDTree::Split(l, r, a, p, bb) => {
                &&& a < 2
                &&& !(*l is Empty && *r is Empty)
                &&& l.wf()
                &&& r.wf()
                &&& forall|q: Point| #[trigger] l.points().count(q) > 0 ==> q[a as int] <= p[a as int]
                &&& forall|q: Point| #[trigger] r.points().count(q) > 0 ==> q[a as int] >= p[a as int]
                &&& forall|q: Point| #[trigger] self.points().count(q) > 0 ==> bb.precedes(q)
            },
        }
    }

    /// The invariant that the pictures rely on. The region of every node
    /// lies within the coordinate range and bounds all points at and below
    /// the node, its upper edges included.
    pub open spec fn boxed(self) -> bool
        decreases self,
    {
        match self {
            KDTree::Empty => true,
            KDTree::Leaf(p, bb) => bb.fits() && bb.bounds(p),
            KDTree::Split(l, r, _, _, bb) => {
                &&& bb.fits()
                &&& l.boxed()
                &&& r.boxed()
                &&& forall|q: Point| #[trigger] self.points().count(q) > 0 ==> bb.bounds(q)
            },
        }
    }

    /// At every `Split`, no point of the left subtree lies above the pivot
    /// along the node's axis, and every point of the right subtree lies
    /// strictly above it.
    pub open spec fn strictly_cut(self) -> bool
        decreases self,
    {
        match self {
            KDTree::Empty => true,
            KDTree::Leaf(_, _) => true,
            KDTree::Split(l, r, a, p, _) => {
                &&& l.strictly_cut()
                &&& r.strictly_cut()
                &&& forall|q: Point| #[trigger] l.points().count(q) > 0 ==> q[a as int] <= p[a as int]
                &&& forall|q: Point| #[trigger] r.points().count(q) > 0 ==> q[a as int] > p[a as int]
            },
        }
    }

    /// The tree over `pts` that splits first along `axis` and whose root has
    /// the region `bb`.
    ///
    /// The points are sorted along the axis, ties in their given order; the
    /// one at index `len / 2` becomes the pivot, those before it form the left
    /// subtree over the part of `bb` below the pivot's coordinate, those after
    /// it the right subtree over the part above, both split along the other
    /// axis. One point alone is a `Leaf`, none is `Empty`.
    pub open spec fn build(pts: Seq<Point>, axis: usize, bb: AABB) -> KDTree
        decreases pts.len(),
    {
        if pts.len() == 0 {
            KDTree::Empty
        } else {
            let s = stable_sort(pts, axis as int);
            let mid = (pts.len() / 2) as int;
            let pivot = s[mid];
            if pts.len() == 1 {
                KDTree::Leaf(pivot, bb)
            } else {
                proof {
                    lemma_stable_sort(pts, axis as int);
                }
                KDTree::Split(
                    Box::new(
                        Self::build(
                            s.subrange(0, mid),
                            next_axis(axis),
                            bb.below(axis as int, pivot[axis as int]),
                        ),
                    ),
                    Box::new(
                        Self::build(
                            s.subrange(mid + 1, pts.len() as int),
                            next_axis(axis),
                            bb.above(axis as int, pivot[axis as int]),
                        ),
                    ),
                    axis,
                    pivot,
                    bb,
                )
            }
        }
    }

    /// How often a `Split` stores a point: as often as its subtrees do, and
    /// once more where the point is the pivot.
    pub proof fn lemma_split_points(self, x: Point)
        requires
            self is Split,
        ensures
            self.points().count(x) == self->Split_0.points().count(x) + self->Split_1.points().count(
                x,
            ) + if x == self->Split_3 {
                1nat
            } else {
                0nat
            },
    {
        let l = self->Split_0;
        let r = self->Split_1;
        let p = self->Split_3;
        lemma_count_one(p, x);
        vstd::seq_lib::lemma_multiset_commutative(l.inorder() + seq![p], r.inorder());
        vstd::seq_lib::lemma_multiset_commutative(l.inorder(), seq![p]);
    }

    /// The sorted points fall into the left side, the pivot and the right
    /// side, and hold between them the points given.
    proof fn lemma_sides(pts: Seq<Point>, axis: usize, x: Point)
        requires
            pts.len() > 0,
        ensures
            ({
                let s = stable_sort(pts, axis as int);
                let mid = (pts.len() / 2) as int;
                let left = s.subrange(0, mid);
                let right = s.subrange(mid + 1, pts.len() as int);
                &&& s.len() == pts.len()
                &&& s == left + seq![s[mid]] + right
                &&& pts.to_multiset().count(x) == left.to_multiset().count(x)
                    + right.to_multiset().count(x) + if x == s[mid] {
                    1nat
                } else {
                    0nat
                }
            }),
    {
        let s = stable_sort(pts, axis as int);
        let mid = (pts.len() / 2) as int;
        let left = s.subrange(0, mid);
        let right = s.subrange(mid + 1, pts.len() as int);
        lemma_stable_sort(pts, axis as int);
        assert(s =~= left + seq![s[mid]] + right);
        lemma_count_one(s[mid], x);
        vstd::seq_lib::lemma_multiset_commutative(left + seq![s[mid]], right);
        vstd::seq_lib::lemma_multiset_commutative(left, seq![s[mid]]);
    }

    /// A tree that was built stores exactly the points it was built from,
    /// each as often as it was given.
    pub proof fn lemma_build_stores(pts: Seq<Point>, axis: usize, bb: AABB)
        ensures
            Self::build(pts, axis, bb).points() == pts.to_multiset(),
            Self::build(pts, axis, bb) is Empty <==> pts.len() == 0,
        decreases pts.len(),
    {
        let t = Self::build(pts, axis, bb);
        if pts.len() == 0 {
            assert(pts =~= t.inorder());
        } else {
            let s = stable_sort(pts, axis as int);
            lemma_stable_sort(pts, axis as int);
            let mid = (pts.len() / 2) as int;
            let c = s[mid][axis as int];
            if pts.len() == 1 {
                assert(s =~= seq![s[mid]]);
                assert(t.inorder() == s);
            } else {
                let left = s.subrange(0, mid);
                let right = s.subrange(mid + 1, pts.len() as int);
                Self::lemma_build_stores(left, next_axis(axis), bb.below(axis as int, c));
                Self::lemma_build_stores(right, next_axis(axis), bb.above(axis as int, c));
                assert forall|x: Point| t.points().count(x) == pts.to_multiset().count(x) by {
                    t.lemma_split_points(x);
                    Self::lemma_sides(pts, axis, x);
                }
                assert(t.points() =~= pts.to_multiset());
            }
        }
    }

    /// A tree that was built is well formed, wherever the points lie beyond
    /// the origin of the region.
    pub proof fn lemma_build_wf(pts: Seq<Point>, axis: usize, bb: AABB)
        requires
            axis < 2,
            forall|i: int| 0 <= i < pts.len() ==> bb.precedes(#[trigger] pts[i]),
        ensures
            Self::build(pts, axis, bb).wf(),
        decreases pts.len(),
    {
        let t = Self::build(pts, axis, bb);
        if pts.len() > 0 {
            let s = stable_sort(pts, axis as int);
            lemma_stable_sort(pts, axis as int);
            let mid = (pts.len() / 2) as int;
            let c = s[mid][axis as int];
            assert forall|i: int| 0 <= i < s.len() implies bb.precedes(#[trigger] s[i]) by {
                let j = lemma_item_of(s, pts, i);
                assert(bb.precedes(pts[j]));
            }
            assert(bb.precedes(s[mid]));
        }
        if pts.len() >= 2 {
            let s = stable_sort(pts, axis as int);
            let mid = (pts.len() / 2) as int;
            let c = s[mid][axis as int];
            let left = s.subrange(0, mid);
            let right = s.subrange(mid + 1, pts.len() as int);
            let lb = bb.below(axis as int, c);
            let rb = bb.above(axis as int, c);
            let l = Self::build(left, next_axis(axis), lb);
            let r = Self::build(right, next_axis(axis), rb);
            assert forall|i: int| 0 <= i < left.len() implies lb.precedes(#[trigger] left[i]) by {
                assert(left[i] == s[i]);
                assert(bb.precedes(s[i]));
            }
            assert forall|i: int| 0 <= i < right.len() implies rb.precedes(#[trigger] right[i]) by {
                assert(right[i] == s[mid + 1 + i]);
                assert(bb.precedes(s[mid + 1 + i]));
                assert(s[mid].key(axis as int) <= s[mid + 1 + i].key(axis as int));
            }
            Self::lemma_build_wf(left, next_axis(axis), lb);
            Self::lemma_build_wf(right, next_axis(axis), rb);
            Self::lemma_build_stores(left, next_axis(axis), lb);
            Self::lemma_build_stores(right, next_axis(axis), rb);
            Self::lemma_build_stores(pts, axis, bb);
            pts.to_multiset_ensures();
            assert forall|q: Point| #[trigger] t.points().count(q) > 0 implies bb.precedes(q) by {
                let i = choose|i: int| 0 <= i < pts.len() && pts[i] == q;
                assert(bb.precedes(pts[i]));
            }
            left.to_multiset_ensures();
            right.to_multiset_ensures();
            assert forall|q: Point| #[trigger] l.points().count(q) > 0 implies q[axis as int]
                <= s[mid][axis as int] by {
                let i = choose|i: int| 0 <= i < left.len() && left[i] == q;
                assert(left[i] == s[i]);
                assert(s[i].key(axis as int) <= s[mid].key(axis as int));
            }
            assert forall|q: Point| #[trigger] r.points().count(q) > 0 implies q[axis as int]
                >= s[mid][axis as int] by {
                let i = choose|i: int| 0 <= i < right.len() && right[i] == q;
                assert(right[i] == s[mid + 1 + i]);
                assert(s[mid].key(axis as int) <= s[mid + 1 + i].key(axis as int));
            }
        }
    }

    /// A tree that was built over a region within the coordinate range, from
    /// points that the region bounds, has regions that bound their points.
    pub proof fn lemma_build_boxed(pts: Seq<Point>, axis: usize, bb: AABB)
        requires
            axis < 2,
            bb.fits(),
            covered(pts, bb),
        ensures
            Self::build(pts, axis, bb).boxed(),
        decreases pts.len(),
    {
        let t = Self::build(pts, axis, bb);
        if pts.len() > 0 {
            let s = stable_sort(pts, axis as int);
            lemma_stable_sort(pts, axis as int);
            let mid = (pts.len() / 2) as int;
            let c = s[mid][axis as int];
            assert forall|i: int| 0 <= i < s.len() implies bb.bounds(#[trigger] s[i]) by {
                let j = lemma_item_of(s, pts, i);
                assert(bb.bounds(pts[j]));
            }
            assert(bb.bounds(s[mid]));
            if pts.len() >= 2 {
                let left = s.subrange(0, mid);
                let right = s.subrange(mid + 1, pts.len() as int);
                let lb = bb.below(axis as int, c);
                let rb = bb.above(axis as int, c);
                assert forall|i: int| 0 <= i < left.len() implies lb.bounds(#[trigger] left[i]) by {
                    assert(left[i] == s[i]);
                    assert(bb.bounds(s[i]));
                    assert(s[i].key(axis as int) <= s[mid].key(axis as int));
                }
                assert forall|i: int| 0 <= i < right.len() implies rb.bounds(
                    #[trigger] right[i],
                ) by {
                    assert(right[i] == s[mid + 1 + i]);
                    assert(bb.bounds(s[mid + 1 + i]));
                    assert(s[mid].key(axis as int) <= s[mid + 1 + i].key(axis as int));
                }
                Self::lemma_build_boxed(left, next_axis(axis), lb);
                Self::lemma_build_boxed(right, next_axis(axis), rb);
                Self::lemma_build_stores(pts, axis, bb);
                pts.to_multiset_ensures();
                assert forall|q: Point| #[trigger] t.points().count(q) > 0 implies bb.bounds(q) by {
                    let i = choose|i: int| 0 <= i < pts.len() && pts[i] == q;
                    assert(bb.bounds(pts[i]));
                }
            }
        }
    }

    /// Built from points no two of which share an `x` or a `y`, the tree is
    /// strictly cut: above every pivot lie only larger coordinates.
    ///
    /// With ties the right subtree may hold points level with the pivot; that
    /// none lies below it holds of every built tree.
    pub proof fn lemma_build_strictly_cut(pts: Seq<Point>, axis: usize, bb: AABB)
        requires
            axis < 2,
            apart(pts.to_multiset(), 0),
            apart(pts.to_multiset(), 1),
        ensures
            Self::build(pts, axis, bb).strictly_cut(),
        decreases pts.len(),
    {
        if pts.len() >= 2 {
            let s = stable_sort(pts, axis as int);
            lemma_stable_sort(pts, axis as int);
            let mid = (pts.len() / 2) as int;
            let pivot = s[mid];
            let c = pivot[axis as int];
            let left = s.subrange(0, mid);
            let right = s.subrange(mid + 1, pts.len() as int);
            let lb = bb.below(axis as int, c);
            let rb = bb.above(axis as int, c);
            let l = Self::build(left, next_axis(axis), lb);
            let r = Self::build(right, next_axis(axis), rb);
            assert forall|x: Point|
                pts.to_multiset().count(x) >= left.to_multiset().count(x)
                    + right.to_multiset().count(x) by {
                Self::lemma_sides(pts, axis, x);
            }
            assert(apart(left.to_multiset(), 0) && apart(left.to_multiset(), 1)) by {
                assert forall|a: Point, b: Point, k: int|
                    0 <= k < 2 && left.to_multiset().count(a) > 0 && left.to_multiset().count(b) > 0
                        && a.key(k) == b.key(k) implies a == b && left.to_multiset().count(a)
                    == 1 by {
                    assert(pts.to_multiset().count(a) > 0 && pts.to_multiset().count(b) > 0);
                }
            }
            assert(apart(right.to_multiset(), 0) && apart(right.to_multiset(), 1)) by {
                assert forall|a: Point, b: Point, k: int|
                    0 <= k < 2 && right.to_multiset().count(a) > 0 && right.to_multiset().count(b)
                        > 0 && a.key(k) == b.key(k) implies a == b && right.to_multiset().count(a)
                    == 1 by {
                    assert(pts.to_multiset().count(a) > 0 && pts.to_multiset().count(b) > 0);
                }
            }
            Self::lemma_build_strictly_cut(left, next_axis(axis), lb);
            Self::lemma_build_strictly_cut(right, next_axis(axis), rb);
            Self::lemma_build_stores(left, next_axis(axis), lb);
            Self::lemma_build_stores(right, next_axis(axis), rb);
            left.to_multiset_ensures();
            right.to_multiset_ensures();
            assert forall|q: Point| #[trigger] l.points().count(q) > 0 implies q[axis as int]
                <= pivot[axis as int] by {
                let i = choose|i: int| 0 <= i < left.len() && left[i] == q;
                assert(left[i] == s[i]);
                assert(s[i].key(axis as int) <= s[mid].key(axis as int));
            }
            assert forall|q: Point| #[trigger] r.points().count(q) > 0 implies q[axis as int]
                > pivot[axis as int] by {
                let i = choose|i: int| 0 <= i < right.len() && right[i] == q;
                assert(right[i] == s[mid + 1 + i]);
                assert(s[mid].key(axis as int) <= s[mid + 1 + i].key(axis as int));
                if q[axis as int] == pivot[axis as int] {
                    Self::lemma_sides(pts, axis, pivot);
                    Self::lemma_sides(pts, axis, q);
                    assert(q.key(axis as int) == pivot.key(axis as int));
                    assert(q == pivot);
                    assert(pts.to_multiset().count(pivot) >= 2);
                }
            }
        }
    }

    /// The order in which the points are given does not matter to the tree
    /// where no two different points share the coordinate of the first cut:
    /// the same points then give the same tree.
    pub proof fn lemma_build_ignores_order(a: Seq<Point>, b: Seq<Point>, axis: usize, bb: AABB)
        requires
            a.to_multiset() == b.to_multiset(),
            untied(a.to_multiset(), axis as int),
        ensures
            Self::build(a, axis, bb) == Self::build(b, axis, bb),
    {
        a.to_multiset_ensures();
        b.to_multiset_ensures();
        lemma_stable_sort_of_same_items(a, b, axis as int);
    }

    /// Builds the tree over the points of `pts` for the region `[0, w) x [0, h)`.
    ///
    /// The slice is reordered: afterwards it holds the points in the tree's
    /// left-to-right order. Points beyond the region are taken as well; the
    /// queries serve them, but the regions of the tree do not bound them, and
    /// there is no picture of such a tree. No point of a right
    /// subtree lies below the pivot; where no two points share a coordinate,
    /// all lie strictly above it.
    pub fn new(pts: &mut [[u32; 2]], w: u32, h: u32) -> (t: Self)
        ensures
            t == Self::build(old(pts)@, 0, AABB::at(0, 0, w, h)),
            final(pts)@ == t.inorder(),
            t.points() == old(pts)@.to_multiset(),
            t is Empty <==> old(pts)@.len() == 0,
            t.wf(),
            covered(old(pts)@, AABB::at(0, 0, w, h)) ==> t.boxed(),
            apart(old(pts)@.to_multiset(), 0) && apart(old(pts)@.to_multiset(), 1)
                ==> t.strictly_cut(),
    {
        let bb = AABB::new(0, 0, w, h);
        proof {
            Self::lemma_build_stores(pts@, 0, bb);
            Self::lemma_build_wf(pts@, 0, bb);
            if covered(pts@, bb) {
                Self::lemma_build_boxed(pts@, 0, bb);
            }
            if apart(pts@.to_multiset(), 0) && apart(pts@.to_multiset(), 1) {
                Self::lemma_build_strictly_cut(pts@, 0, bb);
            }
        }
        if pts.len() == 0 {
            KDTree::Empty
        } else {
            Self::split(pts, 0, bb)
        }
    }

    fn split(pts: &mut [[u32; 2]], axis: usize, bb: AABB) -> (t: Self)
        requires
            axis < 2,
            old(pts)@.len() > 0,
        ensures
            t == Self::build(old(pts)@, axis, bb),
            final(pts)@ == t.inorder(),
        decreases old(pts)@.len(),
    {
        proof {
            lemma_stable_sort(pts@, axis as int);
        }
        sort_by_axis(pts, axis);

        let n = pts.len();
        let mid = n / 2;
        let pivot = pts[mid];
        let split_coord = pivot[axis];
        let (left_bb, right_bb) = bb.split_along(axis, split_coord);
        let next = (axis + 1) % 2;
        let ghost s = pts@;
        let (left, rest) = pts.split_at_mut(mid);
        if n == 1 {
            assert(left@ + rest@ =~= seq![pivot]);
            KDTree::Leaf(pivot, bb)
        } else if n == 2 {
            let l = Self::split(left, next, left_bb);
            assert(rest@ =~= seq![pivot]);
            assert(s.subrange(mid + 1, n as int).len() == 0);
            assert(Self::build(s.subrange(mid + 1, n as int), next, right_bb) == KDTree::Empty);
            assert(KDTree::Empty.inorder() =~= Seq::<Point>::empty());
            let t = KDTree::Split(Box::new(l), Box::new(KDTree::Empty), axis, pivot, bb);
            assert(l.inorder() + rest@ =~= t.inorder());
            t
        } else {
            let (one, right) = rest.split_at_mut(1);
            assert(one@ =~= seq![pivot]);
            assert(right@ =~= s.subrange(mid + 1, n as int));
            let l = Self::split(left, next, left_bb);
            let r = Self::split(right, next, right_bb);
            let t = KDTree::Split(Box::new(l), Box::new(r), axis, pivot, bb);
            assert(l.inorder() + (one@ + r.inorder()) =~= t.inorder());
            t
        }
    }
}

} // verus!
