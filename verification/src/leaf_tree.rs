//! A k-d tree that keeps its points in the leaves only: an inner node holds
//! two subtrees and one coordinate taken from the lower one.

use vstd::prelude::*;
use crate::order::{lemma_stable_sort, sort_by_axis, stable_sort};

verus! {

/// A k-d tree with the points in its leaves. `XSplit` cuts along `x`,
/// `YSplit` along `y`; the number in a split is the coordinate, along the
/// split's axis, of the last point of its lower subtree.
#[derive(Debug, PartialEq, Eq)]
pub enum KDTree {
    Leaf((i32, i32)),
    XSplit(Box<KDTree>, Box<KDTree>, i32),
    YSplit(Box<KDTree>, Box<KDTree>, i32),
}

impl Clone for KDTree {
    fn clone(&self) -> (r: Self)
        ensures
            r == *self,
    {
        self.copy()
    }
}

impl KDTree {
    /// A copy of the tree.
    fn copy(&self) -> (r: Self)
        ensures
            r == *self,
        decreases self,
    {
        match self {
            KDTree::Leaf(p) => KDTree::Leaf(*p),
            KDTree::XSplit(l, r, c) => KDTree::XSplit(Box::new(l.copy()), Box::new(r.copy()), *c),
            KDTree::YSplit(l, r, c) => KDTree::YSplit(Box::new(l.copy()), Box::new(r.copy()), *c),
        }
    }

    /// The points of the tree, lower subtree first.
    pub open spec fn inorder(self) -> Seq<(i32, i32)>
        decreases self,
    {
        match self {
            KDTree::Leaf(p) => seq![p],
            KDTree::XSplit(l, r, _) => l.inorder() + r.inorder(),
            KDTree::YSplit(l, r, _) => l.inorder() + r.inorder(),
        }
    }

    /// The tree over `pts` that splits first along `axis`.
    ///
    /// One point is a `Leaf`. More are sorted along the axis, ties in their
    /// given order, and halved: the first `len / 2` form the lower subtree,
    /// the rest the upper one, both split along the other axis. The split
    /// stores the coordinate along its axis of the point that comes last in
    /// the lower subtree.
    pub open spec fn build(pts: Seq<(i32, i32)>, axis: usize) -> KDTree
        decreases pts.len(),
    {
        let s = stable_sort(pts, axis as int);
        if pts.len() <= 1 {
            KDTree::Leaf(s[0])
        } else {
            proof {
                lemma_stable_sort(pts, axis as int);
            }
            let mid = (pts.len() / 2) as int;
            let other: usize = if axis == 0 {
                1
            } else {
                0
            };
            let l = Self::build(s.subrange(0, mid), other);
            let r = Self::build(s.subrange(mid, pts.len() as int), other);
            if axis == 0 {
                KDTree::XSplit(Box::new(l), Box::new(r), l.inorder().last().0)
            } else {
                KDTree::YSplit(Box::new(l), Box::new(r), l.inorder().last().1)
            }
        }
    }

    /// A tree that was built stores exactly the points it was built from.
    pub proof fn lemma_build_stores(pts: Seq<(i32, i32)>, axis: usize)
        requires
            pts.len() > 0,
        ensures
            Self::build(pts, axis).inorder().to_multiset() == pts.to_multiset(),
            Self::build(pts, axis).inorder().len() == pts.len(),
        decreases pts.len(),
    {
        let s = stable_sort(pts, axis as int);
        lemma_stable_sort(pts, axis as int);
        let t = Self::build(pts, axis);
        if pts.len() == 1 {
            assert(t.inorder() =~= s);
        } else {
            let mid = (pts.len() / 2) as int;
            let other: usize = if axis == 0 {
                1
            } else {
                0
            };
            let left = s.subrange(0, mid);
            let right = s.subrange(mid, pts.len() as int);
            Self::lemma_build_stores(left, other);
            Self::lemma_build_stores(right, other);
            let l = Self::build(left, other);
            let r = Self::build(right, other);
            assert(t.inorder() == l.inorder() + r.inorder());
            assert(s =~= left + right);
            vstd::seq_lib::lemma_multiset_commutative(left, right);
            vstd::seq_lib::lemma_multiset_commutative(l.inorder(), r.inorder());
        }
    }

    /// Builds the tree over the points of `pts`, splitting first along `x`;
    /// `None` where there is no point.
    ///
    /// The slice is reordered: afterwards it holds the points in the tree's
    /// order.
    pub fn new(pts: &mut [(i32, i32)]) -> (r: Option<Self>)
        ensures
            r is None <==> old(pts)@.len() == 0,
            r matches Some(t) ==> t == Self::build(old(pts)@, 0),
            r matches Some(t) ==> final(pts)@ == t.inorder(),
            r is None ==> final(pts)@ == old(pts)@,
            final(pts)@.to_multiset() == old(pts)@.to_multiset(),
    {
        if pts.is_empty() {
            None
        } else {
            Some(Self::x_split(pts))
        }
    }

    fn x_split(pts: &mut [(i32, i32)]) -> (t: Self)
        requires
            old(pts)@.len() > 0,
        ensures
            t == Self::build(old(pts)@, 0),
            final(pts)@ == t.inorder(),
            final(pts)@.to_multiset() == old(pts)@.to_multiset(),
        decreases old(pts)@.len(),
    {
        proof {
            lemma_stable_sort(pts@, 0);
            Self::lemma_build_stores(pts@, 0);
        }
        sort_by_axis(pts, 0);

        let n = pts.len();
        let mid = n / 2;
        if n == 1 {
            let p = pts[0];
            assert(pts@ =~= seq![p]);
            return KDTree::Leaf(p);
        }
        let (left, right) = pts.split_at_mut(mid);
        let ghost lower = left@;
        let l = Self::y_split(left);
        let r = Self::y_split(right);
        proof {
            Self::lemma_build_stores(lower, 1);
        }
        let c = left[left.len() - 1].0;
        KDTree::XSplit(Box::new(l), Box::new(r), c)
    }

    fn y_split(pts: &mut [(i32, i32)]) -> (t: Self)
        requires
            old(pts)@.len() > 0,
        ensures
            t == Self::build(old(pts)@, 1),
            final(pts)@ == t.inorder(),
            final(pts)@.to_multiset() == old(pts)@.to_multiset(),
        decreases old(pts)@.len(),
    {
        proof {
            lemma_stable_sort(pts@, 1);
            Self::lemma_build_stores(pts@, 1);
        }
        sort_by_axis(pts, 1);

        let n = pts.len();
        let mid = n / 2;
        if n == 1 {
            let p = pts[0];
            assert(pts@ =~= seq![p]);
            return KDTree::Leaf(p);
        }
        let (left, right) = pts.split_at_mut(mid);
        let ghost lower = left@;
        let l = Self::x_split(left);
        let r = Self::x_split(right);
        proof {
            Self::lemma_build_stores(lower, 0);
        }
        let c = left[left.len() - 1].1;
        KDTree::YSplit(Box::new(l), Box::new(r), c)
    }
}

} // verus!
