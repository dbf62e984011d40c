//! The regions of a quadtree: when they hold the points below them, and over
//! which root regions they are sure to.

use vstd::prelude::*;
use vstd::arithmetic::power2::{lemma2_to64, lemma_pow2_unfold, pow2};
use vstd::multiset::Multiset;
use crate::aabb::{AABB, Point};
use crate::quadtree::{part, quadrant_of, QuadTree};

verus! {

/// Every point of `pts` lies inside `bb`.
pub open spec fn held(pts: Seq<Point>, bb: AABB) -> bool {
    forall|i: int| 0 <= i < pts.len() ==> bb.holds(#[trigger] pts[i])
}

impl QuadTree {
    /// The invariant that a range search relies on: at every `Quad`, all points
    /// below it lie inside its region.
    pub open spec fn wf(self) -> bool
        decreases self,
    {
        match self {
            QuadTree::Empty => true,
            QuadTree::Leaf(_) => true,
            QuadTree::Quad(a, b, c, d, region) => {
                &&& a.wf()
                &&& b.wf()
                &&& c.wf()
                &&& d.wf()
                &&& forall|p: Point| #[trigger] self.points().count(p) > 0 ==> region.holds(p)
            },
        }
    }

    /// At every `Quad`, each point below child `i` lies inside quadrant `i` of
    /// the node's region.
    pub open spec fn quartered(self) -> bool
        decreases self,
    {
        match self {
            QuadTree::Empty => true,
            QuadTree::Leaf(_) => true,
            QuadTree::Quad(a, b, c, d, region) => {
                &&& a.quartered()
                &&& b.quartered()
                &&& c.quartered()
                &&& d.quartered()
                &&& forall|i: int, p: Point|
                    0 <= i < 4 && #[trigger] self.child(i).points().count(p) > 0
                        ==> region.quadrant(i).holds(p)
            },
        }
    }

    /// Every `Quad` of the tree has a region of even width and even height,
    /// so that its four quadrants cover it.
    pub open spec fn halves_evenly(self) -> bool
        decreases self,
    {
        match self {
            QuadTree::Empty => true,
            QuadTree::Leaf(_) => true,
            QuadTree::Quad(a, b, c, d, region) => {
                &&& region.d[0] % 2 == 0
                &&& region.d[1] % 2 == 0
                &&& a.halves_evenly()
                &&& b.halves_evenly()
                &&& c.halves_evenly()
                &&& d.halves_evenly()
            },
        }
    }

    /// No region of the tree reaches beyond the coordinate range.
    pub open spec fn drawable(self) -> bool
        decreases self,
    {
        match self {
            QuadTree::Empty => true,
            QuadTree::Leaf(_) => true,
            QuadTree::Quad(a, b, c, d, region) => {
                &&& region.fits()
                &&& a.drawable()
                &&& b.drawable()
                &&& c.drawable()
                &&& d.drawable()
            },
        }
    }

    /// The tree of points over a region within the coordinate range has only
    /// such regions.
    pub proof fn lemma_tree_is_drawable(self, m: Multiset<Point>, bb: AABB)
        requires
            self.is_tree_of(m, bb),
            bb.fits(),
        ensures
            self.drawable(),
        decreases self,
    {
        match self {
            QuadTree::Empty => {},
            QuadTree::Leaf(_) => {},
            QuadTree::Quad(a, b, c, d, _) => {
                let ctr = bb.mid();
                a.lemma_tree_is_drawable(part(m, ctr, 0), bb.quadrant(0));
                b.lemma_tree_is_drawable(part(m, ctr, 1), bb.quadrant(1));
                c.lemma_tree_is_drawable(part(m, ctr, 2), bb.quadrant(2));
                d.lemma_tree_is_drawable(part(m, ctr, 3), bb.quadrant(3));
            },
        }
    }

    /// Where every region that is cut halves evenly and the points lie in the
    /// root region, each point lies in the quadrant it was sent to, and the
    /// tree is well formed.
    ///
    /// A region of odd width or height loses its last column or row to the
    /// rounding; a point there lies in no quadrant.
    pub proof fn lemma_even_tree(self, m: Multiset<Point>, bb: AABB)
        requires
            self.is_tree_of(m, bb),
            self.halves_evenly(),
            bb.fits(),
            forall|p: Point| #[trigger] m.count(p) > 0 ==> bb.holds(p),
        ensures
            self.quartered(),
            self.wf(),
        decreases self,
    {
        broadcast use vstd::multiset::group_multiset_axioms;

        self.lemma_tree_stores(m, bb);
        match self {
            QuadTree::Empty => {},
            QuadTree::Leaf(_) => {},
            QuadTree::Quad(a, b, c, d, _) => {
                let ctr = bb.mid();
                assert forall|i: int, p: Point| 0 <= i < 4 && #[trigger] part(m, ctr, i).count(p)
                    > 0 implies bb.quadrant(i).holds(p) by {
                    assert(m.count(p) > 0);
                    assert(bb.holds(p));
                    assert(quadrant_of(ctr, p) == i);
                }
                a.lemma_even_tree(part(m, ctr, 0), bb.quadrant(0));
                b.lemma_even_tree(part(m, ctr, 1), bb.quadrant(1));
                c.lemma_even_tree(part(m, ctr, 2), bb.quadrant(2));
                d.lemma_even_tree(part(m, ctr, 3), bb.quadrant(3));
                a.lemma_tree_stores(part(m, ctr, 0), bb.quadrant(0));
                b.lemma_tree_stores(part(m, ctr, 1), bb.quadrant(1));
                c.lemma_tree_stores(part(m, ctr, 2), bb.quadrant(2));
                d.lemma_tree_stores(part(m, ctr, 3), bb.quadrant(3));
                assert forall|i: int, p: Point|
                    0 <= i < 4 && #[trigger] self.child(i).points().count(p)
                        > 0 implies bb.quadrant(i).holds(p) by {
                    assert(self.child(i).points() == part(m, ctr, i));
                }
            },
        }
    }

    /// The tree of points that lie in its root region is quartered and well
    /// formed where it halves evenly.
    pub proof fn lemma_even_tree_of(self, pts: Seq<Point>, bb: AABB)
        requires
            self.is_tree_of(pts.to_multiset(), bb),
            self.halves_evenly(),
            bb.fits(),
            held(pts, bb),
        ensures
            self.quartered(),
            self.wf(),
    {
        pts.to_multiset_ensures();
        assert forall|p: Point| #[trigger] pts.to_multiset().count(p) > 0 implies bb.holds(p) by {
            let i = choose|i: int| 0 <= i < pts.len() && pts[i] == p;
            assert(bb.holds(pts[i]));
        }
        self.lemma_even_tree(pts.to_multiset(), bb);
    }

    /// Over a square region whose side is a power of two, the tree of points
    /// that lie in the region halves evenly at every cut; so it is quartered
    /// and well formed.
    pub proof fn lemma_square_tree(self, m: Multiset<Point>, bb: AABB, k: nat)
        requires
            self.is_tree_of(m, bb),
            bb.fits(),
            bb.d[0] == pow2(k),
            bb.d[1] == pow2(k),
            forall|p: Point| #[trigger] m.count(p) > 0 ==> bb.holds(p),
        ensures
            self.halves_evenly(),
            self.quartered(),
            self.wf(),
        decreases self,
    {
        broadcast use vstd::multiset::group_multiset_axioms;

        match self {
            QuadTree::Empty => {},
            QuadTree::Leaf(_) => {},
            QuadTree::Quad(a, b, c, d, _) => {
                let ctr = bb.mid();
                if k == 0 {
                    lemma2_to64();
                    let p = m.choose();
                    assert(m.count(p) > 0);
                    assert(bb.holds(p));
                    assert forall|x: Point| #[trigger] m.count(x) > 0 implies x == p by {
                        assert(bb.holds(x));
                        assert(x =~= p);
                    }
                    assert(m.count(p) >= 2) by {
                        assert(m =~= Multiset::singleton(p).add(m.remove(p)));
                        if m.count(p) == 1 {
                            assert(m.remove(p) =~= Multiset::empty());
                        }
                    }
                    self.lemma_double_is_inseparable(m, bb, p);
                } else {
                    lemma_pow2_unfold(k);
                    assert forall|i: int, p: Point|
                        0 <= i < 4 && #[trigger] part(m, ctr, i).count(p)
                            > 0 implies bb.quadrant(i).holds(p) by {
                        assert(m.count(p) > 0);
                        assert(bb.holds(p));
                        assert(quadrant_of(ctr, p) == i);
                    }
                    a.lemma_square_tree(part(m, ctr, 0), bb.quadrant(0), (k - 1) as nat);
                    b.lemma_square_tree(part(m, ctr, 1), bb.quadrant(1), (k - 1) as nat);
                    c.lemma_square_tree(part(m, ctr, 2), bb.quadrant(2), (k - 1) as nat);
                    d.lemma_square_tree(part(m, ctr, 3), bb.quadrant(3), (k - 1) as nat);
                }
            },
        }
        self.lemma_even_tree(m, bb);
    }

    /// The tree that cutting `m` over `bb` yields where it comes to an end
    /// within `k` cuts.
    pub open spec fn grown(m: Multiset<Point>, bb: AABB, k: nat) -> QuadTree
        decreases k,
    {
        if m.len() == 0 {
            QuadTree::Empty
        } else if m.len() == 1 {
            QuadTree::Leaf(m.choose())
        } else if k == 0 {
            QuadTree::Empty
        } else {
            QuadTree::Quad(
                Box::new(Self::grown(part(m, bb.mid(), 0), bb.quadrant(0), (k - 1) as nat)),
                Box::new(Self::grown(part(m, bb.mid(), 1), bb.quadrant(1), (k - 1) as nat)),
                Box::new(Self::grown(part(m, bb.mid(), 2), bb.quadrant(2), (k - 1) as nat)),
                Box::new(Self::grown(part(m, bb.mid(), 3), bb.quadrant(3), (k - 1) as nat)),
                bb,
            )
        }
    }

    /// Different points inside a square region whose side is a power of two
    /// are separable: they have a quadtree over it.
    pub proof fn lemma_square_separable(m: Multiset<Point>, bb: AABB, k: nat)
        requires
            bb.fits(),
            bb.d[0] == pow2(k),
            bb.d[1] == pow2(k),
            forall|p: Point| #[trigger] m.count(p) > 0 ==> bb.holds(p) && m.count(p) == 1,
        ensures
            Self::grown(m, bb, k).is_tree_of(m, bb),
            Self::separable(m, bb),
        decreases k,
    {
        broadcast use vstd::multiset::group_multiset_axioms;

        let t = Self::grown(m, bb, k);
        if m.len() == 0 {
        } else {
            let p = m.choose();
            assert(m.count(p) > 0);
            assert(m =~= Multiset::singleton(p).add(m.remove(p)));
            if m.len() == 1 {
                assert(m.remove(p).len() == 0);
                assert(m.remove(p) =~= Multiset::empty());
                assert(m =~= Multiset::singleton(p));
            } else if k == 0 {
                lemma2_to64();
                assert(m.remove(p).len() > 0);
                let x = m.remove(p).choose();
                assert(m.remove(p).count(x) > 0);
                assert(m.count(x) > 0);
                assert(bb.holds(x));
                assert(x =~= p);
                assert(m.count(p) >= 2);
            } else {
                let ctr = bb.mid();
                lemma_pow2_unfold(k);
                assert forall|i: int, x: Point|
                    0 <= i < 4 && #[trigger] part(m, ctr, i).count(x)
                        > 0 implies bb.quadrant(i).holds(x) && part(m, ctr, i).count(x) == 1 by {
                    assert(m.count(x) > 0);
                    assert(bb.holds(x));
                    assert(quadrant_of(ctr, x) == i);
                }
                Self::lemma_square_separable(part(m, ctr, 0), bb.quadrant(0), (k - 1) as nat);
                Self::lemma_square_separable(part(m, ctr, 1), bb.quadrant(1), (k - 1) as nat);
                Self::lemma_square_separable(part(m, ctr, 2), bb.quadrant(2), (k - 1) as nat);
                Self::lemma_square_separable(part(m, ctr, 3), bb.quadrant(3), (k - 1) as nat);
            }
        }
        assert(t.is_tree_of(m, bb));
    }
}

} // verus!
