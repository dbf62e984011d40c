//! The range query on a quadtree.

use vstd::prelude::*;
use crate::aabb::{window, window_of, within, AABB, Point};
use crate::order::lemma_count_one;
use crate::quadtree::QuadTree;

verus! {

impl QuadTree {
    /// The points that a range search for `q` finds, in the order in which a
    /// walk from the root meets them. A `Quad` whose region does not overlap
    /// `q` is not entered.
    pub open spec fn found(self, q: AABB) -> Seq<Point>
        decreases self,
    {
        match self {
            QuadTree::Empty => Seq::empty(),
            QuadTree::Leaf(p) => if q.holds(p) {
                seq![p]
            } else {
                Seq::empty()
            },
            QuadTree::Quad(a, b, c, d, region) => if region.overlaps(q) {
                a.found(q) + b.found(q) + c.found(q) + d.found(q)
            } else {
                Seq::empty()
            },
        }
    }

    /// A range search never finds a point outside the box, nor a point more
    /// often than the tree stores it.
    pub proof fn lemma_found_sound(self, q: AABB, p: Point)
        ensures
            self.found(q).to_multiset().count(p) <= if q.holds(p) {
                self.points().count(p)
            } else {
                0
            },
        decreases self,
    {
        Seq::<Point>::empty().to_multiset_ensures();
        match self {
            QuadTree::Empty => {},
            QuadTree::Leaf(x) => {
                lemma_count_one(x, p);
            },
            QuadTree::Quad(a, b, c, d, region) => {
                if region.overlaps(q) {
                    a.lemma_found_sound(q, p);
                    b.lemma_found_sound(q, p);
                    c.lemma_found_sound(q, p);
                    d.lemma_found_sound(q, p);
                    self.lemma_quad_points(p);
                    let fa = a.found(q);
                    let fb = b.found(q);
                    let fc = c.found(q);
                    let fd = d.found(q);
                    vstd::seq_lib::lemma_multiset_commutative(fa + fb + fc, fd);
                    vstd::seq_lib::lemma_multiset_commutative(fa + fb, fc);
                    vstd::seq_lib::lemma_multiset_commutative(fa, fb);
                }
            },
        }
    }

    /// On a well-formed tree a range search finds each point of the tree that
    /// lies in the box, as often as the tree stores it.
    pub proof fn lemma_found_count(self, q: AABB, p: Point)
        requires
            self.wf(),
        ensures
            self.found(q).to_multiset().count(p) == if q.holds(p) {
                self.points().count(p)
            } else {
                0
            },
        decreases self,
    {
        Seq::<Point>::empty().to_multiset_ensures();
        match self {
            QuadTree::Empty => {},
            QuadTree::Leaf(x) => {
                lemma_count_one(x, p);
            },
            QuadTree::Quad(a, b, c, d, region) => {
                if region.overlaps(q) {
                    a.lemma_found_count(q, p);
                    b.lemma_found_count(q, p);
                    c.lemma_found_count(q, p);
                    d.lemma_found_count(q, p);
                    self.lemma_quad_points(p);
                    let fa = a.found(q);
                    let fb = b.found(q);
                    let fc = c.found(q);
                    let fd = d.found(q);
                    vstd::seq_lib::lemma_multiset_commutative(fa + fb + fc, fd);
                    vstd::seq_lib::lemma_multiset_commutative(fa + fb, fc);
                    vstd::seq_lib::lemma_multiset_commutative(fa, fb);
                } else if q.holds(p) && self.points().count(p) > 0 {
                    region.lemma_common_point_overlaps(q, p);
                }
            },
        }
    }

    /// The points of the tree that a search of the box `[start, end)` finds.
    ///
    /// On a well-formed tree these are the points of the tree inside the box.
    /// On any tree they are among them. A box whose `end` lies below its
    /// `start` on some axis is empty.
    pub fn range_search(&self, start: [u32; 2], end: [u32; 2]) -> (r: Vec<[u32; 2]>)
        ensures
            r@ == self.found(window(start, end)),
            forall|p: Point| #[trigger]
                r@.to_multiset().count(p) <= if within(p, start, end) {
                    self.points().count(p)
                } else {
                    0
                },
            self.wf() ==> forall|p: Point| #[trigger]
                r@.to_multiset().count(p) == if within(p, start, end) {
                    self.points().count(p)
                } else {
                    0
                },
    {
        let mut pts = Vec::new();
        let bb = window_of(start, end);
        self.range_inner(bb, &mut pts);
        proof {
            assert(pts@ =~= self.found(bb));
            assert forall|p: Point| #[trigger]
                pts@.to_multiset().count(p) <= if within(p, start, end) {
                    self.points().count(p)
                } else {
                    0
                } by {
                self.lemma_found_sound(bb, p);
            }
            if self.wf() {
                assert forall|p: Point| #[trigger]
                    pts@.to_multiset().count(p) == if within(p, start, end) {
                        self.points().count(p)
                    } else {
                        0
                    } by {
                    self.lemma_found_count(bb, p);
                }
            }
        }
        pts
    }

    fn range_inner(&self, bb: AABB, pts: &mut Vec<[u32; 2]>)
        ensures
            final(pts)@ == old(pts)@ + self.found(bb),
        decreases self,
    {
        match self {
            QuadTree::Empty => {
                assert(pts@ + self.found(bb) =~= pts@);
            },
            QuadTree::Leaf(pt) => {
                if bb.contains(*pt) {
                    pts.push(*pt);
                    assert(pts@ =~= old(pts)@ + self.found(bb));
                } else {
                    assert(pts@ + self.found(bb) =~= pts@);
                }
            },
            QuadTree::Quad(a, b, c, d, region) => {
                if region.intersects(bb) {
                    a.range_inner(bb, pts);
                    b.range_inner(bb, pts);
                    c.range_inner(bb, pts);
                    d.range_inner(bb, pts);
                    assert(pts@ =~= old(pts)@ + (a.found(bb) + b.found(bb) + c.found(bb) + d.found(
                        bb,
                    )));
                } else {
                    assert(pts@ + self.found(bb) =~= pts@);
                }
            },
        }
    }
}

} // verus!
