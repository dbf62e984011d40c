//! The queries on a k-d tree: the points inside a box, and the point nearest
//! to a given one.

use vstd::prelude::*;
use vstd::arithmetic::power2::{lemma2_to64, lemma_pow2_unfold, pow2};
use crate::aabb::{window, window_of, within, AABB, Point};
use crate::kdtree::{next_axis, KDTree};
use crate::order::{lemma_count_one, lemma_stable_sort, stable_sort};

verus! {

/// The squared Euclidean distance between two points.
pub open spec fn dist2(a: Point, b: Point) -> int {
    (a[0] - b[0]) * (a[0] - b[0]) + (a[1] - b[1]) * (a[1] - b[1])
}

/// Of two candidates the one nearer to `q`; the first where they are equally
/// near.
pub open spec fn nearer(a: Point, b: Point, q: Point) -> Point {
    if dist2(b, q) < dist2(a, q) {
        b
    } else {
        a
    }
}

/// The points of `s` where `hit`, else none.
pub open spec fn only_if(hit: bool, s: Seq<Point>) -> Seq<Point> {
    if hit {
        s
    } else {
        Seq::empty()
    }
}

/// The distance between two coordinates.
fn gap(a: u32, b: u32) -> (g: u128)
    ensures
        g == if a >= b {
            a - b
        } else {
            b - a
        },
{
    if a >= b {
        (a - b) as u128
    } else {
        (b - a) as u128
    }
}

/// The square of a coordinate distance.
fn square(g: u128) -> (r: u128)
    requires
        g <= u32::MAX,
    ensures
        r == g * g,
        r <= 0xffff_fffe_0000_0001,
{
    assert(g * g <= 0xffff_fffe_0000_0001) by (nonlinear_arith)
        requires
            0 <= g <= 0xffff_ffff,
    ;
    g * g
}

/// The squared Euclidean distance between two points.
fn dist(a: [u32; 2], b: [u32; 2]) -> (d: u128)
    ensures
        d == dist2(a, b),
{
    let dx = gap(a[0], b[0]);
    let dy = gap(a[1], b[1]);
    assert(dx * dx == (a[0] - b[0]) * (a[0] - b[0])) by (nonlinear_arith)
        requires
            dx == a[0] - b[0] || dx == b[0] - a[0],
    ;
    assert(dy * dy == (a[1] - b[1]) * (a[1] - b[1])) by (nonlinear_arith)
        requires
            dy == a[1] - b[1] || dy == b[1] - a[1],
    ;
    square(dx) + square(dy)
}

/// A point that is at least `g` away from `q` along one axis is at least
/// `g * g` away in squared distance.
proof fn lemma_dist_over_gap(p: Point, q: Point, a: int, g: int)
    requires
        0 <= a < 2,
        0 <= g,
        p[a] - q[a] >= g || q[a] - p[a] >= g,
    ensures
        dist2(p, q) >= g * g,
{
    let dx = p[0] - q[0];
    let dy = p[1] - q[1];
    assert(dx * dx >= 0) by (nonlinear_arith);
    assert(dy * dy >= 0) by (nonlinear_arith);
    if a == 0 {
        assert(dx * dx >= g * g) by (nonlinear_arith)
            requires
                0 <= g,
                dx >= g || -dx >= g,
        ;
    } else {
        assert(dy * dy >= g * g) by (nonlinear_arith)
            requires
                0 <= g,
                dy >= g || -dy >= g,
        ;
    }
}

impl KDTree {
    /// The points of the tree that lie in `q`, in the order in which a walk
    /// from the root meets them: a pivot, then its left subtree, then its
    /// right subtree.
    pub open spec fn hits(self, q: AABB) -> Seq<Point>
        decreases self,
    {
        match self {
            KDTree::Empty => Seq::empty(),
            KDTree::Leaf(p, _) => only_if(q.holds(p), seq![p]),
            KDTree::Split(l, r, _, p, _) => only_if(q.holds(p), seq![p]) + l.hits(q) + r.hits(q),
        }
    }

    /// `hits` keeps each point of the tree that lies in `q`, as often as the
    /// tree stores it, and nothing else.
    pub proof fn lemma_hits_count(self, q: AABB, p: Point)
        ensures
            self.hits(q).to_multiset().count(p) == if q.holds(p) {
                self.points().count(p)
            } else {
                0
            },
        decreases self,
    {
        Seq::<Point>::empty().to_multiset_ensures();
        match self {
            KDTree::Empty => {},
            KDTree::Leaf(x, _) => {
                lemma_count_one(x, p);
            },
            KDTree::Split(l, r, _, x, _) => {
                l.lemma_hits_count(q, p);
                r.lemma_hits_count(q, p);
                lemma_count_one(x, p);
                self.lemma_split_points(p);
                let head = only_if(q.holds(x), seq![x]);
                vstd::seq_lib::lemma_multiset_commutative(head + l.hits(q), r.hits(q));
                vstd::seq_lib::lemma_multiset_commutative(head, l.hits(q));
            },
        }
    }

    /// A tree none of whose points lies in `q` has no hits.
    pub proof fn lemma_no_hits(self, q: AABB)
        requires
            forall|p: Point| #[trigger] self.points().count(p) > 0 ==> !q.holds(p),
        ensures
            self.hits(q) == Seq::<Point>::empty(),
    {
        let h = self.hits(q);
        if h.len() > 0 {
            let p = h[0];
            self.lemma_hits_count(q, p);
            h.to_multiset_ensures();
            assert(h.contains(p));
            assert(h.to_multiset().count(p) > 0);
        }
        assert(h =~= Seq::<Point>::empty());
    }

    /// The points of the tree inside the box `[start, end)`: each as often as
    /// the tree stores it, in the order of [`Self::hits`]. A box whose `end`
    /// lies below its `start` on some axis is empty.
    pub fn range_search(&self, start: [u32; 2], end: [u32; 2]) -> (r: Vec<[u32; 2]>)
        requires
            self.wf(),
        ensures
            r@ == self.hits(window(start, end)),
            forall|p: Point| #[trigger]
                r@.to_multiset().count(p) == if within(p, start, end) {
                    self.points().count(p)
                } else {
                    0
                },
    {
        let mut pts = Vec::new();
        let bb = window_of(start, end);
        self.range_inner(bb, &mut pts);
        proof {
            assert(pts@ =~= self.hits(bb));
            assert forall|p: Point| #[trigger]
                pts@.to_multiset().count(p) == if within(p, start, end) {
                    self.points().count(p)
                } else {
                    0
                } by {
                self.lemma_hits_count(bb, p);
            }
        }
        pts
    }

    /// Walks the tree for the points inside `bb`. It leaves out the left
    /// side of a `Split` where the box begins above the pivot or ends below
    /// the node's region, and the right side where the box ends below the
    /// pivot or not above the lower edge of the region: there is nothing to
    /// find on such a side.
    fn range_inner(&self, bb: AABB, pts: &mut Vec<[u32; 2]>)
        requires
            self.wf(),
        ensures
            final(pts)@ == old(pts)@ + self.hits(bb),
        decreases self,
    {
        match self {
            KDTree::Empty => {
                assert(pts@ + self.hits(bb) =~= pts@);
            },
            KDTree::Leaf(pt, _) => {
                if bb.contains(*pt) {
                    pts.push(*pt);
                }
                assert(pts@ =~= old(pts)@ + self.hits(bb));
            },
            KDTree::Split(left, right, axis, pt, sbb) => {
                let ghost head = only_if(bb.holds(*pt), seq![*pt]);
                if bb.contains(*pt) {
                    pts.push(*pt);
                }
                assert(pts@ =~= old(pts)@ + head);
                let lo = bb.p[*axis];
                let hi = bb.p[*axis] as u64 + bb.d[*axis] as u64;
                let c = pt[*axis];
                let edge = sbb.p[*axis] as u64;
                proof {
                    assert forall|p: Point| #[trigger] left.points().count(p) > 0 implies sbb.precedes(
                        p,
                    ) by {
                        self.lemma_split_points(p);
                    }
                    assert forall|p: Point| #[trigger] right.points().count(p)
                        > 0 implies sbb.precedes(p) by {
                        self.lemma_split_points(p);
                    }
                }
                if c >= lo && hi >= edge {
                    left.range_inner(bb, pts);
                } else {
                    proof {
                        left.lemma_no_hits(bb);
                    }
                }
                assert(pts@ =~= old(pts)@ + head + left.hits(bb));
                if c as u64 <= hi && hi > edge {
                    right.range_inner(bb, pts);
                } else {
                    proof {
                        right.lemma_no_hits(bb);
                    }
                }
                assert(pts@ =~= old(pts)@ + (head + left.hits(bb) + right.hits(bb)));
            },
        }
    }

    /// The point that [`Self::nearest`] returns for the query `q`.
    ///
    /// A `Leaf` answers with its point. A `Split` with one `Empty` child
    /// answers as its other child does; its own pivot is not looked at. A
    /// `Split` with two children takes the answer of the child on the query's
    /// side of the cut, then that of the other child, then the pivot, and
    /// keeps the nearest of the three, the earliest where they tie. On
    /// `Empty` the value is of no interest.
    pub open spec fn closest(self, q: Point) -> Point
        decreases self,
    {
        match self {
            KDTree::Empty => q,
            KDTree::Leaf(p, _) => p,
            KDTree::Split(l, r, a, p, _) => if *r is Empty {
                l.closest(q)
            } else if *l is Empty {
                r.closest(q)
            } else if p[a as int] > q[a as int] {
                nearer(nearer(l.closest(q), r.closest(q), q), p, q)
            } else {
                nearer(nearer(r.closest(q), l.closest(q), q), p, q)
            },
        }
    }

    /// `p` is one of the points that a nearest-neighbour search compares: a
    /// leaf, or the pivot of a `Split` with two children, below such nodes
    /// only.
    pub open spec fn searched(self, p: Point) -> bool
        decreases self,
    {
        match self {
            KDTree::Empty => false,
            KDTree::Leaf(x, _) => p == x,
            KDTree::Split(l, r, _, x, _) => if *r is Empty {
                l.searched(p)
            } else if *l is Empty {
                r.searched(p)
            } else {
                p == x || l.searched(p) || r.searched(p)
            },
        }
    }

    /// Every `Split` of the tree has two children with points.
    pub open spec fn full(self) -> bool
        decreases self,
    {
        match self {
            KDTree::Empty => false,
            KDTree::Leaf(_, _) => true,
            KDTree::Split(l, r, _, _, _) => l.full() && r.full(),
        }
    }

    /// Every point that the search compares is a point of the tree.
    pub proof fn lemma_searched_is_stored(self, p: Point)
        requires
            self.searched(p),
        ensures
            self.points().count(p) > 0,
        decreases self,
    {
        match self {
            KDTree::Empty => {},
            KDTree::Leaf(x, _) => {
                lemma_count_one(x, p);
            },
            KDTree::Split(l, r, _, x, _) => {
                self.lemma_split_points(p);
                if l.searched(p) {
                    l.lemma_searched_is_stored(p);
                }
                if r.searched(p) {
                    r.lemma_searched_is_stored(p);
                }
            },
        }
    }

    /// In a full tree the search compares every point of the tree.
    pub proof fn lemma_full_searches_all(self, p: Point)
        requires
            self.full(),
            self.points().count(p) > 0,
        ensures
            self.searched(p),
        decreases self,
    {
        match self {
            KDTree::Empty => {},
            KDTree::Leaf(x, _) => {
                lemma_count_one(x, p);
            },
            KDTree::Split(l, r, _, x, _) => {
                self.lemma_split_points(p);
                assert(!(*l is Empty) && !(*r is Empty)) by {
                    reveal_with_fuel(KDTree::full, 2);
                }
                if l.points().count(p) > 0 {
                    l.lemma_full_searches_all(p);
                }
                if r.points().count(p) > 0 {
                    r.lemma_full_searches_all(p);
                }
            },
        }
    }

    /// A tree built from one point less than a power of two is full: the
    /// median halves such a number again and again.
    pub proof fn lemma_build_full(pts: Seq<Point>, axis: usize, bb: AABB, k: nat)
        requires
            k >= 1,
            pts.len() == pow2(k) - 1,
        ensures
            Self::build(pts, axis, bb).full(),
        decreases k,
    {
        lemma_pow2_unfold(k);
        lemma2_to64();
        if k >= 2 {
            lemma_pow2_unfold((k - 1) as nat);
            lemma_stable_sort(pts, axis as int);
            let s = stable_sort(pts, axis as int);
            let mid = (pts.len() / 2) as int;
            let c = s[mid][axis as int];
            Self::lemma_build_full(
                s.subrange(0, mid),
                next_axis(axis),
                bb.below(axis as int, c),
                (k - 1) as nat,
            );
            Self::lemma_build_full(
                s.subrange(mid + 1, pts.len() as int),
                next_axis(axis),
                bb.above(axis as int, c),
                (k - 1) as nat,
            );
        }
    }

    /// The answer of the search is one of the points it compares, and none of
    /// them is nearer to the query.
    pub proof fn lemma_closest(self, q: Point)
        requires
            self.wf(),
            !(self is Empty),
        ensures
            self.searched(self.closest(q)),
            self.points().count(self.closest(q)) > 0,
            forall|p: Point| #[trigger]
                self.searched(p) ==> dist2(self.closest(q), q) <= dist2(p, q),
        decreases self,
    {
        match self {
            KDTree::Empty => {},
            KDTree::Leaf(x, _) => {
                assert forall|p: Point| #[trigger] self.searched(p) implies dist2(
                    self.closest(q),
                    q,
                ) <= dist2(p, q) by {
                    assert(p == x);
                }
            },
            KDTree::Split(l, r, a, x, _) => {
                if *r is Empty {
                    l.lemma_closest(q);
                    assert forall|p: Point| #[trigger] self.searched(p) implies dist2(
                        self.closest(q),
                        q,
                    ) <= dist2(p, q) by {
                        assert(l.searched(p));
                    }
                } else if *l is Empty {
                    r.lemma_closest(q);
                    assert forall|p: Point| #[trigger] self.searched(p) implies dist2(
                        self.closest(q),
                        q,
                    ) <= dist2(p, q) by {
                        assert(r.searched(p));
                    }
                } else {
                    l.lemma_closest(q);
                    r.lemma_closest(q);
                    let c = self.closest(q);
                    let cl = l.closest(q);
                    let cr = r.closest(q);
                    assert(dist2(c, q) <= dist2(cl, q));
                    assert(dist2(c, q) <= dist2(cr, q));
                    assert(dist2(c, q) <= dist2(x, q));
                    assert forall|p: Point| #[trigger] self.searched(p) implies dist2(c, q)
                        <= dist2(p, q) by {
                        if l.searched(p) {
                            assert(dist2(cl, q) <= dist2(p, q));
                        } else if r.searched(p) {
                            assert(dist2(cr, q) <= dist2(p, q));
                        }
                    }
                }
            },
        }
        self.lemma_searched_is_stored(self.closest(q));
    }

    /// In a full tree the answer of the search is a point of the tree than
    /// which none is nearer to the query.
    pub proof fn lemma_closest_in_full_tree(self, q: Point, p: Point)
        requires
            self.wf(),
            self.full(),
            self.points().count(p) > 0,
        ensures
            self.points().count(self.closest(q)) > 0,
            dist2(self.closest(q), q) <= dist2(p, q),
    {
        self.lemma_closest(q);
        self.lemma_full_searches_all(p);
    }

    /// The point of the tree nearest to `pt`, among those the search looks at.
    ///
    /// In a full tree that is the nearest of all its points. Where the tree
    /// has a `Split` with a single child, that node's pivot is passed over.
    pub fn nearest(&self, pt: [u32; 2]) -> (r: [u32; 2])
        requires
            self.wf(),
            !(self is Empty),
        ensures
            r == self.closest(pt),
            self.points().count(r) > 0,
            forall|p: Point| #[trigger] self.searched(p) ==> dist2(r, pt) <= dist2(p, pt),
            self.full() ==> forall|p: Point| #[trigger]
                self.points().count(p) > 0 ==> dist2(r, pt) <= dist2(p, pt),
        decreases self,
    {
        proof {
            self.lemma_closest(pt);
            if self.full() {
                assert forall|p: Point| #[trigger] self.points().count(p) > 0 implies dist2(
                    self.closest(pt),
                    pt,
                ) <= dist2(p, pt) by {
                    self.lemma_full_searches_all(p);
                }
            }
        }
        match self {
            KDTree::Empty => pt,
            KDTree::Leaf(p, _) => *p,
            KDTree::Split(left, right, axis, split_pt, _) => {
                if matches!(**right, KDTree::Empty) {
                    left.nearest(pt)
                } else if matches!(**left, KDTree::Empty) {
                    right.nearest(pt)
                } else {
                    let near_left = split_pt[*axis] > pt[*axis];
                    let ppt = if near_left {
                        left.nearest(pt)
                    } else {
                        right.nearest(pt)
                    };
                    let to_split = gap(split_pt[*axis], pt[*axis]);
                    let to_ppt = dist(ppt, pt);
                    let mut best = ppt;
                    let mut best_d = to_ppt;
                    if square(to_split) > to_ppt {
                        proof {
                            let far = if near_left {
                                **right
                            } else {
                                **left
                            };
                            far.lemma_closest(pt);
                            lemma_dist_over_gap(
                                far.closest(pt),
                                pt,
                                *axis as int,
                                to_split as int,
                            );
                        }
                    } else {
                        let qpt = if near_left {
                            right.nearest(pt)
                        } else {
                            left.nearest(pt)
                        };
                        let to_qpt = dist(qpt, pt);
                        if to_qpt < best_d {
                            best = qpt;
                            best_d = to_qpt;
                        }
                    }
                    if dist(*split_pt, pt) < best_d {
                        best = *split_pt;
                    }
                    best
                }
            },
        }
    }
}

} // verus!
