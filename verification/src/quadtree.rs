//! A point quadtree: a region with more than one point is cut into four
//! quadrants about its centre, whatever the points are.
//!
//! This module has the tree, what it means to be the tree of some points,
//! and the building. The regions are looked at in [`crate::quad_regions`],
//! the range query is in [`crate::quad_search`].

use vstd::prelude::*;
use vstd::multiset::Multiset;
use crate::aabb::{AABB, Point};
use crate::quad_regions::held;
use crate::order::{
    lemma_count_one, lemma_item_of, lemma_stable_sort, sort_by_axis, sorted_on, stable_sort, Keyed,
};

verus! {

/// A quadtree over points of the plane.
///
/// `Leaf(point)` holds one point. `Quad(nw, ne, sw, se, region)` holds the
/// subtrees of the four quadrants of `region`, the low-`y` half first and in
/// each half the low-`x` quadrant first. `Empty` is a region without points.
#[derive(Debug, PartialEq, Eq)]
pub enum QuadTree {
    Empty,
    Leaf([u32; 2]),
    Quad(Box<QuadTree>, Box<QuadTree>, Box<QuadTree>, Box<QuadTree>, AABB),
}

/// The quadrant about the centre `c` that `p` falls into: 0 and 1 below the
/// centre's `y` (west, east), 2 and 3 at or above it. A point on a centre line
/// belongs to the high side.
pub open spec fn quadrant_of(c: (u32, u32), p: Point) -> int {
    if p[1] < c.1 {
        if p[0] < c.0 {
            0
        } else {
            1
        }
    } else {
        if p[0] < c.0 {
            2
        } else {
            3
        }
    }
}

/// The test "falls into quadrant `i` about `c`".
pub open spec fn in_quadrant(c: (u32, u32), i: int) -> spec_fn(Point) -> bool {
    |p: Point| quadrant_of(c, p) == i
}

/// The points of `m` that fall into quadrant `i` about `c`.
pub open spec fn part(m: Multiset<Point>, c: (u32, u32), i: int) -> Multiset<Point> {
    m.filter(in_quadrant(c, i))
}

/// Every point of `s` falls into quadrant `i` about `c`.
pub open spec fn all_in(s: Seq<Point>, c: (u32, u32), i: int) -> bool {
    forall|j: int| 0 <= j < s.len() ==> quadrant_of(c, #[trigger] s[j]) == i
}

/// A sequence whose points all fall into quadrant `i` holds no point of
/// another quadrant.
pub proof fn lemma_all_in(s: Seq<Point>, c: (u32, u32), i: int, p: Point)
    requires
        all_in(s, c, i),
        quadrant_of(c, p) != i,
    ensures
        s.to_multiset().count(p) == 0,
{
    s.to_multiset_ensures();
    if s.to_multiset().count(p) > 0 {
        assert(s.contains(p));
        let j = choose|j: int| 0 <= j < s.len() && s[j] == p;
        assert(quadrant_of(c, s[j]) == i);
    }
}

/// Four sequences, one per quadrant, are the four parts of their points taken
/// together.
pub proof fn lemma_parts(
    nw: Seq<Point>,
    ne: Seq<Point>,
    sw: Seq<Point>,
    se: Seq<Point>,
    c: (u32, u32),
)
    requires
        all_in(nw, c, 0),
        all_in(ne, c, 1),
        all_in(sw, c, 2),
        all_in(se, c, 3),
    ensures
        ({
            let m = (nw + ne + (sw + se)).to_multiset();
            &&& nw.to_multiset() == part(m, c, 0)
            &&& ne.to_multiset() == part(m, c, 1)
            &&& sw.to_multiset() == part(m, c, 2)
            &&& se.to_multiset() == part(m, c, 3)
        }),
{
    broadcast use vstd::multiset::group_multiset_axioms;

    let m = (nw + ne + (sw + se)).to_multiset();
    vstd::seq_lib::lemma_multiset_commutative(nw + ne, sw + se);
    vstd::seq_lib::lemma_multiset_commutative(nw, ne);
    vstd::seq_lib::lemma_multiset_commutative(sw, se);
    assert forall|p: Point|
        nw.to_multiset().count(p) == part(m, c, 0).count(p) && ne.to_multiset().count(p) == part(
            m,
            c,
            1,
        ).count(p) && sw.to_multiset().count(p) == part(m, c, 2).count(p) && se.to_multiset().count(
            p,
        ) == part(m, c, 3).count(p) by {
        if quadrant_of(c, p) != 0 {
            lemma_all_in(nw, c, 0, p);
        }
        if quadrant_of(c, p) != 1 {
            lemma_all_in(ne, c, 1, p);
        }
        if quadrant_of(c, p) != 2 {
            lemma_all_in(sw, c, 2, p);
        }
        if quadrant_of(c, p) != 3 {
            lemma_all_in(se, c, 3, p);
        }
    }
    assert(nw.to_multiset() =~= part(m, c, 0));
    assert(ne.to_multiset() =~= part(m, c, 1));
    assert(sw.to_multiset() =~= part(m, c, 2));
    assert(se.to_multiset() =~= part(m, c, 3));
}

/// The number of leading points of `pts` whose coordinate along `axis` is
/// below `c`.
fn count_below(pts: &[[u32; 2]], axis: usize, c: u32) -> (n: usize)
    requires
        axis < 2,
    ensures
        n <= pts@.len(),
        forall|i: int| 0 <= i < n ==> (#[trigger] pts@[i])[axis as int] < c,
        n < pts@.len() ==> pts@[n as int][axis as int] >= c,
{
    let mut n: usize = 0;
    while n < pts.len() && pts[n][axis] < c
        invariant
            axis < 2,
            n <= pts@.len(),
            forall|i: int| 0 <= i < n ==> (#[trigger] pts@[i])[axis as int] < c,
        decreases pts@.len() - n,
    {
        n += 1;
    }
    n
}

/// In a sequence sorted along `axis`, the points below `c` come first: where
/// the first `k` are below `c` and the next is not, none of the rest is.
proof fn lemma_sorted_halves(s: Seq<Point>, axis: int, c: u32, k: int)
    requires
        0 <= axis < 2,
        0 <= k <= s.len(),
        sorted_on(s, axis),
        forall|i: int| 0 <= i < k ==> (#[trigger] s[i])[axis] < c,
        k < s.len() ==> s[k][axis] >= c,
    ensures
        forall|i: int| k <= i < s.len() ==> (#[trigger] s[i])[axis] >= c,
{
    assert forall|i: int| k <= i < s.len() implies (#[trigger] s[i])[axis] >= c by {
        assert(s[k].key(axis) <= s[i].key(axis));
    }
}

/// The points of an empty sequence are none; those of a sequence of one are
/// that one.
proof fn lemma_few(s: Seq<Point>)
    requires
        s.len() <= 1,
    ensures
        s.len() == 0 ==> s.to_multiset().len() == 0,
        s.len() == 1 ==> s.to_multiset() == Multiset::singleton(s[0]),
{
    broadcast use vstd::multiset::group_multiset_axioms;

    s.to_multiset_ensures();
    if s.len() == 1 {
        assert(s =~= seq![s[0]]);
        assert forall|x: Point| s.to_multiset().count(x) == Multiset::singleton(s[0]).count(x) by {
            lemma_count_one(s[0], x);
        }
        assert(s.to_multiset() =~= Multiset::singleton(s[0]));
    }
}

/// Four sequences joined hold the same points as four others joined that
/// hold, one by one, the same points as they.
proof fn lemma_same_items_joined(
    a: Seq<Point>,
    b: Seq<Point>,
    c: Seq<Point>,
    d: Seq<Point>,
    a2: Seq<Point>,
    b2: Seq<Point>,
    c2: Seq<Point>,
    d2: Seq<Point>,
)
    requires
        a2.to_multiset() == a.to_multiset(),
        b2.to_multiset() == b.to_multiset(),
        c2.to_multiset() == c.to_multiset(),
        d2.to_multiset() == d.to_multiset(),
    ensures
        (a2 + b2 + (c2 + d2)).to_multiset() == (a + b + (c + d)).to_multiset(),
{
    vstd::seq_lib::lemma_multiset_commutative(a + b, c + d);
    vstd::seq_lib::lemma_multiset_commutative(a, b);
    vstd::seq_lib::lemma_multiset_commutative(c, d);
    vstd::seq_lib::lemma_multiset_commutative(a2 + b2, c2 + d2);
    vstd::seq_lib::lemma_multiset_commutative(a2, b2);
    vstd::seq_lib::lemma_multiset_commutative(c2, d2);
}

/// What two rounds of sorting and counting give: sorted along `y` and cut
/// behind the `k` points below the centre, each half sorted along `x` and cut
/// behind its points left of the centre, the points fall into four groups,
/// one per quadrant, that hold between them the points given.
proof fn lemma_groups(
    pts: Seq<Point>,
    c: (u32, u32),
    k: int,
    s2: Seq<Point>,
    kn: int,
    s3: Seq<Point>,
    ks: int,
)
    requires
        0 <= k <= pts.len(),
        forall|i: int| 0 <= i < k ==> (#[trigger] stable_sort(pts, 1)[i])[1] < c.1,
        k < pts.len() ==> stable_sort(pts, 1)[k][1] >= c.1,
        s2 == stable_sort(stable_sort(pts, 1).subrange(0, k), 0),
        s3 == stable_sort(stable_sort(pts, 1).subrange(k, pts.len() as int), 0),
        0 <= kn <= s2.len(),
        forall|i: int| 0 <= i < kn ==> (#[trigger] s2[i])[0] < c.0,
        kn < s2.len() ==> s2[kn][0] >= c.0,
        0 <= ks <= s3.len(),
        forall|i: int| 0 <= i < ks ==> (#[trigger] s3[i])[0] < c.0,
        ks < s3.len() ==> s3[ks][0] >= c.0,
    ensures
        ({
            let nw = s2.subrange(0, kn);
            let ne = s2.subrange(kn, s2.len() as int);
            let sw = s3.subrange(0, ks);
            let se = s3.subrange(ks, s3.len() as int);
            let m = pts.to_multiset();
            &&& (nw + ne + (sw + se)).to_multiset() == m
            &&& nw.len() + ne.len() + sw.len() + se.len() == pts.len()
            &&& nw.to_multiset() == part(m, c, 0)
            &&& ne.to_multiset() == part(m, c, 1)
            &&& sw.to_multiset() == part(m, c, 2)
            &&& se.to_multiset() == part(m, c, 3)
        }),
{
    let s1 = stable_sort(pts, 1);
    lemma_stable_sort(pts, 1);
    lemma_sorted_halves(s1, 1, c.1, k);
    let north = s1.subrange(0, k);
    let south = s1.subrange(k, pts.len() as int);
    lemma_stable_sort(north, 0);
    lemma_stable_sort(south, 0);
    lemma_sorted_halves(s2, 0, c.0, kn);
    lemma_sorted_halves(s3, 0, c.0, ks);
    let nw = s2.subrange(0, kn);
    let ne = s2.subrange(kn, s2.len() as int);
    let sw = s3.subrange(0, ks);
    let se = s3.subrange(ks, s3.len() as int);
    assert(s1 =~= north + south);
    assert(s2 =~= nw + ne);
    assert(s3 =~= sw + se);
    assert forall|j: int| 0 <= j < s2.len() implies (#[trigger] s2[j])[1] < c.1 by {
        let i = lemma_item_of(s2, north, j);
        assert(north[i] == s1[i]);
    }
    assert forall|j: int| 0 <= j < s3.len() implies (#[trigger] s3[j])[1] >= c.1 by {
        let i = lemma_item_of(s3, south, j);
        assert(south[i] == s1[k + i]);
    }
    assert forall|j: int| 0 <= j < nw.len() implies quadrant_of(c, #[trigger] nw[j]) == 0 by {
        assert(nw[j] == s2[j]);
    }
    assert forall|j: int| 0 <= j < ne.len() implies quadrant_of(c, #[trigger] ne[j]) == 1 by {
        assert(ne[j] == s2[kn + j]);
    }
    assert forall|j: int| 0 <= j < sw.len() implies quadrant_of(c, #[trigger] sw[j]) == 2 by {
        assert(sw[j] == s3[j]);
    }
    assert forall|j: int| 0 <= j < se.len() implies quadrant_of(c, #[trigger] se[j]) == 3 by {
        assert(se[j] == s3[ks + j]);
    }
    lemma_parts(nw, ne, sw, se, c);
    vstd::seq_lib::lemma_multiset_commutative(nw + ne, sw + se);
    vstd::seq_lib::lemma_multiset_commutative(north, south);
}

impl Clone for QuadTree {
    fn clone(&self) -> (r: Self)
        ensures
            r == *self,
    {
        self.copy()
    }
}

impl QuadTree {
    /// A copy of the tree.
    fn copy(&self) -> (r: Self)
        ensures
            r == *self,
        decreases self,
    {
        match self {
            QuadTree::Empty => QuadTree::Empty,
            QuadTree::Leaf(p) => QuadTree::Leaf(*p),
            QuadTree::Quad(a, b, c, d, bb) => QuadTree::Quad(
                Box::new(a.copy()),
                Box::new(b.copy()),
                Box::new(c.copy()),
                Box::new(d.copy()),
                *bb,
            ),
        }
    }

    /// The points of the tree, quadrant by quadrant.
    pub open spec fn inorder(self) -> Seq<Point>
        decreases self,
    {
        match self {
            QuadTree::Empty => Seq::empty(),
            QuadTree::Leaf(p) => seq![p],
            QuadTree::Quad(a, b, c, d, _) => a.inorder() + b.inorder() + c.inorder() + d.inorder(),
        }
    }

    /// The points that the tree stores in its leaves, with multiplicity.
    pub open spec fn points(self) -> Multiset<Point> {
        self.inorder().to_multiset()
    }

    /// Child `i` of a `Quad`.
    pub open spec fn child(self, i: int) -> QuadTree
        recommends
            self is Quad,
    {
        if i == 0 {
            *self->Quad_0
        } else if i == 1 {
            *self->Quad_1
        } else if i == 2 {
            *self->Quad_2
        } else {
            *self->Quad_3
        }
    }

    /// The tree is the quadtree of the points `m` over the region `bb`: `Empty`
    /// for no point, a `Leaf` for one, and for more a `Quad` over `bb` whose
    /// child `i` is the quadtree of the points that fall into quadrant `i`
    /// about the centre of `bb`, over that quadrant of `bb`.
    pub open spec fn is_tree_of(self, m: Multiset<Point>, bb: AABB) -> bool
        decreases self,
    {
        match self {
            QuadTree::Empty => m.len() == 0,
            QuadTree::Leaf(p) => m == Multiset::singleton(p),
            QuadTree::Quad(a, b, c, d, region) => {
                &&& m.len() >= 2
                &&& region == bb
                &&& a.is_tree_of(part(m, bb.mid(), 0), bb.quadrant(0))
                &&& b.is_tree_of(part(m, bb.mid(), 1), bb.quadrant(1))
                &&& c.is_tree_of(part(m, bb.mid(), 2), bb.quadrant(2))
                &&& d.is_tree_of(part(m, bb.mid(), 3), bb.quadrant(3))
            },
        }
    }

    /// The points `m` have a quadtree over `bb`: cutting the region again and
    /// again parts any two of them at last.
    pub open spec fn separable(m: Multiset<Point>, bb: AABB) -> bool {
        exists|t: QuadTree| t.is_tree_of(m, bb)
    }

    /// How often a `Quad` stores a point: as often as its four subtrees
    /// together.
    pub proof fn lemma_quad_points(self, x: Point)
        requires
            self is Quad,
        ensures
            self.points().count(x) == self.child(0).points().count(x) + self.child(
                1,
            ).points().count(x) + self.child(2).points().count(x) + self.child(3).points().count(x),
    {
        let a = self.child(0).inorder();
        let b = self.child(1).inorder();
        let c = self.child(2).inorder();
        let d = self.child(3).inorder();
        vstd::seq_lib::lemma_multiset_commutative(a + b + c, d);
        vstd::seq_lib::lemma_multiset_commutative(a + b, c);
        vstd::seq_lib::lemma_multiset_commutative(a, b);
    }

    /// No point set of two or more has a tree over a region without extent
    /// once all its points fall into one quadrant: the cut repeats itself.
    pub proof fn lemma_stuck(self, m: Multiset<Point>, bb: AABB, g: int)
        requires
            bb.d[0] == 0,
            bb.d[1] == 0,
            0 <= g < 4,
            m.len() >= 2,
            part(m, bb.mid(), g) == m,
        ensures
            !self.is_tree_of(m, bb),
        decreases self,
    {
        broadcast use vstd::multiset::group_multiset_axioms;

        if self.is_tree_of(m, bb) {
            match self {
                QuadTree::Empty => {},
                QuadTree::Leaf(p) => {},
                QuadTree::Quad(a, b, c, d, _) => {
                    let q = bb.quadrant(g);
                    assert(q.p =~= bb.p);
                    assert(q.d =~= bb.d);
                    assert(q == bb);
                    self.child(g).lemma_stuck(m, bb, g);
                },
            }
        }
    }

    /// A tree of `m` over `bb` stores exactly the points `m`.
    pub proof fn lemma_tree_stores(self, m: Multiset<Point>, bb: AABB)
        requires
            self.is_tree_of(m, bb),
        ensures
            self.points() == m,
        decreases self,
    {
        broadcast use vstd::multiset::group_multiset_axioms;

        match self {
            QuadTree::Empty => {
                Seq::<Point>::empty().to_multiset_ensures();
                assert(self.points().len() == 0);
                assert(self.points() =~= m);
            },
            QuadTree::Leaf(p) => {
                assert forall|x: Point| self.points().count(x) == m.count(x) by {
                    lemma_count_one(p, x);
                }
                assert(self.points() =~= m);
            },
            QuadTree::Quad(a, b, c, d, _) => {
                let ctr = bb.mid();
                a.lemma_tree_stores(part(m, ctr, 0), bb.quadrant(0));
                b.lemma_tree_stores(part(m, ctr, 1), bb.quadrant(1));
                c.lemma_tree_stores(part(m, ctr, 2), bb.quadrant(2));
                d.lemma_tree_stores(part(m, ctr, 3), bb.quadrant(3));
                assert forall|x: Point| self.points().count(x) == m.count(x) by {
                    self.lemma_quad_points(x);
                    let i = quadrant_of(ctr, x);
                    assert(0 <= i < 4);
                }
                assert(self.points() =~= m);
            },
        }
    }

    /// The points and the region decide the tree: two trees of the same points
    /// over the same region are equal, in whatever order the points came.
    pub proof fn lemma_tree_unique(self, other: QuadTree, m: Multiset<Point>, bb: AABB)
        requires
            self.is_tree_of(m, bb),
            other.is_tree_of(m, bb),
        ensures
            self == other,
        decreases self,
    {
        broadcast use vstd::multiset::group_multiset_axioms;

        match self {
            QuadTree::Empty => {},
            QuadTree::Leaf(p) => {
                assert(Multiset::singleton(p).len() == 1);
                assert(other is Leaf);
                let q = other->Leaf_0;
                assert(Multiset::singleton(q).count(p) == 1);
                assert(p == q);
            },
            QuadTree::Quad(a, b, c, d, _) => {
                assert(other is Quad) by {
                    if other is Leaf {
                        assert(Multiset::singleton(other->Leaf_0).len() == 1);
                    }
                }
                let ctr = bb.mid();
                a.lemma_tree_unique(other.child(0), part(m, ctr, 0), bb.quadrant(0));
                b.lemma_tree_unique(other.child(1), part(m, ctr, 1), bb.quadrant(1));
                c.lemma_tree_unique(other.child(2), part(m, ctr, 2), bb.quadrant(2));
                d.lemma_tree_unique(other.child(3), part(m, ctr, 3), bb.quadrant(3));
            },
        }
    }

    /// Builds the quadtree of the points of `pts` over the region `[0, w) x
    /// [0, h)`.
    ///
    /// The points must be separable over that region; [`Self::try_new`] takes
    /// any points. The slice is reordered: afterwards it holds the points in
    /// the tree's order. Where the points lie in the region and every region
    /// that was cut has an even width and height, each point lies in the
    /// quadrant it was sent to.
    pub fn new(pts: &mut [[u32; 2]], w: u32, h: u32) -> (t: Self)
        requires
            Self::separable(old(pts)@.to_multiset(), AABB::at(0, 0, w, h)),
        ensures
            t.is_tree_of(old(pts)@.to_multiset(), AABB::at(0, 0, w, h)),
            final(pts)@ == t.inorder(),
            t.points() == old(pts)@.to_multiset(),
            t.drawable(),
            held(old(pts)@, AABB::at(0, 0, w, h)) && t.halves_evenly() ==> t.wf() && t.quartered(),
    {
        let bb = AABB::new(0, 0, w, h);
        match Self::split(pts, bb) {
            Some(t) => {
                proof {
                    t.lemma_tree_is_drawable(old(pts)@.to_multiset(), bb);
                    if held(old(pts)@, bb) && t.halves_evenly() {
                        t.lemma_even_tree_of(old(pts)@, bb);
                    }
                }
                t
            },
            None => QuadTree::Empty,
        }
    }

    /// Builds the quadtree of the points of `pts` over the region `[0, w) x
    /// [0, h)`, or finds that they have none: that some of them stay together
    /// however often the region is cut.
    ///
    /// The slice is reordered in both cases. With a tree it holds the points
    /// in the tree's order.
    pub fn try_new(pts: &mut [[u32; 2]], w: u32, h: u32) -> (r: Option<Self>)
        ensures
            final(pts)@.to_multiset() == old(pts)@.to_multiset(),
            r is Some <==> Self::separable(old(pts)@.to_multiset(), AABB::at(0, 0, w, h)),
            r matches Some(t) ==> {
                &&& t.is_tree_of(old(pts)@.to_multiset(), AABB::at(0, 0, w, h))
                &&& final(pts)@ == t.inorder()
                &&& t.points() == old(pts)@.to_multiset()
                &&& t.drawable()
                &&& held(old(pts)@, AABB::at(0, 0, w, h)) && t.halves_evenly() ==> t.wf()
                    && t.quartered()
            },
    {
        let bb = AABB::new(0, 0, w, h);
        let r = Self::split(pts, bb);
        proof {
            if r is Some {
                let t = r.unwrap();
                t.lemma_tree_is_drawable(old(pts)@.to_multiset(), bb);
                if held(old(pts)@, bb) && t.halves_evenly() {
                    t.lemma_even_tree_of(old(pts)@, bb);
                }
            }
        }
        r
    }

    fn split(pts: &mut [[u32; 2]], bb: AABB) -> (r: Option<Self>)
        requires
            bb.fits(),
        ensures
            final(pts)@.to_multiset() == old(pts)@.to_multiset(),
            r is Some <==> Self::separable(old(pts)@.to_multiset(), bb),
            r matches Some(t) ==> {
                &&& t.is_tree_of(old(pts)@.to_multiset(), bb)
                &&& final(pts)@ == t.inorder()
                &&& t.points() == old(pts)@.to_multiset()
            },
        decreases bb.d[0] + bb.d[1], old(pts)@.len(),
    {
        let n = pts.len();
        let ghost m = pts@.to_multiset();
        if n == 0 {
            let t = QuadTree::Empty;
            proof {
                lemma_few(pts@);
                assert(pts@ =~= t.inorder());
                assert(t.is_tree_of(m, bb));
            }
            return Some(t);
        }
        if n == 1 {
            let p = pts[0];
            let t = QuadTree::Leaf(p);
            proof {
                lemma_few(pts@);
                assert(pts@ =~= t.inorder());
                assert(t.is_tree_of(m, bb));
            }
            return Some(t);
        }
        proof {
            pts@.to_multiset_ensures();
            lemma_stable_sort(pts@, 1);
        }
        let (cx, cy) = bb.center();
        let ghost ctr = (cx, cy);

        let ghost s0 = pts@;
        sort_by_axis(pts, 1);
        let n_count = count_below(pts, 1, cy);
        let (n_pts, s_pts) = pts.split_at_mut(n_count);

        sort_by_axis(n_pts, 0);
        let nw_count = count_below(n_pts, 0, cx);
        let ghost s2 = n_pts@;
        let (nw_pts, ne_pts) = n_pts.split_at_mut(nw_count);

        sort_by_axis(s_pts, 0);
        let sw_count = count_below(s_pts, 0, cx);
        let ghost s3 = s_pts@;
        let (sw_pts, se_pts) = s_pts.split_at_mut(sw_count);

        let qs = bb.quads();
        let ghost nw = nw_pts@;
        let ghost ne = ne_pts@;
        let ghost sw = sw_pts@;
        let ghost se = se_pts@;
        proof {
            lemma_groups(s0, ctr, n_count as int, s2, nw_count as int, s3, sw_count as int);
        }

        let stuck = bb.d[0] == 0 && bb.d[1] == 0 && (nw_pts.len() == n || ne_pts.len() == n
            || sw_pts.len() == n || se_pts.len() == n);
        if stuck {
            proof {
                Self::lemma_stuck_groups(nw, ne, sw, se, bb);
            }
            return None;
        }
        let a = Self::split(nw_pts, qs[0]);
        let b = Self::split(ne_pts, qs[1]);
        let c = Self::split(sw_pts, qs[2]);
        let d = Self::split(se_pts, qs[3]);
        proof {
            lemma_same_items_joined(nw, ne, sw, se, nw_pts@, ne_pts@, sw_pts@, se_pts@);
        }
        match (a, b, c, d) {
            (Some(a), Some(b), Some(c), Some(d)) => {
                let t = QuadTree::Quad(Box::new(a), Box::new(b), Box::new(c), Box::new(d), bb);
                proof {
                    assert(a.is_tree_of(part(m, bb.mid(), 0), bb.quadrant(0)));
                    assert(b.is_tree_of(part(m, bb.mid(), 1), bb.quadrant(1)));
                    assert(c.is_tree_of(part(m, bb.mid(), 2), bb.quadrant(2)));
                    assert(d.is_tree_of(part(m, bb.mid(), 3), bb.quadrant(3)));
                    assert(t.is_tree_of(m, bb));
                    assert(nw_pts@ + ne_pts@ + (sw_pts@ + se_pts@) =~= t.inorder());
                    t.lemma_tree_stores(m, bb);
                }
                Some(t)
            },
            _ => {
                proof {
                    let i: int = if a is None {
                        0
                    } else if b is None {
                        1
                    } else if c is None {
                        2
                    } else {
                        3
                    };
                    Self::lemma_part_inseparable(m, bb, i);
                }
                None
            },
        }
    }

    /// Points of which one quadrant's part has no tree have no tree.
    pub proof fn lemma_part_inseparable(m: Multiset<Point>, bb: AABB, i: int)
        requires
            0 <= i < 4,
            m.len() >= 2,
            !Self::separable(part(m, bb.mid(), i), bb.quadrant(i)),
        ensures
            !Self::separable(m, bb),
    {
        broadcast use vstd::multiset::group_multiset_axioms;

        assert forall|t: QuadTree| !t.is_tree_of(m, bb) by {
            if t.is_tree_of(m, bb) {
                assert(t is Quad);
                assert(t.child(i).is_tree_of(part(m, bb.mid(), i), bb.quadrant(i)));
            }
        }
    }

    /// Two or more points over a region without extent have no tree once one
    /// of the four groups holds them all.
    proof fn lemma_stuck_groups(
        nw: Seq<Point>,
        ne: Seq<Point>,
        sw: Seq<Point>,
        se: Seq<Point>,
        bb: AABB,
    )
        requires
            bb.d[0] == 0,
            bb.d[1] == 0,
            nw.len() + ne.len() + sw.len() + se.len() >= 2,
            nw.len() == 0 && ne.len() == 0 && sw.len() == 0 || nw.len() == 0 && ne.len() == 0
                && se.len() == 0 || nw.len() == 0 && sw.len() == 0 && se.len() == 0 || ne.len()
                == 0 && sw.len() == 0 && se.len() == 0,
            nw.to_multiset() == part((nw + ne + (sw + se)).to_multiset(), bb.mid(), 0),
            ne.to_multiset() == part((nw + ne + (sw + se)).to_multiset(), bb.mid(), 1),
            sw.to_multiset() == part((nw + ne + (sw + se)).to_multiset(), bb.mid(), 2),
            se.to_multiset() == part((nw + ne + (sw + se)).to_multiset(), bb.mid(), 3),
        ensures
            !Self::separable((nw + ne + (sw + se)).to_multiset(), bb),
    {
        let all = nw + ne + (sw + se);
        let m = all.to_multiset();
        all.to_multiset_ensures();
        let g: int = if ne.len() == 0 && sw.len() == 0 && se.len() == 0 {
            0
        } else if nw.len() == 0 && sw.len() == 0 && se.len() == 0 {
            1
        } else if nw.len() == 0 && ne.len() == 0 && se.len() == 0 {
            2
        } else {
            3
        };
        assert(all =~= if g == 0 {
            nw
        } else if g == 1 {
            ne
        } else if g == 2 {
            sw
        } else {
            se
        });
        assert(part(m, bb.mid(), g) == m);
        assert forall|t: QuadTree| !t.is_tree_of(m, bb) by {
            t.lemma_stuck(m, bb, g);
        }
    }

    /// Points of which one occurs twice have no quadtree: no cut parts a
    /// point from its double.
    pub proof fn lemma_double_is_inseparable(self, m: Multiset<Point>, bb: AABB, p: Point)
        requires
            m.count(p) >= 2,
        ensures
            !self.is_tree_of(m, bb),
        decreases self,
    {
        broadcast use vstd::multiset::group_multiset_axioms;

        if self.is_tree_of(m, bb) {
            match self {
                QuadTree::Empty => {},
                QuadTree::Leaf(x) => {},
                QuadTree::Quad(a, b, c, d, _) => {
                    let i = quadrant_of(bb.mid(), p);
                    self.child(i).lemma_double_is_inseparable(
                        part(m, bb.mid(), i),
                        bb.quadrant(i),
                        p,
                    );
                },
            }
        }
    }

}

} // verus!
