//! Pictures of the two trees: the cuts as blue lines on white, level by
//! level, and the points as red squares.

use vstd::prelude::*;
use crate::aabb::{AABB, Point};
use crate::draw::{
    draw_line, draw_point, extent, inside, on_line, on_point, pixels, Canvas, BLUE, RED, WHITE,
};
use crate::kdtree::{next_axis, KDTree};
use crate::quadtree::QuadTree;

verus! {

/// The level below the root down to which [`KDTree::plot`] draws the cuts.
pub const KD_DEPTH: usize = 100;

/// The level below the root down to which [`QuadTree::plot`] draws the cuts.
pub const QUAD_DEPTH: usize = 1000;

/// The side of the square drawn for a point.
pub const POINT_SIZE: i32 = 5;

/// The larger of two numbers.
pub open spec fn larger(a: nat, b: nat) -> nat {
    if a >= b {
        a
    } else {
        b
    }
}

/// A canvas of the extent of `bb` can be allocated.
pub open spec fn paintable(bb: AABB) -> bool {
    3 * bb.d[0] * bb.d[1] <= isize::MAX
}

/// `(x, y)` lies in the square drawn for one of the points.
pub open spec fn on_points(pts: Seq<Point>, x: u32, y: u32) -> bool {
    exists|i: int| 0 <= i < pts.len() && on_point(#[trigger] pts[i], POINT_SIZE, x, y)
}

/// Where the cut of a node begins: at the lower edge of the region `bb`, in
/// the pivot's position along `axis`.
pub open spec fn cut_start(bb: AABB, pt: Point, axis: usize) -> Point {
    if axis == 0 {
        [pt[0], bb.p[1]]
    } else {
        [bb.p[0], pt[1]]
    }
}

/// Where the cut of a node ends: across the region from where it begins.
pub open spec fn cut_end(bb: AABB, pt: Point, axis: usize) -> Point {
    if axis == 0 {
        [pt[0], (bb.p[1] + bb.d[1]) as u32]
    } else {
        [(bb.p[0] + bb.d[0]) as u32, pt[1]]
    }
}

/// Draws the squares of all points, one after the other.
fn draw_points(img: &mut Canvas, pts: &[[u32; 2]])
    ensures
        extent(*final(img)) == extent(*old(img)),
        forall|x: u32, y: u32|
            inside(*old(img), x, y) ==> #[trigger] pixels(*final(img))[(x, y)] == if on_points(
                pts@,
                x,
                y,
            ) {
                RED
            } else {
                pixels(*old(img))[(x, y)]
            },
{
    let mut k: usize = 0;
    while k < pts.len()
        invariant
            k <= pts@.len(),
            extent(*img) == extent(*old(img)),
            forall|x: u32, y: u32|
                inside(*old(img), x, y) ==> #[trigger] pixels(*img)[(x, y)] == if on_points(
                    pts@.subrange(0, k as int),
                    x,
                    y,
                ) {
                    RED
                } else {
                    pixels(*old(img))[(x, y)]
                },
        decreases pts@.len() - k,
    {
        let ghost before = *img;
        draw_point(img, pts[k], POINT_SIZE, RED);
        proof {
            let done = pts@.subrange(0, k as int);
            let more = pts@.subrange(0, k + 1);
            assert forall|x: u32, y: u32| inside(*old(img), x, y) implies #[trigger] pixels(
                *img,
            )[(x, y)] == if on_points(more, x, y) {
                RED
            } else {
                pixels(*old(img))[(x, y)]
            } by {
                assert(inside(before, x, y));
                if on_points(done, x, y) {
                    let i = choose|i: int|
                        0 <= i < done.len() && on_point(#[trigger] done[i], POINT_SIZE, x, y);
                    assert(more[i] == done[i]);
                }
                if on_point(pts@[k as int], POINT_SIZE, x, y) {
                    assert(more[k as int] == pts@[k as int]);
                }
                if on_points(more, x, y) {
                    let i = choose|i: int|
                        0 <= i < more.len() && on_point(#[trigger] more[i], POINT_SIZE, x, y);
                    if i < k {
                        assert(done[i] == more[i]);
                    }
                }
            }
        }
        k += 1;
    }
    assert(pts@.subrange(0, k as int) =~= pts@);
}

impl KDTree {
    /// The number of `Split` nodes on the longest way down the tree.
    pub open spec fn levels(self) -> nat
        decreases self,
    {
        match self {
            KDTree::Empty => 0,
            KDTree::Leaf(_, _) => 0,
            KDTree::Split(l, r, _, _, _) => 1 + larger(l.levels(), r.levels()),
        }
    }

    /// `(x, y)` lies on the cut of a `Split` that is at most `limit` levels
    /// down, where this node is `depth` levels down and is cut along `axis`.
    /// The cut of a node runs across its region through its pivot.
    pub open spec fn inked(self, axis: usize, depth: nat, limit: nat, x: u32, y: u32) -> bool
        decreases self,
    {
        match self {
            KDTree::Empty => false,
            KDTree::Leaf(_, _) => false,
            KDTree::Split(l, r, _, pt, bb) => {
                &&& depth <= limit
                &&& {
                    ||| on_line(next_axis(axis), cut_start(bb, pt, axis), cut_end(bb, pt, axis), x, y)
                    ||| l.inked(next_axis(axis), depth + 1, limit, x, y)
                    ||| r.inked(next_axis(axis), depth + 1, limit, x, y)
                }
            },
        }
    }

    /// Draws the cuts of the tree down to level `limit` and says whether
    /// that was all of the tree.
    fn plot_inner(&self, img: &mut Canvas, axis: usize, depth: usize, limit: usize) -> (done: bool)
        requires
            self.boxed(),
            axis < 2,
            limit < usize::MAX,
        ensures
            done == (depth + self.levels() <= limit),
            extent(*final(img)) == extent(*old(img)),
            forall|x: u32, y: u32|
                inside(*old(img), x, y) ==> #[trigger] pixels(*final(img))[(x, y)] == if self.inked(
                    axis,
                    depth as nat,
                    limit as nat,
                    x,
                    y,
                ) {
                    BLUE
                } else {
                    pixels(*old(img))[(x, y)]
                },
        decreases self,
    {
        if depth > limit {
            return false;
        }
        match self {
            KDTree::Empty => true,
            KDTree::Leaf(_, _) => true,
            KDTree::Split(left, right, _, pt, bb) => {
                let next = (axis + 1) % 2;

                let mut p1 = bb.p;
                p1[axis] = pt[axis];
                let mut p2 = p1;
                p2[next] = p2[next] + bb.d[next];
                assert(p1 =~= cut_start(*bb, *pt, axis));
                assert(p2 =~= cut_end(*bb, *pt, axis));

                draw_line(img, next, p1, p2, BLUE);
                let ghost lined = *img;

                let left_done = left.plot_inner(img, next, depth + 1, limit);
                let ghost half_way = *img;
                let right_done = right.plot_inner(img, next, depth + 1, limit);
                proof {
                    assert forall|x: u32, y: u32| inside(*old(img), x, y) implies #[trigger] pixels(
                        *img,
                    )[(x, y)] == if self.inked(axis, depth as nat, limit as nat, x, y) {
                        BLUE
                    } else {
                        pixels(*old(img))[(x, y)]
                    } by {
                        assert(inside(lined, x, y));
                        assert(inside(half_way, x, y));
                    }
                }
                left_done && right_done
            },
        }
    }

    /// The picture of the tree: a white canvas of the extent of the root's
    /// region with the cuts of the first levels in blue. A tree that is not a
    /// `Split` has no picture.
    pub fn plot(&self) -> (r: Option<Canvas>)
        requires
            self.boxed(),
            self matches KDTree::Split(_, _, _, _, bb) ==> paintable(*bb),
        ensures
            r is Some <==> self is Split,
            r matches Some(c) ==> {
                &&& extent(c) == (self->Split_4.d[0], self->Split_4.d[1])
                &&& forall|x: u32, y: u32|
                    inside(c, x, y) ==> #[trigger] pixels(c)[(x, y)] == if self.inked(
                        0,
                        0,
                        KD_DEPTH as nat,
                        x,
                        y,
                    ) {
                        BLUE
                    } else {
                        WHITE
                    }
            },
    {
        match self {
            KDTree::Split(_, _, _, _, bb) => {
                let mut img = Canvas::new(bb.d[0], bb.d[1], WHITE);
                self.plot_inner(&mut img, 0, 0, KD_DEPTH);
                Some(img)
            },
            _ => None,
        }
    }

    /// One picture of the growing tree: the cuts down to level `limit` in
    /// blue on white and, over them, the points `pts` as red squares. There
    /// is none once `limit` takes in the whole tree, nor for a tree that is
    /// not a `Split`.
    pub fn plot_frame(&self, limit: usize, pts: &[[u32; 2]]) -> (r: Option<Canvas>)
        requires
            self.boxed(),
            limit < usize::MAX,
            self matches KDTree::Split(_, _, _, _, bb) ==> paintable(*bb),
        ensures
            r is Some <==> self is Split && self.levels() > limit,
            r matches Some(c) ==> {
                &&& extent(c) == (self->Split_4.d[0], self->Split_4.d[1])
                &&& forall|x: u32, y: u32|
                    inside(c, x, y) ==> #[trigger] pixels(c)[(x, y)] == if on_points(pts@, x, y) {
                        RED
                    } else if self.inked(0, 0, limit as nat, x, y) {
                        BLUE
                    } else {
                        WHITE
                    }
            },
    {
        match self {
            KDTree::Split(_, _, _, _, bb) => {
                let mut img = Canvas::new(bb.d[0], bb.d[1], WHITE);
                if self.plot_inner(&mut img, 0, 0, limit) {
                    return None;
                }
                draw_points(&mut img, pts);
                Some(img)
            },
            _ => None,
        }
    }
}

impl QuadTree {
    /// The number of `Quad` nodes on the longest way down the tree.
    pub open spec fn levels(self) -> nat
        decreases self,
    {
        match self {
            QuadTree::Empty => 0,
            QuadTree::Leaf(_) => 0,
            QuadTree::Quad(a, b, c, d, _) => 1 + larger(
                larger(a.levels(), b.levels()),
                larger(c.levels(), d.levels()),
            ),
        }
    }

    /// `(x, y)` lies on one of the two centre lines of a `Quad` that is at
    /// most `limit` levels down, where this node is `depth` levels down.
    pub open spec fn inked(self, depth: nat, limit: nat, x: u32, y: u32) -> bool
        decreases self,
    {
        match self {
            QuadTree::Empty => false,
            QuadTree::Leaf(_) => false,
            QuadTree::Quad(a, b, c, d, region) => {
                &&& depth <= limit
                &&& {
                    ||| on_line(
                        0,
                        [region.p[0], region.mid().1],
                        [(region.p[0] + region.d[0]) as u32, region.mid().1],
                        x,
                        y,
                    )
                    ||| on_line(
                        1,
                        [region.mid().0, region.p[1]],
                        [region.mid().0, (region.p[1] + region.d[1]) as u32],
                        x,
                        y,
                    )
                    ||| a.inked(depth + 1, limit, x, y)
                    ||| b.inked(depth + 1, limit, x, y)
                    ||| c.inked(depth + 1, limit, x, y)
                    ||| d.inked(depth + 1, limit, x, y)
                }
            },
        }
    }

    /// Draws the centre lines of the tree down to level `limit` and says
    /// whether that was all of the tree.
    fn plot_inner(&self, img: &mut Canvas, depth: usize, limit: usize) -> (done: bool)
        requires
            self.drawable(),
            limit < usize::MAX,
        ensures
            done == (depth + self.levels() <= limit),
            extent(*final(img)) == extent(*old(img)),
            forall|x: u32, y: u32|
                inside(*old(img), x, y) ==> #[trigger] pixels(*final(img))[(x, y)] == if self.inked(
                    depth as nat,
                    limit as nat,
                    x,
                    y,
                ) {
                    BLUE
                } else {
                    pixels(*old(img))[(x, y)]
                },
        decreases self,
    {
        if depth > limit {
            return false;
        }
        match self {
            QuadTree::Empty => true,
            QuadTree::Leaf(_) => true,
            QuadTree::Quad(a, b, c, d, bb) => {
                let (cx, cy) = bb.center();
                let x = bb.p[0];
                let y = bb.p[1];
                let w = bb.d[0];
                let h = bb.d[1];
                draw_line(img, 0, [x, cy], [x + w, cy], BLUE);
                let ghost i1 = *img;
                draw_line(img, 1, [cx, y], [cx, y + h], BLUE);
                let ghost i2 = *img;
                let a_done = a.plot_inner(img, depth + 1, limit);
                let ghost i3 = *img;
                let b_done = b.plot_inner(img, depth + 1, limit);
                let ghost i4 = *img;
                let c_done = c.plot_inner(img, depth + 1, limit);
                let ghost i5 = *img;
                let d_done = d.plot_inner(img, depth + 1, limit);
                proof {
                    assert forall|px: u32, py: u32|
                        inside(*old(img), px, py) implies #[trigger] pixels(*img)[(px, py)]
                        == if self.inked(depth as nat, limit as nat, px, py) {
                        BLUE
                    } else {
                        pixels(*old(img))[(px, py)]
                    } by {
                        assert(inside(i1, px, py));
                        assert(inside(i2, px, py));
                        assert(inside(i3, px, py));
                        assert(inside(i4, px, py));
                        assert(inside(i5, px, py));
                    }
                }
                a_done && b_done && c_done && d_done
            },
        }
    }

    /// The picture of the tree: a white canvas of the extent of the root's
    /// region with the centre lines of the first levels in blue. A tree that
    /// is not a `Quad` has no picture.
    pub fn plot(&self) -> (r: Option<Canvas>)
        requires
            self.drawable(),
            self matches QuadTree::Quad(_, _, _, _, bb) ==> paintable(*bb),
        ensures
            r is Some <==> self is Quad,
            r matches Some(c) ==> {
                &&& extent(c) == (self->Quad_4.d[0], self->Quad_4.d[1])
                &&& forall|x: u32, y: u32|
                    inside(c, x, y) ==> #[trigger] pixels(c)[(x, y)] == if self.inked(
                        0,
                        QUAD_DEPTH as nat,
                        x,
                        y,
                    ) {
                        BLUE
                    } else {
                        WHITE
                    }
            },
    {
        match self {
            QuadTree::Quad(_, _, _, _, bb) => {
                let mut img = Canvas::new(bb.d[0], bb.d[1], WHITE);
                self.plot_inner(&mut img, 0, QUAD_DEPTH);
                Some(img)
            },
            _ => None,
        }
    }

    /// One picture of the growing tree: the centre lines down to level
    /// `limit` in blue on white and, over them, the points `pts` as red
    /// squares. There is none once `limit` takes in the whole tree, nor for a
    /// tree that is not a `Quad`.
    pub fn plot_frame(&self, limit: usize, pts: &[[u32; 2]]) -> (r: Option<Canvas>)
        requires
            self.drawable(),
            limit < usize::MAX,
            self matches QuadTree::Quad(_, _, _, _, bb) ==> paintable(*bb),
        ensures
            r is Some <==> self is Quad && self.levels() > limit,
            r matches Some(c) ==> {
                &&& extent(c) == (self->Quad_4.d[0], self->Quad_4.d[1])
                &&& forall|x: u32, y: u32|
                    inside(c, x, y) ==> #[trigger] pixels(c)[(x, y)] == if on_points(pts@, x, y) {
                        RED
                    } else if self.inked(0, limit as nat, x, y) {
                        BLUE
                    } else {
                        WHITE
                    }
            },
    {
        match self {
            QuadTree::Quad(_, _, _, _, bb) => {
                let mut img = Canvas::new(bb.d[0], bb.d[1], WHITE);
                if self.plot_inner(&mut img, 0, limit) {
                    return None;
                }
                draw_points(&mut img, pts);
                Some(img)
            },
            _ => None,
        }
    }
}

} // verus!
