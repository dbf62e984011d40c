//! Axis-aligned bounding boxes over the unsigned 32-bit integer plane.

use vstd::prelude::*;

verus! {

/// A point of the plane: `[x, y]`.
pub type Point = [u32; 2];

/// A half-open rectangle `[x, x + w) x [y, y + h)`: `p` is the origin `(x, y)`
/// and `d` the extent `(w, h)`.
///
/// The edges are read as mathematical integers, so the upper edge of a box may
/// lie beyond the largest coordinate a point can have.
#[derive(Clone, Copy, Debug, PartialEq, Eq, PartialOrd, Ord)]
pub struct AABB {
    pub p: [u32; 2],
    pub d: [u32; 2],
}

impl AABB {
    /// The box with origin `(x, y)` and extent `(w, h)`.
    pub open spec fn at(x: u32, y: u32, w: u32, h: u32) -> AABB {
        AABB { p: [x, y], d: [w, h] }
    }

    /// Lower (inclusive) edge along `axis`.
    pub open spec fn lo(self, axis: int) -> int {
        self.p[axis] as int
    }

    /// Upper (exclusive) edge along `axis`.
    pub open spec fn hi(self, axis: int) -> int {
        self.p[axis] + self.d[axis]
    }

    /// `pt` lies in the half-open rectangle.
    pub open spec fn holds(self, pt: Point) -> bool {
        &&& self.lo(0) <= pt[0] < self.hi(0)
        &&& self.lo(1) <= pt[1] < self.hi(1)
    }

    /// `pt` lies neither left of the rectangle nor below it: on both axes at
    /// or above the lower edge.
    pub open spec fn precedes(self, pt: Point) -> bool {
        &&& self.lo(0) <= pt[0]
        &&& self.lo(1) <= pt[1]
    }

    /// `pt` lies in the rectangle or on one of its upper edges.
    pub open spec fn bounds(self, pt: Point) -> bool {
        &&& self.lo(0) <= pt[0] <= self.hi(0)
        &&& self.lo(1) <= pt[1] <= self.hi(1)
    }

    /// The two boxes share interior: on both axes the ranges overlap, strictly
    /// at the far edges. Boxes that only touch along an edge do not overlap.
    pub open spec fn overlaps(self, other: AABB) -> bool {
        &&& self.lo(0) < other.hi(0)
        &&& self.hi(0) > other.lo(0)
        &&& self.lo(1) < other.hi(1)
        &&& self.hi(1) > other.lo(1)
    }

    /// A cut at `coord` along `axis` lies within the box, edges included.
    pub open spec fn cuts(self, axis: int, coord: int) -> bool {
        self.lo(axis) <= coord <= self.hi(axis)
    }

    /// The part of the box below a cut at `coord` along `axis`: the same
    /// origin, and along the axis the extent `coord - origin`. Where the cut
    /// lies below the origin, the difference wraps around.
    pub open spec fn below(self, axis: int, coord: u32) -> AABB {
        let e = coord.wrapping_sub(self.p[axis]);
        AABB { p: self.p, d: if axis == 0 { [e, self.d[1]] } else { [self.d[0], e] } }
    }

    /// The part of the box at or above a cut at `coord` along `axis`: it
    /// begins at the cut and has, along the axis, the extent that `below`
    /// leaves of the box's. Where the cut lies beyond the box, the difference
    /// wraps around.
    pub open spec fn above(self, axis: int, coord: u32) -> AABB {
        let e = self.d[axis].wrapping_sub(coord.wrapping_sub(self.p[axis]));
        AABB {
            p: if axis == 0 { [coord, self.p[1]] } else { [self.p[0], coord] },
            d: if axis == 0 { [e, self.d[1]] } else { [self.d[0], e] },
        }
    }

    /// The upper edges of the box lie within the coordinate range.
    pub open spec fn fits(self) -> bool {
        &&& self.hi(0) <= u32::MAX
        &&& self.hi(1) <= u32::MAX
    }

    /// The centre of the box fits the coordinate range.
    pub open spec fn centred(self) -> bool {
        &&& self.p[0] + self.d[0] / 2 <= u32::MAX
        &&& self.p[1] + self.d[1] / 2 <= u32::MAX
    }

    /// The integer midpoint of the box, rounded down.
    pub open spec fn mid(self) -> (u32, u32) {
        ((self.p[0] + self.d[0] / 2) as u32, (self.p[1] + self.d[1] / 2) as u32)
    }

    /// Quadrant `i` of the box: 0 and 1 are the low-`y` half (west, east), 2 and
    /// 3 the high-`y` half. Each has half the extent, rounded down.
    pub open spec fn quadrant(self, i: int) -> AABB {
        let w = self.d[0] / 2;
        let h = self.d[1] / 2;
        let x = if i == 1 || i == 3 { (self.p[0] + w) as u32 } else { self.p[0] };
        let y = if i == 2 || i == 3 { (self.p[1] + h) as u32 } else { self.p[1] };
        AABB { p: [x, y], d: [w, h] }
    }

    /// The box with origin `(x, y)`, width `w` and height `h`.
    pub fn new(x: u32, y: u32, w: u32, h: u32) -> (b: Self)
        ensures
            b == Self::at(x, y, w, h),
    {
        AABB { p: [x, y], d: [w, h] }
    }

    /// Cuts the box in two along `axis` at `coord`.
    ///
    /// A cut within the box, edges included, gives two boxes that meet at the
    /// cut and cover the box between them.
    pub fn split_along(&self, axis: usize, coord: u32) -> (r: (AABB, AABB))
        requires
            axis < 2,
        ensures
            r.0 == self.below(axis as int, coord),
            r.1 == self.above(axis as int, coord),
            self.cuts(axis as int, coord as int) ==> {
                &&& r.0.lo(axis as int) == self.lo(axis as int)
                &&& r.0.hi(axis as int) == coord
                &&& r.1.lo(axis as int) == coord
                &&& r.1.hi(axis as int) == self.hi(axis as int)
                &&& r.0.lo(1 - axis) == self.lo(1 - axis) == r.1.lo(1 - axis)
                &&& r.0.hi(1 - axis) == self.hi(1 - axis) == r.1.hi(1 - axis)
                &&& forall|pt: Point| self.holds(pt) <==> r.0.holds(pt) || r.1.holds(pt)
                &&& forall|pt: Point| !(r.0.holds(pt) && r.1.holds(pt))
            },
    {
        let mut split = self.p;
        split[axis] = coord;

        let mut d1 = self.d;
        d1[axis] = coord.wrapping_sub(self.p[axis]);
        let mut d2 = self.d;
        d2[axis] = d2[axis].wrapping_sub(d1[axis]);

        let low = AABB { p: self.p, d: d1 };
        let high = AABB { p: split, d: d2 };
        proof {
            assert(low.d =~= self.below(axis as int, coord).d);
            assert(high.p =~= self.above(axis as int, coord).p);
            assert(high.d =~= self.above(axis as int, coord).d);
        }
        (low, high)
    }

    /// The four quadrants about the centre, in the order of [`Self::quadrant`].
    pub fn quads(&self) -> (r: [AABB; 4])
        requires
            self.centred(),
        ensures
            r[0] == self.quadrant(0),
            r[1] == self.quadrant(1),
            r[2] == self.quadrant(2),
            r[3] == self.quadrant(3),
    {
        let x = self.p[0];
        let y = self.p[1];
        let w = self.d[0] / 2;
        let h = self.d[1] / 2;
        [
            AABB::new(x, y, w, h),
            AABB::new(x + w, y, w, h),
            AABB::new(x, y + h, w, h),
            AABB::new(x + w, y + h, w, h),
        ]
    }

    /// The integer midpoint of the box, rounded down.
    pub fn center(&self) -> (c: (u32, u32))
        requires
            self.centred(),
        ensures
            c == self.mid(),
    {
        (self.p[0] + self.d[0] / 2, self.p[1] + self.d[1] / 2)
    }

    /// Whether the point lies in the box: at or above its lower edges and
    /// below its upper edges.
    pub fn contains(&self, pt: [u32; 2]) -> (r: bool)
        ensures
            r == self.holds(pt),
    {
        let a = self.p[0] as u64;
        let b = self.p[1] as u64;
        let c = a + self.d[0] as u64;
        let d = b + self.d[1] as u64;
        let x = pt[0] as u64;
        let y = pt[1] as u64;

        x >= a && x < c && y >= b && y < d
    }

    /// Whether the two boxes share interior. Boxes that only touch along an
    /// edge do not.
    pub fn intersects(&self, other: Self) -> (r: bool)
        ensures
            r == self.overlaps(other),
    {
        let a = self.p[0] as u64;
        let b = self.p[1] as u64;
        let c = a + self.d[0] as u64;
        let d = b + self.d[1] as u64;

        let u = other.p[0] as u64;
        let v = other.p[1] as u64;
        let x = u + other.d[0] as u64;
        let y = v + other.d[1] as u64;

        a < x && c > u && b < y && d > v
    }

    /// Two boxes that hold a common point overlap.
    pub proof fn lemma_common_point_overlaps(self, other: AABB, pt: Point)
        requires
            self.holds(pt),
            other.holds(pt),
        ensures
            self.overlaps(other),
    {
    }
}

/// `p` lies in the box `[start, end)`.
pub open spec fn within(p: Point, start: Point, end: Point) -> bool {
    &&& start[0] <= p[0] < end[0]
    &&& start[1] <= p[1] < end[1]
}

/// The box `[start, end)` as a bounding box; one without extent where `end`
/// lies below `start`.
pub open spec fn window(start: Point, end: Point) -> AABB {
    AABB {
        p: start,
        d: [
            if end[0] >= start[0] {
                (end[0] - start[0]) as u32
            } else {
                0
            },
            if end[1] >= start[1] {
                (end[1] - start[1]) as u32
            } else {
                0
            },
        ],
    }
}

/// The box `[start, end)` as a bounding box.
pub(crate) fn window_of(start: [u32; 2], end: [u32; 2]) -> (bb: AABB)
    ensures
        bb == window(start, end),
        forall|p: Point| bb.holds(p) <==> within(p, start, end),
{
    let w = if end[0] >= start[0] {
        end[0] - start[0]
    } else {
        0
    };
    let h = if end[1] >= start[1] {
        end[1] - start[1]
    } else {
        0
    };
    AABB { p: start, d: [w, h] }
}

} // verus!
