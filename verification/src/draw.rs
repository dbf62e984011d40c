//! Drawing lines and points on an RGB image held in memory. A colour is
//! three bytes: red, green, blue.

use vstd::prelude::*;
use crate::aabb::Point;

verus! {

/// The colour of the cuts.
pub const BLUE: [u8; 3] = [0, 0, 255];

/// The colour of the points.
pub const RED: [u8; 3] = [255, 0, 0];

/// The colour of the ground.
pub const WHITE: [u8; 3] = [255, 255, 255];

/// An RGB image in memory: an `image::RgbImage`.
///
/// The verifier does not look inside. What it knows of a canvas it knows
/// through [`extent`] and [`pixels`], and what the functions below that read
/// or change one say of them.
#[verifier::external_body]
pub struct Canvas {
    img: image::RgbImage,
}

/// Width and height of the canvas.
pub uninterp spec fn extent(c: Canvas) -> (u32, u32);

/// The colour of each pixel of the canvas, by column and row.
pub uninterp spec fn pixels(c: Canvas) -> Map<(u32, u32), [u8; 3]>;

/// `(x, y)` is a pixel of the canvas.
pub open spec fn inside(c: Canvas, x: u32, y: u32) -> bool {
    x < extent(c).0 && y < extent(c).1
}

/// Calls `RgbImage::from_pixel` of the `image` crate, which allocates an
/// image of the given size and copies the pixel into every position. It
/// panics where the buffer would be larger than a vector can be, which the
/// precondition rules out. Believed, not proved: the size of the result, and
/// that each of its pixels has the colour given.
#[verifier::external_body]
fn filled(w: u32, h: u32, color: [u8; 3]) -> (c: Canvas)
    requires
        3 * w * h <= isize::MAX,
    ensures
        extent(c) == (w, h),
        pixels(c) == Map::new(|k: (u32, u32)| k.0 < w && k.1 < h, |k: (u32, u32)| color),
{
    Canvas { img: image::RgbImage::from_pixel(w, h, image::Rgb(color)) }
}

/// Calls `ImageBuffer::width`, which returns the width the image was made
/// with. Believed, not proved: that it is the first part of `extent`.
#[verifier::external_body]
fn width_of(c: &Canvas) -> (w: u32)
    ensures
        w == extent(*c).0,
{
    c.img.width()
}

/// Calls `ImageBuffer::height`, which returns the height the image was made
/// with. Believed, not proved: that it is the second part of `extent`.
#[verifier::external_body]
fn height_of(c: &Canvas) -> (h: u32)
    ensures
        h == extent(*c).1,
{
    c.img.height()
}

/// Calls `ImageBuffer::get_pixel`, which panics outside the image and
/// otherwise returns the pixel at the position. Believed, not proved: the
/// colour returned is the one the canvas holds there.
#[verifier::external_body]
fn pixel_at(c: &Canvas, x: u32, y: u32) -> (color: [u8; 3])
    requires
        inside(*c, x, y),
    ensures
        color == pixels(*c)[(x, y)],
{
    c.img.get_pixel(x, y).0
}

/// Calls `ImageBuffer::put_pixel`, which panics outside the image and
/// otherwise overwrites the pixel at the position. Believed, not proved: the
/// size stays, that pixel takes the colour, and every other pixel stays.
#[verifier::external_body]
fn set_pixel(c: &mut Canvas, x: u32, y: u32, color: [u8; 3])
    requires
        inside(*old(c), x, y),
    ensures
        extent(*final(c)) == extent(*old(c)),
        pixels(*final(c)) == pixels(*old(c)).insert((x, y), color),
{
    c.img.put_pixel(x, y, image::Rgb(color));
}

impl Canvas {
    /// A canvas of the given size with every pixel in one colour.
    pub fn new(w: u32, h: u32, color: [u8; 3]) -> (c: Canvas)
        requires
            3 * w * h <= isize::MAX,
        ensures
            extent(c) == (w, h),
            forall|x: u32, y: u32| inside(c, x, y) ==> #[trigger] pixels(c)[(x, y)] == color,
    {
        filled(w, h, color)
    }

    /// The number of columns.
    pub fn width(&self) -> (w: u32)
        ensures
            w == extent(*self).0,
    {
        width_of(self)
    }

    /// The number of rows.
    pub fn height(&self) -> (h: u32)
        ensures
            h == extent(*self).1,
    {
        height_of(self)
    }

    /// The colour of the pixel at `(x, y)`; `None` outside the canvas.
    pub fn get(&self, x: u32, y: u32) -> (r: Option<[u8; 3]>)
        ensures
            r == if inside(*self, x, y) {
                Some(pixels(*self)[(x, y)])
            } else {
                None
            },
    {
        if x < width_of(self) && y < height_of(self) {
            Some(pixel_at(self, x, y))
        } else {
            None
        }
    }

    /// Colours the pixel at `(x, y)` where the canvas has one, and says
    /// whether it has.
    pub fn put(&mut self, x: u32, y: u32, color: [u8; 3]) -> (done: bool)
        ensures
            done == inside(*old(self), x, y),
            extent(*final(self)) == extent(*old(self)),
            pixels(*final(self)) == if done {
                pixels(*old(self)).insert((x, y), color)
            } else {
                pixels(*old(self))
            },
    {
        if x < width_of(self) && y < height_of(self) {
            set_pixel(self, x, y, color);
            true
        } else {
            false
        }
    }
}

/// `(x, y)` lies on the line from `start` to `end`. A line along axis 0 runs
/// at the height of `start` from its `x` to that of `end`, the last column
/// included. A line along axis 1 runs in the column of `start` from its `y`
/// to that of `end`, the last row left out. No other axis has lines.
pub open spec fn on_line(axis: usize, start: Point, end: Point, x: u32, y: u32) -> bool {
    if axis == 0 {
        y == start[1] && start[0] <= x <= end[0]
    } else if axis == 1 {
        x == start[0] && start[1] <= y < end[1]
    } else {
        false
    }
}

/// Half of `size`, rounded towards zero.
pub open spec fn half(size: i32) -> int {
    if size >= 0 {
        size / 2
    } else {
        -((-size) / 2)
    }
}

/// `(x, y)` lies in the square of `size` pixels a side about `pt`: at most
/// `half(size)` away from it along either axis.
pub open spec fn on_point(pt: Point, size: i32, x: u32, y: u32) -> bool {
    &&& -half(size) <= x - pt[0] <= half(size)
    &&& -half(size) <= y - pt[1] <= half(size)
}

/// Draws the line from `start` to `end` along `axis`, as far as it lies on
/// the image.
pub fn draw_line(img: &mut Canvas, axis: usize, start: [u32; 2], end: [u32; 2], color: [u8; 3])
    ensures
        extent(*final(img)) == extent(*old(img)),
        forall|x: u32, y: u32|
            inside(*old(img), x, y) ==> #[trigger] pixels(*final(img))[(x, y)] == if on_line(
                axis,
                start,
                end,
                x,
                y,
            ) {
                color
            } else {
                pixels(*old(img))[(x, y)]
            },
{
    let w = width_of(img);
    let h = height_of(img);
    let sx = start[0];
    let sy = start[1];
    if axis == 0 {
        let mut x: u64 = sx as u64;
        while x <= end[0] as u64
            invariant
                sx <= x <= end[0] + 1 || (x == sx && end[0] < sx),
                extent(*img) == extent(*old(img)),
                extent(*img) == (w, h),
                forall|a: u32, b: u32|
                    inside(*old(img), a, b) ==> #[trigger] pixels(*img)[(a, b)] == if b == sy && sx
                        <= a < x {
                        color
                    } else {
                        pixels(*old(img))[(a, b)]
                    },
            decreases end[0] + 1 - x,
        {
            if x < w as u64 && sy < h {
                set_pixel(img, x as u32, sy, color);
            }
            x += 1;
        }
    } else if axis == 1 {
        let mut y: u32 = sy;
        while y < end[1]
            invariant
                sy <= y <= end[1] || (y == sy && end[1] < sy),
                extent(*img) == extent(*old(img)),
                extent(*img) == (w, h),
                forall|a: u32, b: u32|
                    inside(*old(img), a, b) ==> #[trigger] pixels(*img)[(a, b)] == if a == sx && sy
                        <= b < y {
                        color
                    } else {
                        pixels(*old(img))[(a, b)]
                    },
            decreases end[1] - y,
        {
            if sx < w && y < h {
                set_pixel(img, sx, y, color);
            }
            y += 1;
        }
    }
}

/// Draws a square of `size` pixels a side about `pt`, as far as it lies on
/// the image.
pub fn draw_point(img: &mut Canvas, pt: [u32; 2], size: i32, color: [u8; 3])
    ensures
        extent(*final(img)) == extent(*old(img)),
        forall|x: u32, y: u32|
            inside(*old(img), x, y) ==> #[trigger] pixels(*final(img))[(x, y)] == if on_point(
                pt,
                size,
                x,
                y,
            ) {
                color
            } else {
                pixels(*old(img))[(x, y)]
            },
{
    let w = width_of(img) as i64;
    let h = height_of(img) as i64;
    let max: i64 = if size >= 0 {
        (size / 2) as i64
    } else {
        -((-(size as i64)) / 2)
    };
    let min: i64 = -max;
    let px = pt[0] as i64;
    let py = pt[1] as i64;
    let mut dx: i64 = min;
    while dx <= max
        invariant
            min == -max,
            max == half(size),
            px == pt[0],
            py == pt[1],
            min <= dx <= max + 1 || (dx == min && max < min),
            extent(*img) == extent(*old(img)),
            extent(*img) == (w as u32, h as u32),
            0 <= w <= u32::MAX,
            0 <= h <= u32::MAX,
            forall|a: u32, b: u32|
                inside(*old(img), a, b) ==> #[trigger] pixels(*img)[(a, b)] == if min <= a - px
                    < dx && min <= b - py <= max {
                    color
                } else {
                    pixels(*old(img))[(a, b)]
                },
        decreases max + 1 - dx,
    {
        let x = px + dx;
        let mut dy: i64 = min;
        while dy <= max
            invariant
                min == -max,
                max == half(size),
                px == pt[0],
                py == pt[1],
                x == px + dx,
                min <= dx <= max,
                min <= dy <= max + 1,
                extent(*img) == extent(*old(img)),
                extent(*img) == (w as u32, h as u32),
                0 <= w <= u32::MAX,
                0 <= h <= u32::MAX,
                forall|a: u32, b: u32|
                    inside(*old(img), a, b) ==> #[trigger] pixels(*img)[(a, b)] == if (min <= a
                        - px < dx && min <= b - py <= max) || (a - px == dx && min <= b - py
                        < dy) {
                        color
                    } else {
                        pixels(*old(img))[(a, b)]
                    },
            decreases max + 1 - dy,
        {
            let y = py + dy;
            if x >= 0 && x < w && y >= 0 && y < h {
                set_pixel(img, x as u32, y as u32, color);
            }
            dy += 1;
        }
        dx += 1;
    }
}

} // verus!
