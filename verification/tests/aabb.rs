use spatial_index::aabb::AABB;

#[test]
fn aabb_new_sets_origin_and_extent() {
    let b = AABB::new(1, 2, 3, 4);
    assert_eq!(b.p, [1, 2]);
    assert_eq!(b.d, [3, 4]);
    assert_eq!(b, AABB { p: [1, 2], d: [3, 4] });
}

#[test]
fn aabb_contains_is_half_open() {
    let b = AABB::new(1, 2, 3, 4);
    assert!(b.contains([1, 2]));
    assert!(b.contains([3, 5]));
    assert!(!b.contains([4, 2]));
    assert!(!b.contains([1, 6]));
    assert!(!b.contains([0, 2]));
    assert!(!b.contains([1, 1]));
}

#[test]
fn aabb_box_without_width_or_height_contains_nothing() {
    assert!(!AABB::new(5, 5, 0, 3).contains([5, 5]));
    assert!(!AABB::new(5, 5, 3, 0).contains([5, 5]));
    assert!(!AABB::new(5, 5, 0, 0).contains([5, 5]));
}

#[test]
fn aabb_contains_at_the_top_of_the_coordinate_range() {
    let b = AABB::new(u32::MAX, 0, 1, 1);
    assert!(b.contains([u32::MAX, 0]));
    assert!(!b.contains([0, 0]));
    let c = AABB::new(u32::MAX - 1, u32::MAX - 1, u32::MAX, u32::MAX);
    assert!(c.contains([u32::MAX, u32::MAX]));
    assert!(!c.contains([u32::MAX - 2, u32::MAX]));
}

#[test]
fn aabb_split_along_x() {
    let b = AABB::new(1, 2, 3, 4);
    let (low, high) = b.split_along(0, 2);
    assert_eq!(low, AABB::new(1, 2, 1, 4));
    assert_eq!(high, AABB::new(2, 2, 2, 4));
}

#[test]
fn aabb_split_along_y() {
    let b = AABB::new(1, 2, 3, 4);
    let (low, high) = b.split_along(1, 5);
    assert_eq!(low, AABB::new(1, 2, 3, 3));
    assert_eq!(high, AABB::new(1, 5, 3, 1));
}

#[test]
fn aabb_split_at_the_edges() {
    let b = AABB::new(1, 2, 3, 4);
    let (low, high) = b.split_along(0, 1);
    assert_eq!(low, AABB::new(1, 2, 0, 4));
    assert_eq!(high, b);
    let (low, high) = b.split_along(0, 4);
    assert_eq!(low, b);
    assert_eq!(high, AABB::new(4, 2, 0, 4));
}

#[test]
fn aabb_split_parts_cover_the_box_once() {
    let b = AABB::new(1, 2, 3, 4);
    let (low, high) = b.split_along(0, 3);
    for x in 0..6 {
        for y in 0..8 {
            let p = [x, y];
            assert_eq!(b.contains(p), low.contains(p) || high.contains(p));
            assert!(!(low.contains(p) && high.contains(p)));
            if low.contains(p) {
                assert!(x < 3);
            }
        }
    }
}

#[test]
fn aabb_quads_of_an_even_box() {
    let q = AABB::new(0, 0, 4, 2).quads();
    assert_eq!(q[0], AABB::new(0, 0, 2, 1));
    assert_eq!(q[1], AABB::new(2, 0, 2, 1));
    assert_eq!(q[2], AABB::new(0, 1, 2, 1));
    assert_eq!(q[3], AABB::new(2, 1, 2, 1));
}

#[test]
fn aabb_quads_of_an_odd_box_round_down() {
    let b = AABB::new(1, 2, 3, 5);
    let q = b.quads();
    assert_eq!(q[0], AABB::new(1, 2, 1, 2));
    assert_eq!(q[1], AABB::new(2, 2, 1, 2));
    assert_eq!(q[2], AABB::new(1, 4, 1, 2));
    assert_eq!(q[3], AABB::new(2, 4, 1, 2));
    // The last column and the last row belong to no quadrant.
    assert!(b.contains([3, 6]));
    assert!(!q.iter().any(|k| k.contains([3, 6])));
}

#[test]
fn aabb_quads_of_a_box_without_extent() {
    let b = AABB::new(7, 9, 0, 0);
    let q = b.quads();
    assert_eq!(q, [b, b, b, b]);
}

#[test]
fn aabb_center_rounds_down() {
    assert_eq!(AABB::new(1, 2, 3, 4).center(), (2, 4));
    assert_eq!(AABB::new(0, 0, 1000, 1000).center(), (500, 500));
    assert_eq!(AABB::new(10, 20, 1, 0).center(), (10, 20));
}

#[test]
fn aabb_intersects_needs_shared_interior() {
    let b = AABB::new(1, 2, 3, 4);
    assert!(b.intersects(b));
    assert!(b.intersects(AABB::new(3, 5, 1, 1)));
    assert!(b.intersects(AABB::new(0, 0, 2, 3)));
    assert!(b.intersects(AABB::new(2, 3, 1, 1)));
    assert!(!b.intersects(AABB::new(10, 10, 1, 1)));
}

#[test]
fn aabb_boxes_that_touch_do_not_intersect() {
    let b = AABB::new(1, 2, 3, 4);
    assert!(!b.intersects(AABB::new(4, 2, 1, 1)));
    assert!(!b.intersects(AABB::new(0, 2, 1, 4)));
    assert!(!b.intersects(AABB::new(1, 6, 3, 1)));
    assert!(!b.intersects(AABB::new(1, 0, 3, 2)));
    assert!(!AABB::new(4, 2, 1, 1).intersects(b));
}

#[test]
fn aabb_intersects_is_symmetric() {
    let boxes = [
        AABB::new(0, 0, 2, 2),
        AABB::new(1, 1, 2, 2),
        AABB::new(2, 0, 2, 2),
        AABB::new(5, 5, 0, 0),
        AABB::new(0, 0, 10, 10),
    ];
    for a in boxes.iter() {
        for b in boxes.iter() {
            assert_eq!(a.intersects(*b), b.intersects(*a));
        }
    }
}

#[test]
fn aabb_split_outside_the_box_wraps_around() {
    let b = AABB::new(4, 0, 3, 3);
    // Beyond the box the upper part gets the extent 3 - 6 modulo 2^32.
    let (low, high) = b.split_along(0, 10);
    assert_eq!(low, AABB::new(4, 0, 6, 3));
    assert_eq!(high, AABB { p: [10, 0], d: [u32::MAX - 2, 3] });
    // Below the box the lower part gets the extent 1 - 4 modulo 2^32.
    let (low, high) = b.split_along(0, 1);
    assert_eq!(low, AABB { p: [4, 0], d: [u32::MAX - 2, 3] });
    assert_eq!(high, AABB::new(1, 0, 6, 3));
}
