use spatial_index::aabb::AABB;
use spatial_index::quadtree::QuadTree;
use spatial_index::quadtree::QuadTree::{Empty, Leaf, Quad};

fn points_of(tree: &QuadTree) -> Vec<[u32; 2]> {
    match tree {
        Empty => vec![],
        Leaf(p) => vec![*p],
        Quad(a, b, c, d, _) => {
            let mut v = points_of(a);
            v.extend(points_of(b));
            v.extend(points_of(c));
            v.extend(points_of(d));
            v
        }
    }
}

fn sorted(mut v: Vec<[u32; 2]>) -> Vec<[u32; 2]> {
    v.sort();
    v
}

/// Every point below child `i` of a `Quad` lies in quadrant `i` of its region.
fn is_quartered(tree: &QuadTree) -> bool {
    match tree {
        Quad(a, b, c, d, bb) => {
            let q = bb.quads();
            let kids = [a, b, c, d];
            (0..4).all(|i| {
                points_of(kids[i]).iter().all(|p| q[i].contains(*p)) && is_quartered(kids[i])
            })
        }
        _ => true,
    }
}

/// Pseudo-random points in `[0, side)` squared, no point twice.
fn scatter(n: usize, side: u32, seed: u64) -> Vec<[u32; 2]> {
    let mut state = seed;
    let mut next = move || {
        state = state.wrapping_mul(6364136223846793005).wrapping_add(1442695040888963407);
        ((state >> 33) as u32) % side
    };
    let mut pts: Vec<[u32; 2]> = Vec::new();
    while pts.len() < n {
        let p = [next(), next()];
        if !pts.contains(&p) {
            pts.push(p);
        }
    }
    pts
}

fn leaf(x: u32, y: u32) -> Box<QuadTree> {
    Box::new(Leaf([x, y]))
}

fn empty() -> Box<QuadTree> {
    Box::new(Empty)
}

#[test]
fn quad_no_points_give_the_empty_tree() {
    assert_eq!(QuadTree::new(&mut [], 4, 4), Empty);
    assert_eq!(QuadTree::try_new(&mut [], 0, 0), Some(Empty));
}

#[test]
fn quad_one_point_gives_a_leaf() {
    assert_eq!(QuadTree::new(&mut [[3, 1]], 4, 4), Leaf([3, 1]));
    // One point needs no cut, wherever it lies.
    assert_eq!(QuadTree::try_new(&mut [[9, 9]], 4, 4), Some(Leaf([9, 9])));
}

#[test]
fn quad_two_points_are_cut_about_the_centre() {
    let tree = QuadTree::new(&mut [[3, 3], [0, 0]], 4, 4);
    let expected = Quad(leaf(0, 0), empty(), empty(), leaf(3, 3), AABB::new(0, 0, 4, 4));
    assert_eq!(tree, expected);
}

#[test]
fn quad_points_on_a_centre_line_go_to_the_high_side() {
    let tree = QuadTree::new(&mut [[2, 0], [0, 2], [2, 2], [1, 1]], 4, 4);
    let expected = Quad(leaf(1, 1), leaf(2, 0), leaf(0, 2), leaf(2, 2), AABB::new(0, 0, 4, 4));
    assert_eq!(tree, expected);
}

#[test]
fn quad_quadrants_are_cut_again() {
    let mut pts = [[0u32, 0], [1, 1], [3, 0], [0, 3]];
    let tree = QuadTree::new(&mut pts, 4, 4);
    let expected = Quad(
        Box::new(Quad(leaf(0, 0), empty(), empty(), leaf(1, 1), AABB::new(0, 0, 2, 2))),
        leaf(3, 0),
        leaf(0, 3),
        empty(),
        AABB::new(0, 0, 4, 4),
    );
    assert_eq!(tree, expected);
    assert_eq!(pts, [[0, 0], [1, 1], [3, 0], [0, 3]]);
}

#[test]
fn quad_slice_ends_in_tree_order() {
    let mut pts = [[3u32, 3], [0, 3], [3, 0], [1, 1], [0, 0]];
    let tree = QuadTree::new(&mut pts, 4, 4);
    assert_eq!(pts, [[0, 0], [1, 1], [3, 0], [0, 3], [3, 3]]);
    assert_eq!(points_of(&tree), pts.to_vec());
}

#[test]
fn quad_every_point_is_stored() {
    for n in [0usize, 1, 2, 3, 10, 60] {
        let mut pts = scatter(n, 16, 11 + n as u64);
        let before = sorted(pts.clone());
        let tree = QuadTree::new(&mut pts, 16, 16);
        assert_eq!(sorted(points_of(&tree)), before);
        assert_eq!(sorted(pts), before);
    }
}

#[test]
fn quad_equal_points_cannot_be_parted() {
    let mut pts = [[1u32, 1], [2, 2], [1, 1]];
    assert_eq!(QuadTree::try_new(&mut pts, 4, 4), None);
    assert_eq!(sorted(pts.to_vec()), vec![[1, 1], [1, 1], [2, 2]]);
}

#[test]
fn quad_rounding_can_keep_different_points_together() {
    // Over three columns the cuts fall at x = 1 and never between 1 and 2.
    assert_eq!(QuadTree::try_new(&mut [[1, 0], [2, 0]], 3, 3), None);
    assert!(QuadTree::try_new(&mut [[0, 0], [1, 0]], 3, 3).is_some());
}

#[test]
fn quad_points_outside_the_region_may_or_may_not_be_parted() {
    assert!(QuadTree::try_new(&mut [[9, 9], [0, 0]], 4, 4).is_some());
    assert_eq!(QuadTree::try_new(&mut [[9, 9], [8, 8]], 4, 4), None);
}

#[test]
fn quad_try_new_agrees_with_new() {
    let pts = scatter(40, 32, 5);
    let tree = QuadTree::new(&mut pts.clone(), 32, 32);
    assert_eq!(QuadTree::try_new(&mut pts.clone(), 32, 32), Some(tree));
}

#[test]
fn quad_order_of_input_does_not_matter() {
    let pts = scatter(40, 32, 21);
    let first = QuadTree::new(&mut pts.clone(), 32, 32);
    let mut b = pts.clone();
    b.reverse();
    assert_eq!(QuadTree::new(&mut b, 32, 32), first);
    let mut c = pts.clone();
    c.rotate_left(17);
    assert_eq!(QuadTree::new(&mut c, 32, 32), first);
    assert_eq!(first.clone(), first);
}

#[test]
fn quad_over_a_power_of_two_square_points_lie_in_their_quadrants() {
    for n in [2usize, 5, 33, 100] {
        let mut pts = scatter(n, 64, 3 + n as u64);
        let tree = QuadTree::new(&mut pts, 64, 64);
        assert!(is_quartered(&tree));
    }
}

#[test]
fn quad_over_an_odd_region_a_point_can_lie_outside_its_quadrant() {
    // Quadrant 3 of a region of 5 by 5 is [2, 4) squared; (4, 4) is sent
    // there all the same.
    let tree = QuadTree::new(&mut [[2, 2], [4, 4]], 5, 5);
    let expected = Quad(
        empty(),
        empty(),
        empty(),
        Box::new(Quad(leaf(2, 2), empty(), empty(), leaf(4, 4), AABB::new(2, 2, 2, 2))),
        AABB::new(0, 0, 5, 5),
    );
    assert_eq!(tree, expected);
    assert!(!is_quartered(&tree));
    // The search does not enter the inner region for a box beside it.
    assert_eq!(tree.range_search([4, 4], [5, 5]), Vec::<[u32; 2]>::new());
    assert_eq!(tree.range_search([2, 2], [5, 5]), vec![[2, 2], [4, 4]]);
}

#[test]
fn quad_range_search_agrees_with_a_scan() {
    let boxes = [
        ([0u32, 0u32], [16u32, 16u32]),
        ([0, 0], [1, 1]),
        ([3, 3], [9, 12]),
        ([8, 0], [16, 8]),
        ([5, 5], [5, 9]),
        ([9, 9], [3, 3]),
        ([15, 15], [16, 16]),
        ([0, 7], [16, 8]),
        ([4, 4], [8, 8]),
    ];
    for n in [0usize, 1, 2, 5, 40, 200] {
        let mut pts = scatter(n, 16, 1234 + n as u64);
        let all = pts.clone();
        let tree = QuadTree::new(&mut pts, 16, 16);
        for (lo, hi) in boxes.iter() {
            let expected: Vec<[u32; 2]> = all
                .iter()
                .copied()
                .filter(|p| lo[0] <= p[0] && p[0] < hi[0] && lo[1] <= p[1] && p[1] < hi[1])
                .collect();
            assert_eq!(sorted(tree.range_search(*lo, *hi)), sorted(expected));
        }
    }
}

#[test]
fn quad_range_search_is_half_open() {
    let tree = QuadTree::new(&mut [[0, 0], [1, 0], [0, 1]], 2, 2);
    assert_eq!(tree.range_search([0, 0], [1, 1]), vec![[0, 0]]);
    assert_eq!(tree.range_search([0, 0], [2, 1]), vec![[0, 0], [1, 0]]);
}

#[test]
fn quad_range_search_lists_quadrant_by_quadrant() {
    let tree = QuadTree::new(&mut [[3, 3], [0, 3], [3, 0], [1, 1], [0, 0]], 4, 4);
    assert_eq!(
        tree.range_search([0, 0], [4, 4]),
        vec![[0, 0], [1, 1], [3, 0], [0, 3], [3, 3]]
    );
}

#[test]
fn quad_range_search_of_an_empty_box_or_tree_is_empty() {
    let tree = QuadTree::new(&mut [[0, 0], [3, 3]], 4, 4);
    assert_eq!(tree.range_search([1, 1], [1, 1]), Vec::<[u32; 2]>::new());
    assert_eq!(tree.range_search([3, 3], [0, 0]), Vec::<[u32; 2]>::new());
    assert_eq!(Empty.range_search([0, 0], [9, 9]), Vec::<[u32; 2]>::new());
    assert_eq!(Leaf([2, 2]).range_search([0, 0], [9, 9]), vec![[2, 2]]);
    assert_eq!(Leaf([2, 2]).range_search([0, 0], [2, 9]), Vec::<[u32; 2]>::new());
}
