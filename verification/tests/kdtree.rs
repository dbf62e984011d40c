use spatial_index::aabb::AABB;
use spatial_index::kdtree::KDTree;
use spatial_index::kdtree::KDTree::{Empty, Leaf, Split};

fn points_of(tree: &KDTree) -> Vec<[u32; 2]> {
    match tree {
        Empty => vec![],
        Leaf(p, _) => vec![*p],
        Split(l, r, _, p, _) => {
            let mut v = points_of(l);
            v.push(*p);
            v.extend(points_of(r));
            v
        }
    }
}

fn sorted(mut v: Vec<[u32; 2]>) -> Vec<[u32; 2]> {
    v.sort();
    v
}

fn dist2(a: [u32; 2], b: [u32; 2]) -> u64 {
    let dx = a[0] as i64 - b[0] as i64;
    let dy = a[1] as i64 - b[1] as i64;
    (dx * dx + dy * dy) as u64
}

/// Checks, at every split, the cut and the region, and the alternation of
/// the axes from `axis` on.
fn check_invariants(tree: &KDTree, axis: usize) {
    match tree {
        Empty => {}
        Leaf(p, bb) => {
            assert!(bb.p[0] <= p[0] && p[0] <= bb.p[0] + bb.d[0]);
            assert!(bb.p[1] <= p[1] && p[1] <= bb.p[1] + bb.d[1]);
        }
        Split(l, r, a, p, bb) => {
            assert_eq!(*a, axis);
            assert!(!(matches!(**l, Empty) && matches!(**r, Empty)));
            for q in points_of(l) {
                assert!(q[*a] <= p[*a]);
            }
            for q in points_of(r) {
                assert!(q[*a] >= p[*a]);
            }
            for q in points_of(tree) {
                assert!(bb.p[0] <= q[0] && q[0] <= bb.p[0] + bb.d[0]);
                assert!(bb.p[1] <= q[1] && q[1] <= bb.p[1] + bb.d[1]);
            }
            check_invariants(l, (axis + 1) % 2);
            check_invariants(r, (axis + 1) % 2);
        }
    }
}

fn is_strictly_cut(tree: &KDTree) -> bool {
    match tree {
        Split(l, r, a, p, _) => {
            points_of(l).iter().all(|q| q[*a] <= p[*a])
                && points_of(r).iter().all(|q| q[*a] > p[*a])
                && is_strictly_cut(l)
                && is_strictly_cut(r)
        }
        _ => true,
    }
}

/// Pseudo-random points in `[0, side)` squared.
fn scatter(n: usize, side: u32, seed: u64) -> Vec<[u32; 2]> {
    let mut state = seed;
    let mut next = move || {
        state = state.wrapping_mul(6364136223846793005).wrapping_add(1442695040888963407);
        ((state >> 33) as u32) % side
    };
    (0..n).map(|_| [next(), next()]).collect()
}

fn three_points() -> KDTree {
    KDTree::new(&mut [[0, 0], [1, 0], [0, 1]], 2, 2)
}

#[test]
fn kd_no_points_give_the_empty_tree() {
    assert_eq!(KDTree::new(&mut [], 10, 10), Empty);
}

#[test]
fn kd_one_point_gives_a_leaf_with_the_root_region() {
    assert_eq!(KDTree::new(&mut [[3, 4]], 10, 10), Leaf([3, 4], AABB::new(0, 0, 10, 10)));
}

#[test]
fn kd_two_points_give_a_split_with_an_empty_right_side() {
    let tree = KDTree::new(&mut [[5, 5], [0, 0]], 10, 10);
    let expected = Split(
        Box::new(Leaf([0, 0], AABB::new(0, 0, 5, 10))),
        Box::new(Empty),
        0,
        [5, 5],
        AABB::new(0, 0, 10, 10),
    );
    assert_eq!(tree, expected);
}

#[test]
fn kd_three_points_split_on_x_at_the_median() {
    let expected = Split(
        Box::new(Leaf([0, 0], AABB::new(0, 0, 0, 2))),
        Box::new(Leaf([1, 0], AABB::new(0, 0, 2, 2))),
        0,
        [0, 1],
        AABB::new(0, 0, 2, 2),
    );
    assert_eq!(three_points(), expected);
}

#[test]
fn kd_range_search_is_half_open() {
    assert_eq!(three_points().range_search([0, 0], [1, 1]), vec![[0, 0]]);
}

#[test]
fn kd_nearest_of_a_stored_point_is_that_point() {
    assert_eq!(three_points().nearest([0, 0]), [0, 0]);
    assert_eq!(three_points().nearest([1, 0]), [1, 0]);
    assert_eq!(three_points().nearest([0, 1]), [0, 1]);
}

#[test]
fn kd_axes_alternate_and_the_slice_ends_in_tree_order() {
    let mut pts = [[4u32, 1], [3, 5], [2, 0], [1, 9], [0, 3], [6, 6], [5, 2]];
    let tree = KDTree::new(&mut pts, 8, 10);
    // Sorted by x, the median is (3,5); each side is then cut along y.
    let expected = Split(
        Box::new(Split(
            Box::new(Leaf([2, 0], AABB::new(0, 0, 3, 3))),
            Box::new(Leaf([1, 9], AABB::new(0, 3, 3, 7))),
            1,
            [0, 3],
            AABB::new(0, 0, 3, 10),
        )),
        Box::new(Split(
            Box::new(Leaf([4, 1], AABB::new(3, 0, 5, 2))),
            Box::new(Leaf([6, 6], AABB::new(3, 2, 5, 8))),
            1,
            [5, 2],
            AABB::new(3, 0, 5, 10),
        )),
        0,
        [3, 5],
        AABB::new(0, 0, 8, 10),
    );
    assert_eq!(tree, expected);
    assert_eq!(pts, [[2, 0], [0, 3], [1, 9], [3, 5], [4, 1], [5, 2], [6, 6]]);
    assert_eq!(points_of(&tree), pts.to_vec());
}

#[test]
fn kd_every_point_is_stored_once_per_occurrence() {
    for n in [0usize, 1, 2, 3, 4, 5, 8, 17, 64] {
        let mut pts = scatter(n, 20, 7 + n as u64);
        let before = sorted(pts.clone());
        let tree = KDTree::new(&mut pts, 20, 20);
        assert_eq!(sorted(points_of(&tree)), before);
        assert_eq!(sorted(pts), before);
    }
}

#[test]
fn kd_duplicates_are_kept() {
    let mut pts = [[1u32, 1], [1, 1], [1, 1], [2, 2], [2, 2]];
    let tree = KDTree::new(&mut pts, 4, 4);
    assert_eq!(sorted(points_of(&tree)), vec![[1, 1], [1, 1], [1, 1], [2, 2], [2, 2]]);
    assert_eq!(tree.range_search([1, 1], [2, 2]), vec![[1, 1], [1, 1], [1, 1]]);
}

#[test]
fn kd_built_trees_are_well_formed() {
    for n in [1usize, 2, 3, 6, 7, 30, 100] {
        let mut pts = scatter(n, 16, 99 + n as u64);
        let tree = KDTree::new(&mut pts, 16, 16);
        check_invariants(&tree, 0);
    }
}

#[test]
fn kd_points_on_the_upper_edge_of_the_region_are_taken() {
    let mut pts = [[10u32, 10], [0, 10], [10, 0]];
    let tree = KDTree::new(&mut pts, 10, 10);
    check_invariants(&tree, 0);
    assert_eq!(sorted(tree.range_search([0, 0], [11, 11])), vec![[0, 10], [10, 0], [10, 10]]);
}

#[test]
fn kd_without_ties_the_right_side_lies_strictly_above() {
    let mut pts = [[4u32, 1], [3, 5], [2, 0], [1, 9], [0, 3], [6, 6], [5, 2]];
    assert!(is_strictly_cut(&KDTree::new(&mut pts, 8, 10)));
}

#[test]
fn kd_with_ties_the_right_side_may_be_level_with_the_pivot() {
    let tree = KDTree::new(&mut [[0, 0], [0, 1], [0, 2]], 4, 4);
    check_invariants(&tree, 0);
    assert!(!is_strictly_cut(&tree));
}

#[test]
fn kd_range_search_agrees_with_a_scan() {
    let boxes = [
        ([0u32, 0u32], [16u32, 16u32]),
        ([0, 0], [1, 1]),
        ([3, 3], [9, 12]),
        ([8, 0], [16, 8]),
        ([5, 5], [5, 9]),
        ([9, 9], [3, 3]),
        ([15, 15], [16, 16]),
        ([0, 7], [16, 8]),
    ];
    for n in [0usize, 1, 2, 5, 40, 200] {
        let mut pts = scatter(n, 16, 1234 + n as u64);
        let all = pts.clone();
        let tree = KDTree::new(&mut pts, 16, 16);
        for (lo, hi) in boxes.iter() {
            let expected: Vec<[u32; 2]> = all
                .iter()
                .copied()
                .filter(|p| lo[0] <= p[0] && p[0] < hi[0] && lo[1] <= p[1] && p[1] < hi[1])
                .collect();
            assert_eq!(sorted(tree.range_search(*lo, *hi)), sorted(expected));
        }
    }
}

#[test]
fn kd_range_search_finds_points_level_with_a_pivot_on_the_lower_edge() {
    // (0,0) lies left of the pivot (0,1) and on the lower edge of the box.
    let tree = KDTree::new(&mut [[0, 0], [0, 1]], 2, 2);
    assert_eq!(tree.range_search([0, 0], [1, 1]), vec![[0, 0]]);
    assert_eq!(sorted(tree.range_search([0, 0], [1, 2])), vec![[0, 0], [0, 1]]);
}

#[test]
fn kd_range_search_lists_pivot_then_left_then_right() {
    let mut pts = [[4u32, 1], [3, 5], [2, 0], [1, 9], [0, 3], [6, 6], [5, 2]];
    let tree = KDTree::new(&mut pts, 8, 10);
    assert_eq!(
        tree.range_search([0, 0], [8, 10]),
        vec![[3, 5], [0, 3], [2, 0], [1, 9], [5, 2], [4, 1], [6, 6]]
    );
}

#[test]
fn kd_range_search_of_an_empty_box_or_tree_is_empty() {
    let tree = three_points();
    assert_eq!(tree.range_search([1, 1], [1, 1]), Vec::<[u32; 2]>::new());
    assert_eq!(tree.range_search([2, 2], [0, 0]), Vec::<[u32; 2]>::new());
    assert_eq!(tree.range_search([0, 1], [2, 0]), Vec::<[u32; 2]>::new());
    assert_eq!(Empty.range_search([0, 0], [9, 9]), Vec::<[u32; 2]>::new());
}

#[test]
fn kd_nearest_in_a_full_tree_agrees_with_a_scan() {
    // Trees of 1, 3, 7, 15 and 31 points have two children at every split.
    for n in [1usize, 3, 7, 15, 31] {
        let mut pts = scatter(n, 64, 4321 + n as u64);
        let all = pts.clone();
        let tree = KDTree::new(&mut pts, 64, 64);
        for q in scatter(50, 64, 5 + n as u64) {
            let found = tree.nearest(q);
            let best = all.iter().map(|p| dist2(*p, q)).min().unwrap();
            assert!(all.contains(&found));
            assert_eq!(dist2(found, q), best);
        }
    }
}

#[test]
fn kd_nearest_passes_over_the_pivot_of_a_split_with_one_child() {
    let tree = KDTree::new(&mut [[0, 0], [5, 5]], 10, 10);
    assert_eq!(tree.nearest([5, 5]), [0, 0]);
    assert_eq!(tree.nearest([0, 0]), [0, 0]);
}

#[test]
fn kd_nearest_prefers_the_near_side_then_the_far_side_then_the_pivot() {
    // Pivot (2,2), left (0,2), right (4,2). The pivot comes last and wins
    // where it is nearer than both sides.
    let tree = KDTree::new(&mut [[0, 2], [2, 2], [4, 2]], 8, 8);
    assert_eq!(tree.nearest([2, 2]), [2, 2]);
    assert_eq!(tree.nearest([2, 0]), [2, 2]);
    // From (2,5) the three of them are equally near: the side of the query
    // is kept, which is the right one, the query not being left of the cut.
    let tree = KDTree::new(&mut [[0, 5], [2, 3], [4, 5]], 8, 8);
    assert_eq!(tree.nearest([2, 5]), [4, 5]);
    // From (1,4) the left side and the pivot are equally near: the side is
    // kept.
    assert_eq!(tree.nearest([1, 4]), [0, 5]);
    // Pivot (2,1), left (1,2), right (3,2). From (2,3) both sides are at
    // distance 2 and the pivot at 4: the near side, the right one, is kept.
    let tree = KDTree::new(&mut [[1, 2], [2, 1], [3, 2]], 8, 8);
    assert_eq!(tree.nearest([2, 3]), [3, 2]);
    // From (1,3) the near side is the left one.
    assert_eq!(tree.nearest([1, 3]), [1, 2]);
}

#[test]
fn kd_nearest_with_far_apart_coordinates() {
    let max = u32::MAX - 1;
    let tree = KDTree::new(&mut [[0, 0], [max, max], [max, 0]], u32::MAX, u32::MAX);
    assert_eq!(tree.nearest([max, max - 1]), [max, max]);
    assert_eq!(tree.nearest([1, 1]), [0, 0]);
    assert_eq!(tree.nearest([max - 1, 1]), [max, 0]);
}

#[test]
fn kd_order_of_input_does_not_matter_without_ties() {
    let a = [[4u32, 1], [3, 5], [2, 0], [1, 9], [0, 3], [6, 6], [5, 2]];
    let first = KDTree::new(&mut a.clone(), 8, 10);
    let mut b = a;
    b.reverse();
    assert_eq!(KDTree::new(&mut b, 8, 10), first);
    let mut c = a;
    c.rotate_left(3);
    assert_eq!(KDTree::new(&mut c, 8, 10), first);
}

#[test]
fn kd_order_of_input_does_not_matter_for_equal_points() {
    let first = KDTree::new(&mut [[1, 1], [1, 1], [3, 0]], 4, 4);
    assert_eq!(KDTree::new(&mut [[3, 0], [1, 1], [1, 1]], 4, 4), first);
}

#[test]
fn kd_order_of_input_matters_with_ties() {
    let first = KDTree::new(&mut [[0, 0], [0, 1]], 2, 2);
    let second = KDTree::new(&mut [[0, 1], [0, 0]], 2, 2);
    assert_ne!(first, second);
}

#[test]
fn kd_building_twice_gives_the_same_tree() {
    let pts = scatter(50, 32, 77);
    let first = KDTree::new(&mut pts.clone(), 32, 32);
    let second = KDTree::new(&mut pts.clone(), 32, 32);
    assert_eq!(first, second);
    assert_eq!(first.clone(), first);
}

#[test]
fn kd_points_outside_the_region_are_taken() {
    let mut pts = [[20u32, 3], [1, 30], [40, 40]];
    let before = sorted(pts.to_vec());
    let tree = KDTree::new(&mut pts, 10, 10);
    assert_eq!(sorted(points_of(&tree)), before);
    assert_eq!(tree.nearest([39, 39]), [40, 40]);
    assert_eq!(tree.nearest([0, 29]), [1, 30]);
    assert_eq!(tree.nearest([1, 1]), [20, 3]);
    assert_eq!(sorted(tree.range_search([0, 0], [21, 21])), vec![[20, 3]]);
    assert_eq!(sorted(tree.range_search([0, 0], [41, 41])), before);
    assert_eq!(tree.range_search([21, 4], [41, 41]), vec![[40, 40]]);
}

#[test]
fn kd_range_search_agrees_with_a_scan_beyond_the_region() {
    // The region is 8 by 8, the points reach up to 63.
    let boxes = [
        ([0u32, 0u32], [64u32, 64u32]),
        ([0, 0], [8, 8]),
        ([8, 8], [64, 64]),
        ([3, 30], [40, 50]),
        ([60, 0], [64, 64]),
        ([5, 5], [6, 6]),
    ];
    for n in [2usize, 3, 10, 45, 150] {
        let mut pts = scatter(n, 64, 900 + n as u64);
        let all = pts.clone();
        let tree = KDTree::new(&mut pts, 8, 8);
        check_cuts(&tree);
        for (lo, hi) in boxes.iter() {
            let expected: Vec<[u32; 2]> = all
                .iter()
                .copied()
                .filter(|p| lo[0] <= p[0] && p[0] < hi[0] && lo[1] <= p[1] && p[1] < hi[1])
                .collect();
            assert_eq!(sorted(tree.range_search(*lo, *hi)), sorted(expected));
        }
    }
}

/// Checks, at every split, that no point lies on the wrong side of the cut
/// or before the origin of the node's region.
fn check_cuts(tree: &KDTree) {
    if let Split(l, r, a, p, bb) = tree {
        assert!(points_of(l).iter().all(|q| q[*a] <= p[*a]));
        assert!(points_of(r).iter().all(|q| q[*a] >= p[*a]));
        assert!(points_of(tree).iter().all(|q| bb.p[0] <= q[0] && bb.p[1] <= q[1]));
        check_cuts(l);
        check_cuts(r);
    }
}
