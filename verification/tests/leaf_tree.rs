use spatial_index::leaf_tree::KDTree;
use spatial_index::leaf_tree::KDTree::{Leaf, XSplit, YSplit};

#[test]
fn empty() {
    assert!(KDTree::new(&mut []).is_none());
}

#[test]
fn single_point() {
    assert!(match KDTree::new(&mut [(0, 0)]) {
        Some(Leaf((0, 0))) => true,
        _ => false,
    })
}

#[test]
fn x_split() {
    let expected = XSplit(Box::new(Leaf((0, 0))), Box::new(Leaf((1, 0))), 0);
    assert!(match KDTree::new(&mut [(0, 0), (1, 0)]) {
        Some(tree) => tree == expected,
        _ => false,
    })
}

#[test]
fn x_then_y_split() {
    let expected = XSplit(
        Box::new(Leaf((0, 0))),
        Box::new(YSplit(Box::new(Leaf((1, 0))), Box::new(Leaf((0, 1))), 0)),
        0,
    );
    assert!(match KDTree::new(&mut [(0, 0), (1, 0), (0, 1)]) {
        Some(tree) => tree == expected,
        _ => false,
    })
}

#[test]
fn leaf_slice_ends_in_tree_order() {
    let mut pts = [(0, 0), (1, 0), (0, 1)];
    let tree = KDTree::new(&mut pts).unwrap();
    assert_eq!(pts, [(0, 0), (1, 0), (0, 1)]);
    assert_eq!(leaves(&tree), pts.to_vec());
}

#[test]
fn leaf_split_stores_coordinate_of_last_lower_point() {
    // Sorted by x: (1,9) (2,0) | (3,5) (4,1). The lower half is then sorted
    // by y, which puts (1,9) last: the split stores its x.
    let mut pts = [(4, 1), (3, 5), (2, 0), (1, 9)];
    let tree = KDTree::new(&mut pts).unwrap();
    let expected = XSplit(
        Box::new(YSplit(Box::new(Leaf((2, 0))), Box::new(Leaf((1, 9))), 0)),
        Box::new(YSplit(Box::new(Leaf((4, 1))), Box::new(Leaf((3, 5))), 1)),
        1,
    );
    assert_eq!(tree, expected);
    assert_eq!(pts, [(2, 0), (1, 9), (4, 1), (3, 5)]);
}

#[test]
fn leaf_keeps_every_point() {
    let mut pts = [(5, -3), (5, -3), (-2, 7), (0, 0), (9, 9), (-2, 7), (1, 1)];
    let mut before = pts.to_vec();
    let tree = KDTree::new(&mut pts).unwrap();
    let mut after = leaves(&tree);
    before.sort();
    after.sort();
    assert_eq!(before, after);
}

#[test]
fn leaf_clone_is_equal() {
    let tree = KDTree::new(&mut [(0, 0), (1, 0), (0, 1)]).unwrap();
    assert_eq!(tree.clone(), tree);
}

fn leaves(tree: &KDTree) -> Vec<(i32, i32)> {
    match tree {
        Leaf(p) => vec![*p],
        XSplit(l, r, _) | YSplit(l, r, _) => {
            let mut v = leaves(l);
            v.extend(leaves(r));
            v
        }
    }
}
