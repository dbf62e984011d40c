use spatial_index::order::sort_by_axis;

#[test]
fn order_sort_by_axis_orders_the_keys() {
    let mut pts = [[3u32, 0], [1, 5], [2, 9], [0, 1]];
    sort_by_axis(&mut pts, 0);
    assert_eq!(pts, [[0, 1], [1, 5], [2, 9], [3, 0]]);
    sort_by_axis(&mut pts, 1);
    assert_eq!(pts, [[3, 0], [0, 1], [1, 5], [2, 9]]);
}

#[test]
fn order_sort_by_axis_keeps_ties_in_order() {
    let mut pts = [[1u32, 7], [0, 3], [1, 2], [0, 9], [1, 5]];
    sort_by_axis(&mut pts, 0);
    assert_eq!(pts, [[0, 3], [0, 9], [1, 7], [1, 2], [1, 5]]);
}

#[test]
fn order_sort_by_axis_on_signed_pairs() {
    let mut pts = [(1i32, -7), (-5, 3), (1, -9), (0, 0)];
    sort_by_axis(&mut pts, 0);
    assert_eq!(pts, [(-5, 3), (0, 0), (1, -7), (1, -9)]);
    sort_by_axis(&mut pts, 1);
    assert_eq!(pts, [(1, -9), (1, -7), (0, 0), (-5, 3)]);
}

#[test]
fn order_sort_by_axis_of_nothing_and_of_one() {
    let mut none: [[u32; 2]; 0] = [];
    sort_by_axis(&mut none, 0);
    assert_eq!(none.len(), 0);
    let mut one = [[4u32, 2]];
    sort_by_axis(&mut one, 1);
    assert_eq!(one, [[4, 2]]);
}
