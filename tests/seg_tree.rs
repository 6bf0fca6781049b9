use algo_kit::seg_tree::SegTree;

#[test]
fn seg_tree_query_and_add() {
    let nums: Vec<i64> = vec![0, 1, 2, 3, 4, 5, 6, 7, 8];
    let mut seg = SegTree::new(&nums);
    assert_eq!(seg.query(1, 8), 36);
    seg.add(1, 8, 10);
    assert_eq!(seg.query(1, 8), 116);
    assert_eq!(seg.query(3, 3), 13);
    seg.add(2, 5, -4);
    assert_eq!(seg.query(1, 8), 100);
    assert_eq!(seg.query(2, 4), 12 + 13 + 14 - 12);
    assert_eq!(seg.query(6, 8), 16 + 17 + 18);
}

#[test]
fn seg_tree_single_position() {
    let mut seg = SegTree::new(&vec![99, -5]);
    assert_eq!(seg.query(1, 1), -5);
    seg.add(1, 1, 7);
    assert_eq!(seg.query(1, 1), 2);
}
