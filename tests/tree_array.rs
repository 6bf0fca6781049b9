use algo_kit::tree_array::TreeArray;

#[test]
fn tree_array_test1() {
    let nums = vec![1, 2, 3, 4, 5];
    let arr_tree = TreeArray::new(&nums);
    assert_eq!(arr_tree.query(0), Some(1));
    assert_eq!(arr_tree.query(4), Some(15));
}

#[test]
fn tree_array_add_and_bounds() {
    let nums: Vec<i64> = (1..=20).collect();
    let mut t = TreeArray::new(&nums);
    assert_eq!(t.query(19), Some(210));
    assert_eq!(t.query(20), None);
    t.add(0, 100);
    t.add(7, -8);
    assert_eq!(t.query(0), Some(101));
    assert_eq!(t.query(6), Some(128));
    assert_eq!(t.query(7), Some(128));
    assert_eq!(t.query(19), Some(302));
    let empty = TreeArray::new(&vec![]);
    assert_eq!(empty.query(0), None);
}

#[test]
fn lowbit_values() {
    assert_eq!(TreeArray::lowbit(12), 4);
    assert_eq!(TreeArray::lowbit(7), 1);
    assert_eq!(TreeArray::lowbit(64), 64);
    assert_eq!(TreeArray::lowbit(0), 0);
}
