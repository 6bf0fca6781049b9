use algo_kit::binary_dict_tree::DicTree;

#[test]
fn binary_dict_tree_test() {
    let nums = vec![1, 2, 3, 4];
    let dic = DicTree::new(&nums);
    assert_eq!(dic.query(5), 7);
}

#[test]
fn dict_tree_empty_add_and_sign_bit() {
    let mut dic = DicTree::new(&vec![]);
    assert_eq!(dic.query(123), 0);
    dic.add(8);
    assert_eq!(dic.query(1), 9);
    dic.add(-1);
    // -1 has every bit set: 1 ^ -1 == -2, the largest unsigned pattern here
    assert_eq!(dic.query(1), -2);
    assert_eq!(dic.query(-1), -9);
}
