use algo_kit::binary_search_tree::{BinarySearchTree, TreeNode};

#[test]
fn binary_search_tree_test() {
    let mut tree: BinarySearchTree = BinarySearchTree::new();
    assert!(!tree.contain(10));
    tree.insert(10);
    assert!(tree.contain(10));
    tree.insert(11);
    tree.insert(2);
    tree.insert(12);
    tree.insert(213);
    tree.insert(7);

    let t = tree.lower_bound(3);

    assert!(t.is_some_and(|x| { x == 7 }));

    let t = tree.lower_bound(11);

    assert!(t.is_some_and(|x| { x == 11 }));

    let t = tree.upper_bound(11);

    assert!(t.is_some_and(|x| { x == 12 }));

    let t = tree.upper_bound(213);

    assert!(t.is_none());

    let t = tree.upper_bound(-121);

    assert!(t.is_some_and(|x| { x == 2 }));
}

#[test]
fn bst_duplicates_and_bounds() {
    let mut tree = BinarySearchTree::new();
    assert_eq!(tree.lower_bound(0), None);
    for v in [5, 3, 5, 8, 1] {
        tree.insert(v);
    }
    assert!(tree.contain(5));
    assert!(!tree.contain(4));
    assert_eq!(tree.lower_bound(4), Some(5));
    assert_eq!(tree.upper_bound(5), Some(8));
    assert_eq!(tree.lower_bound(9), None);
    assert_eq!(tree.upper_bound(0), Some(1));
    assert_eq!(tree.upper_bound(8), None);
}

#[test]
fn tree_node_leaf() {
    let mut n = TreeNode::new(4);
    assert!(n.is_leaf());
    n.left = Some(Box::new(TreeNode::new(1)));
    assert!(!n.is_leaf());
    assert_eq!(n.val, 4);
}

#[test]
fn bst_delete_removes_one_copy() {
    let mut tree = BinarySearchTree::new();
    for v in [50, 30, 70, 20, 40, 60, 80, 70, 65] {
        tree.insert(v);
    }
    tree.delete(70);
    assert!(tree.contain(70));
    tree.delete(70);
    assert!(!tree.contain(70));
    assert_eq!(tree.upper_bound(65), Some(80));
    tree.delete(50);
    assert!(!tree.contain(50));
    assert_eq!(tree.lower_bound(45), Some(60));
    tree.delete(1000);
    tree.delete(20);
    assert_eq!(tree.lower_bound(0), Some(30));
    for v in [30, 40, 60, 65, 80] {
        tree.delete(v);
    }
    assert_eq!(tree.lower_bound(i32::MIN), None);
}
