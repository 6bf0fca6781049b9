use algo_kit::treap::{Node, Treap};

#[test]
fn test_drop() {
    let mut head = Node::new(10, 10);
    let mut left = Node::new_ptr(10, 10);
    let right = Node::new_ptr(10, 10);

    left.left = Some(right);
    head.left = Some(left);

    std::mem::drop(head);
}

#[test]
fn test_1() {
    let mut treap = Treap::new();
    treap.insert(10);
    treap.insert(10);
    treap.insert(10);

    treap.insert(1);
    treap.insert(3);
    treap.insert(-10);
    treap.insert(12);
    treap.insert(100);
    treap.insert(23);
    assert_eq!(treap.size(), 9);
    treap.remove(10);
    assert_eq!(treap.size(), 8);
    treap.remove(10);
    assert_eq!(treap.size(), 7);

    treap.remove(-10);
    assert_eq!(treap.size(), 6);

    treap.remove(100);
    assert_eq!(treap.size(), 5);
}

#[test]
fn test_2() {
    let mut treap = Treap::new();
    treap.insert(10);
    treap.insert(10);
    treap.insert(10);

    treap.insert(1);
    treap.insert(3);
    treap.insert(-10);
    treap.insert(12);
    treap.insert(100);
    treap.insert(23);
    assert_eq!(treap.lower_bound(-1000), Some(-10));
    assert_eq!(treap.lower_bound(1000), None);
    assert_eq!(treap.lower_bound(1), Some(1));

    treap.remove(1);
    assert_eq!(treap.lower_bound(1), Some(3));

    assert_eq!(treap.lower_bound(10), Some(10));
    treap.remove(10);
    treap.remove(10);
    treap.remove(10);
    assert_eq!(treap.lower_bound(10), Some(12));
}

#[test]
fn treap_remove_absent_and_upper_bound() {
    let mut treap = Treap::new();
    assert_eq!(treap.size(), 0);
    treap.remove(5);
    assert_eq!(treap.size(), 0);
    for k in 0..200 {
        treap.insert(k % 50);
    }
    assert_eq!(treap.size(), 200);
    assert_eq!(treap.upper_bound(10), Some(11));
    assert_eq!(treap.upper_bound(49), None);
    for _ in 0..4 {
        treap.remove(20);
    }
    treap.remove(20);
    assert_eq!(treap.size(), 196);
    assert_eq!(treap.lower_bound(20), Some(21));
    assert_eq!(treap.upper_bound(19), Some(21));
}
