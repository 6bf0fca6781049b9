use algo_kit::linked_list::{LinkedList, LinkedListNode, HEAD, TAIL};

#[test]
fn linked_list_test() {
    let head = LinkedListNode::new(Some(1));
    let tail = LinkedListNode::new(Some(2));
    let mut arena = vec![head, tail];
    arena[0].next = Some(1);
    arena[1].next = Some(0);

    assert_eq!(arena[0].next == Some(1), true);
    assert_eq!(arena[0].val, Some(1));
    assert_eq!(arena[1].pre, None);
}

#[test]
fn linked_list_test2() {
    let mut link_list = LinkedList::<i32>::new();
    link_list.push_back(1);
    link_list.push_back(2);
    link_list.push_back(3);
    link_list.push_back(4);

    let nums = link_list
        .iter()
        .into_iter()
        .map(|x| *link_list.value(x).unwrap())
        .collect::<Vec<i32>>();

    assert_eq!(nums, [1, 2, 3, 4]);

    let pos = link_list.find(&10, None);
    assert_eq!(pos, None);

    let pos = link_list.find(&1, None);
    assert!(pos.is_some());
    assert_eq!(link_list.value(pos.unwrap()), Some(&1));
}

fn values(list: &LinkedList<i32>) -> Vec<i32> {
    list.iter().into_iter().map(|h| *list.value(h).unwrap()).collect()
}

#[test]
fn inserts_and_erase_keep_order() {
    let mut list = LinkedList::<i32>::new();
    let b = list.push_back(2);
    list.push_front(1);
    let d = list.push_back(4);
    list.insert_front(d, 3);
    list.insert_back(b, 25);
    assert_eq!(values(&list), [1, 2, 25, 3, 4]);
    list.earse(b);
    assert_eq!(values(&list), [1, 25, 3, 4]);
    assert_eq!(list.value(b), None);
    list.insert_back(HEAD, 0);
    list.insert_front(TAIL, 5);
    assert_eq!(values(&list), [0, 1, 25, 3, 4, 5]);
    assert_eq!(list.value(HEAD), None);
    assert_eq!(list.value(TAIL), None);
}

#[test]
fn find_starts_at_given_node() {
    let mut list = LinkedList::<i32>::new();
    let a = list.push_back(7);
    let b = list.push_back(8);
    let c = list.push_back(7);
    assert_eq!(list.find(&7, None), Some(a));
    assert_eq!(list.find(&7, Some(a)), Some(a));
    assert_eq!(list.find(&7, Some(b)), Some(c));
    assert_eq!(list.find(&8, Some(c)), None);
    assert_eq!(list.find(&8, Some(HEAD)), Some(b));
    assert!(LinkedList::<i32>::new().iter().is_empty());
}
