use algo_kit::skip_list::SkipList;

#[test]
fn skip_list_test1() {
    let mut list = SkipList::new(Some(16)).unwrap();
    list.insert(10);
    for i in (0..1000).step_by(2) {
        list.insert(i);
    }
    assert_eq!(list.contain(10), true);
    assert_eq!(list.contain(20021), false);
    assert_eq!(list.contain(3), false);
    assert_eq!(list.len(), 501);
    let h = list.height();
    println!("skip list height: {h}");
    assert!(h <= 16);
}

#[test]
fn skip_list_test2() {
    let mut list = SkipList::new(Some(16)).unwrap();

    for i in (0..20).rev() {
        list.insert(i);
    }
    let exceped_list = (0..20).collect::<Vec<i32>>();

    let list = list.iter();

    assert_eq!(exceped_list, list);
}

#[test]
fn skip_list_keeps_copies_in_order() {
    assert!(SkipList::new(Some(0)).is_err());
    let mut list = SkipList::new(None).unwrap();
    for v in [3, -1, 3, 7, 3, -1] {
        list.insert(v);
    }
    assert_eq!(list.len(), 6);
    assert_eq!(list.iter(), [-1, -1, 3, 3, 3, 7]);
    assert!(list.contain(7));
    assert!(!list.contain(0));
}
