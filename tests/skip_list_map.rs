use algo_kit::skip_list_map::{level_from_draws, SkipListError, SkipListMap};

fn map16() -> SkipListMap<i32> {
    SkipListMap::new(16).unwrap()
}

#[test]
fn skip_list_map_test() {
    let mut map: SkipListMap<i32> = map16();
    map.insert(10, 10);
    map.insert(2, 1);
    map.insert(100, 10);
    assert!(map.contain(10));

    assert_eq!(map.get_key(101), None);

    // test modify
    assert_eq!(map.get_key(10), Some(&10));
    map.insert(10, 101);
    assert_eq!(map.get_key(10), Some(&101));
}

#[test]
fn test_many() {
    let mut map: SkipListMap<i32> = map16();
    for i in 0..10000 {
        map.insert(i, i * 2);
    }

    for i in 100..2000 {
        map.erase(i);
        assert!(!map.contain(i));
    }
}

#[test]
fn test_del() {
    let mut map: SkipListMap<i32> = map16();
    assert!(!map.contain(i32::default()));
    for i in 0..10 {
        map.insert(i, i * i);
        assert!(map.contain(i));
    }

    for i in (0..10).rev() {
        map.erase(i);
    }
    for i in 0..10 {
        assert!(!map.contain(i));
    }
}

#[test]
fn test_5() {
    let mut map: SkipListMap<i32> = map16();
    for i in 10..100 {
        map.insert(i, i);
    }

    for i in 0..8 {
        assert!(!map.contain(i));
        assert_eq!(map.get_key(i), None);
    }
}

#[test]
fn test_iter_key() {
    let mut map: SkipListMap<i32> = map16();
    for i in -100..100 {
        map.insert(i, i);
    }

    let keys = map.iter_key();
    let except = (-100..100).collect::<Vec<i32>>();
    assert_eq!(keys, except);
}

#[test]
fn test_iter_key_val() {
    let mut map: SkipListMap<i32> = map16();
    for i in -100..100 {
        map.insert(i, i);
    }

    let keys_val = map
        .iter_key_val()
        .into_iter()
        .map(|(k, v)| (k, *v))
        .collect::<Vec<(i32, i32)>>();
    let except = (-100..100).map(|x| (x, x)).collect::<Vec<(i32, i32)>>();
    assert_eq!(keys_val, except);
}

#[test]
fn new_rejects_zero_height() {
    assert_eq!(
        SkipListMap::<i32>::new(0).err(),
        Some(SkipListError::InvalidConfiguration)
    );
    let map = SkipListMap::<i32>::new(1).unwrap();
    assert_eq!(map.len(), 0);
    assert_eq!(map.height(), 0);
}

#[test]
fn scenario_two_inserts() {
    let mut map = map16();
    map.insert(10, 10);
    map.insert(2, 1);
    assert!(map.contain(10));
    assert!(map.contain(2));
    assert_eq!(map.get_key(2), Some(&1));
    assert_eq!(map.get_key(100), None);
}

#[test]
fn reinsert_overwrites_and_keeps_length() {
    let mut map = map16();
    map.insert(10, 10);
    map.insert(10, 101);
    assert_eq!(map.get_key(10), Some(&101));
    assert_eq!(map.len(), 1);
}

#[test]
fn insert_then_erase_range_counts() {
    let mut map = map16();
    for i in 0..10000 {
        map.insert(i, i * 2);
    }
    assert_eq!(map.len(), 10000);
    for i in 100..2000 {
        assert!(map.erase(i));
    }
    for i in 100..2000 {
        assert!(!map.contain(i));
    }
    assert_eq!(map.len(), 10000 - 1900);
    assert_eq!(map.get_key(99), Some(&198));
    assert_eq!(map.get_key(2000), Some(&4000));
}

#[test]
fn height_stays_under_cap() {
    let mut map = map16();
    map.insert(10, 10);
    for i in (0..1000).step_by(2) {
        map.insert(i, i);
    }
    assert_eq!(map.len(), 500);
    map.insert(1001, 1);
    assert_eq!(map.len(), 501);
    assert!(map.height() <= 16);
    assert!(map.height() >= 1);
    assert!(map.contain(10));
    assert!(!map.contain(20021));
    assert!(!map.contain(3));
}

#[test]
fn erase_absent_changes_nothing() {
    let mut map = map16();
    for i in 0..20 {
        map.insert(i * 3, i);
    }
    let before = map.iter_key();
    assert!(!map.erase(4));
    assert!(!map.erase(1000));
    assert_eq!(map.len(), 20);
    assert_eq!(map.iter_key(), before);
}

#[test]
fn bounds_on_empty_map() {
    let map = map16();
    for k in [-5, 0, 7, i32::MIN, i32::MAX] {
        assert_eq!(map.lower_bound(k), None);
        assert_eq!(map.upper_bound(k), None);
    }
}

#[test]
fn lower_and_upper_bounds() {
    let mut map = map16();
    for k in [10, 20, 30] {
        map.insert(k, k + 1);
    }
    assert_eq!(map.lower_bound(5), Some((10, &11)));
    assert_eq!(map.lower_bound(10), Some((10, &11)));
    assert_eq!(map.lower_bound(11), Some((20, &21)));
    assert_eq!(map.lower_bound(31), None);
    assert_eq!(map.upper_bound(10), Some((20, &21)));
    assert_eq!(map.upper_bound(29), Some((30, &31)));
    assert_eq!(map.upper_bound(30), None);
}

#[test]
fn slots_are_reused_after_erase() {
    let mut map = map16();
    for i in 0..50 {
        map.insert(i, i);
    }
    for i in 0..50 {
        assert!(map.erase(i));
    }
    assert_eq!(map.len(), 0);
    assert_eq!(map.iter_key(), Vec::<i32>::new());
    for i in (0..50).rev() {
        map.insert(i, -i);
    }
    assert_eq!(map.len(), 50);
    assert_eq!(map.iter_key(), (0..50).collect::<Vec<i32>>());
    assert_eq!(map.get_key(7), Some(&-7));
}

#[test]
fn insert_with_level_sets_height() {
    let mut map = map16();
    map.insert_with_level(5, 50, 3);
    assert_eq!(map.height(), 3);
    map.insert_with_level(6, 60, 1);
    assert_eq!(map.height(), 3);
    map.insert_with_level(5, 55, 9);
    assert_eq!(map.height(), 3);
    assert_eq!(map.get_key(5), Some(&55));
    map.insert_with_level(7, 70, 16);
    assert_eq!(map.height(), 16);
    assert_eq!(map.iter_key(), vec![5, 6, 7]);
}

#[test]
fn node_constructors() {
    let n = algo_kit::skip_list_map::SkipListNode::new(4, 'x', 3);
    assert_eq!(n.key, 4);
    assert_eq!(n.val, 'x');
    assert_eq!(n.forwards, vec![None, None, None]);
    let b = algo_kit::skip_list_map::SkipListNode::new_ptr(-1, 2u8, 1);
    assert_eq!(b.key, -1);
    assert_eq!(b.forwards.len(), 1);
}

#[test]
fn iterator_walks_in_order_and_restarts() {
    let mut map = map16();
    for k in [5, -3, 9, 0] {
        map.insert(k, k * 10);
    }
    let mut it = map.iter();
    let mut seen = vec![];
    while let Some((k, v)) = it.next() {
        seen.push((k, *v));
    }
    assert_eq!(seen, [(-3, -30), (0, 0), (5, 50), (9, 90)]);
    assert_eq!(it.next(), None);
    let mut again = map.iter();
    assert_eq!(again.next(), Some((-3, &-30)));
}

#[test]
fn level_from_draws_counts_promotions() {
    assert_eq!(level_from_draws(&vec![0, 10, 50, 1], 16), 3);
    assert_eq!(level_from_draws(&vec![], 16), 1);
    assert_eq!(level_from_draws(&vec![30], 16), 1);
    assert_eq!(level_from_draws(&vec![29, 29, 29], 3), 3);
    assert_eq!(level_from_draws(&vec![5, 99], 1), 1);
}
