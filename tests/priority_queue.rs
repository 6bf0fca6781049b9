use algo_kit::priority_queue::PriorityQueue;

#[test]
fn test_min() {
    let nums = vec![4, 3, 1, 2];
    let mut que = PriorityQueue::new(Some(nums), |x: &i32, y: &i32| x < y);
    assert_eq!(que.pop(), 1);
    que.push(-2);
    assert_eq!(que.pop(), -2);
    assert_eq!(que.pop(), 2);
    assert_eq!(que.pop(), 3);
}

#[test]
fn test_max() {
    let nums = vec![4, 3, 1, 2];
    let mut que = PriorityQueue::new(Some(nums), |x: &i32, y: &i32| x > y);
    assert_eq!(que.pop(), 4);
    que.push(100);
    assert_eq!(que.pop(), 100);
    assert_eq!(que.pop(), 3);
    assert_eq!(que.pop(), 2);
}

#[test]
fn empty_queue_fills_and_drains_in_order() {
    let mut que = PriorityQueue::new(None, |x: &i32, y: &i32| x < y);
    assert!(que.empty());
    assert_eq!(que.len(), 0);
    for x in [5, -1, 9, 3, 3, 0, 12, -7] {
        que.push(x);
    }
    assert_eq!(que.len(), 8);
    let mut out = vec![];
    while !que.empty() {
        out.push(que.pop());
    }
    assert_eq!(out, [-7, -1, 0, 3, 3, 5, 9, 12]);
}

#[test]
fn heapify_builds_from_many() {
    let nums: Vec<i32> = (0..50).map(|i| (i * 37) % 101).collect();
    let mut sorted = nums.clone();
    sorted.sort();
    sorted.reverse();
    let mut que = PriorityQueue::new(Some(nums), |x: &i32, y: &i32| x > y);
    let mut out = vec![];
    while !que.empty() {
        out.push(que.pop());
    }
    assert_eq!(out, sorted);
}
