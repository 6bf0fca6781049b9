use algo_kit::sort::heapsort::{heapfiy, heapsort};
use algo_kit::sort::quicksort::quick_sort;
use algo_kit::sort::topk::{partition, topk};

#[test]
fn heapsort_test1() {
    let mut nums = vec![3, 1, 2, 5, 6];
    heapsort(&mut nums);
    assert_eq!(nums, [1, 2, 3, 5, 6]);
}

#[test]
fn heapsort_test2() {
    let mut nums = vec![217, 219, 1, 23, 232];
    heapsort(&mut nums);
    assert_eq!(nums, [1, 23, 217, 219, 232]);
}

#[test]
fn heapsort_edges() {
    let mut empty: Vec<i32> = vec![];
    heapsort(&mut empty);
    assert_eq!(empty, Vec::<i32>::new());
    let mut one = vec![7];
    heapsort(&mut one);
    assert_eq!(one, [7]);
    let mut dups = vec![4, -1, 4, 0, -1, 9, 4];
    heapsort(&mut dups);
    assert_eq!(dups, [-1, -1, 0, 4, 4, 4, 9]);
}

#[test]
fn heapfiy_sifts_root_down() {
    let mut nums = vec![1, 9, 8, 3, 4];
    heapfiy(&mut nums, 0, 4);
    assert_eq!(nums, [9, 4, 8, 3, 1]);
}

#[test]
fn test_sort_1() {
    let mut nums = vec![3, 4, 1, 5, 2];
    quick_sort(&mut nums);
    assert_eq!(nums, [1, 2, 3, 4, 5]);
}

#[test]
fn test_sort_2() {
    let mut nums = vec![1];
    quick_sort(&mut nums);
    assert_eq!(nums, [1]);
}

#[test]
fn quick_sort_edges() {
    let mut empty: Vec<i32> = vec![];
    quick_sort(&mut empty);
    assert_eq!(empty, Vec::<i32>::new());
    let mut nums = vec![5, -3, 5, i32::MIN, i32::MAX, 0, 0];
    quick_sort(&mut nums);
    assert_eq!(nums, [i32::MIN, -3, 0, 0, 5, 5, i32::MAX]);
}

#[test]
fn topk_test1() {
    let nums = vec![1, 2, 3, 4, 5];
    assert_eq!(topk(nums, 1), [5]);
}

#[test]
fn topk_test2() {
    let nums = vec![1, 2, 3, 4, 5];
    let mut res = topk(nums, 3);
    res.sort();
    assert_eq!(res, [3, 4, 5]);
}

#[test]
fn topk_edges() {
    assert_eq!(topk(vec![4, 1, 3], 0), Vec::<i32>::new());
    let mut all = topk(vec![4, 1, 3], 10);
    all.sort();
    assert_eq!(all, [1, 3, 4]);
    let mut dup = topk(vec![2, 7, 7, 1, 7], 2);
    dup.sort();
    assert_eq!(dup, [7, 7]);
}

#[test]
fn partition_puts_larger_first() {
    let mut nums = vec![5, 1, 8, 3, 4];
    let m = partition(&mut nums, 0, 4);
    assert_eq!(m, 2);
    assert_eq!(nums[2], 4);
    assert!(nums[..2].iter().all(|&x| x > 4));
    assert!(nums[3..].iter().all(|&x| x <= 4));
}
