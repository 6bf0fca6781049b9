//! Quicksort with the last entry of each range as pivot.

use super::{drawn_from, kept_outside, lemma_chain, lemma_drawn_bounds, lemma_same, lemma_swap_in_range, lemma_widen, sorted_between, swap};
use vstd::prelude::*;

verus! {

/// Moves the entries of `lo..=hi` smaller than the pivot `nums[hi]` before
/// it and the others after it; returns where the pivot lands.
fn partition(nums: &mut Vec<i32>, lo: usize, hi: usize) -> (m: usize)
    requires
        lo <= hi < old(nums)@.len(),
    ensures
        lo <= m <= hi,
        final(nums)@[m as int] == old(nums)@[hi as int],
        forall|k: int| lo <= k < m ==> final(nums)@[k] < final(nums)@[m as int],
        forall|k: int| m < k <= hi ==> final(nums)@[k] >= final(nums)@[m as int],
        kept_outside(final(nums)@, old(nums)@, lo as int, hi + 1),
        drawn_from(final(nums)@, old(nums)@, lo as int, hi + 1),
        final(nums)@.to_multiset() == old(nums)@.to_multiset(),
{
    let ghost start = nums@;
    let pivot = nums[hi];
    proof {
        lemma_same(start, lo as int, hi + 1);
    }
    let mut i: usize = lo;
    let mut j: usize = lo;
    while j < hi
        invariant
            lo <= i <= j <= hi,
            hi < nums@.len(),
            pivot == start[hi as int],
            nums@[hi as int] == pivot,
            forall|k: int| lo <= k < i ==> nums@[k] < pivot,
            forall|k: int| i <= k < j ==> nums@[k] >= pivot,
            kept_outside(nums@, start, lo as int, hi + 1),
            drawn_from(nums@, start, lo as int, hi + 1),
            nums@.to_multiset() == start.to_multiset(),
        decreases hi - j,
    {
        if nums[j] < pivot {
            let ghost prev = nums@;
            swap(nums, i, j);
            proof {
                lemma_swap_in_range(prev, i as int, j as int, lo as int, hi + 1);
                lemma_chain(start, prev, nums@, lo as int, hi + 1);
            }
            i += 1;
        }
        j += 1;
    }
    let ghost prev = nums@;
    swap(nums, i, hi);
    proof {
        lemma_swap_in_range(prev, i as int, hi as int, lo as int, hi + 1);
        lemma_chain(start, prev, nums@, lo as int, hi + 1);
    }
    i
}

/// Sorts the range `lo..hi`.
fn sort_range(nums: &mut Vec<i32>, lo: usize, hi: usize)
    requires
        lo <= hi <= old(nums)@.len(),
    ensures
        sorted_between(final(nums)@, lo as int, hi as int),
        kept_outside(final(nums)@, old(nums)@, lo as int, hi as int),
        drawn_from(final(nums)@, old(nums)@, lo as int, hi as int),
        final(nums)@.to_multiset() == old(nums)@.to_multiset(),
    decreases hi - lo,
{
    if hi - lo > 1 {
        let ghost s0 = nums@;
        let m = partition(nums, lo, hi - 1);
        let ghost s1 = nums@;
        sort_range(nums, lo, m);
        let ghost s2 = nums@;
        sort_range(nums, m + 1, hi);
        let ghost s3 = nums@;
        proof {
            let p = s1[m as int];
            assert forall|k: int| lo <= k < m implies #[trigger] s3[k] < p by {
                lemma_drawn_bounds(s2, s1, lo as int, m as int, k, i32::MIN as int, p - 1);
                assert(s3[k] == s2[k]);
            }
            assert(s3[m as int] == p) by {
                assert(s3[m as int] == s2[m as int]);
            }
            assert forall|k: int| m < k < hi implies #[trigger] s3[k] >= p by {
                assert forall|j: int| m + 1 <= j < hi implies p <= #[trigger] s2[j] <= i32::MAX by {
                    assert(s2[j] == s1[j]);
                }
                lemma_drawn_bounds(s3, s2, m + 1, hi as int, k, p as int, i32::MAX as int);
            }
            assert forall|a: int, b: int| lo <= a <= b < hi implies s3[a] <= s3[b] by {
                if b < m {
                    assert(s3[a] == s2[a]);
                    assert(s3[b] == s2[b]);
                } else if a > m {
                } else {
                    if a < m {
                        assert(s3[a] < p);
                    }
                    if b > m {
                        assert(s3[b] >= p);
                    }
                }
            }
            lemma_widen(s1, s2, lo as int, m as int, lo as int, hi as int);
            lemma_widen(s2, s3, m + 1, hi as int, lo as int, hi as int);
            lemma_chain(s0, s1, s2, lo as int, hi as int);
            lemma_chain(s0, s2, s3, lo as int, hi as int);
        }
    } else {
        proof {
            lemma_same(nums@, lo as int, hi as int);
        }
    }
}

/// Sorts `nums` in ascending order.
pub fn quick_sort(nums: &mut Vec<i32>)
    ensures
        sorted_between(final(nums)@, 0, final(nums)@.len() as int),
        final(nums)@.to_multiset() == old(nums)@.to_multiset(),
{
    let n = nums.len();
    sort_range(nums, 0, n);
}

} // verus!
