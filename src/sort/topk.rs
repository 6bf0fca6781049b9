//! Selection of the `k` largest entries by repeated partitioning.

use super::{drawn_from, kept_outside, lemma_chain, lemma_drawn_bounds, lemma_same, lemma_swap_in_range, lemma_widen, swap};
use vstd::prelude::*;

verus! {

/// Every entry of `s` in `lo..kk` is at least every entry in `kk..hi`.
pub open spec fn split_at(s: Seq<i32>, lo: int, kk: int, hi: int) -> bool {
    forall|i: int, j: int| lo <= i < kk <= j < hi ==> s[i] >= s[j]
}

/// Moves the entries of `start..=end` greater than the pivot `nums[end]`
/// before it and the others after it; returns where the pivot lands.
pub fn partition(nums: &mut Vec<i32>, start: usize, end: usize) -> (m: usize)
    requires
        start <= end < old(nums)@.len(),
    ensures
        start <= m <= end,
        final(nums)@[m as int] == old(nums)@[end as int],
        forall|k: int| start <= k < m ==> final(nums)@[k] > final(nums)@[m as int],
        forall|k: int| m < k <= end ==> final(nums)@[k] <= final(nums)@[m as int],
        kept_outside(final(nums)@, old(nums)@, start as int, end + 1),
        drawn_from(final(nums)@, old(nums)@, start as int, end + 1),
        final(nums)@.to_multiset() == old(nums)@.to_multiset(),
{
    let ghost first = nums@;
    let pivot = nums[end];
    proof {
        lemma_same(first, start as int, end + 1);
    }
    let mut i: usize = start;
    let mut j: usize = start;
    while j < end
        invariant
            start <= i <= j <= end,
            end < nums@.len(),
            pivot == first[end as int],
            nums@[end as int] == pivot,
            forall|k: int| start <= k < i ==> nums@[k] > pivot,
            forall|k: int| i <= k < j ==> nums@[k] <= pivot,
            kept_outside(nums@, first, start as int, end + 1),
            drawn_from(nums@, first, start as int, end + 1),
            nums@.to_multiset() == first.to_multiset(),
        decreases end - j,
    {
        if nums[j] > pivot {
            let ghost prev = nums@;
            swap(nums, j, i);
            proof {
                lemma_swap_in_range(prev, j as int, i as int, start as int, end + 1);
                lemma_chain(first, prev, nums@, start as int, end + 1);
            }
            i += 1;
        }
        j += 1;
    }
    let ghost prev = nums@;
    swap(nums, i, end);
    proof {
        lemma_swap_in_range(prev, i as int, end as int, start as int, end + 1);
        lemma_chain(first, prev, nums@, start as int, end + 1);
    }
    i
}

/// Rearranges `lo..hi` so that the entries before position `kk` are at
/// least the entries from `kk` on.
fn select(nums: &mut Vec<i32>, kk: usize, lo: usize, hi: usize)
    requires
        lo <= hi <= old(nums)@.len(),
    ensures
        split_at(final(nums)@, lo as int, kk as int, hi as int),
        kept_outside(final(nums)@, old(nums)@, lo as int, hi as int),
        drawn_from(final(nums)@, old(nums)@, lo as int, hi as int),
        final(nums)@.to_multiset() == old(nums)@.to_multiset(),
    decreases hi - lo,
{
    if hi - lo <= 1 {
        proof {
            lemma_same(nums@, lo as int, hi as int);
        }
        return ;
    }
    let ghost s0 = nums@;
    let t = partition(nums, lo, hi - 1);
    let ghost s1 = nums@;
    let p = nums[t];
    if t >= kk {
        select(nums, kk, lo, t);
        let ghost s2 = nums@;
        proof {
            assert forall|i: int, j: int| lo <= i < kk <= j < hi implies s2[i] >= s2[j] by {
                if j >= t {
                    assert(s2[j] == s1[j]);
                    if i < kk {
                        lemma_drawn_bounds(s2, s1, lo as int, t as int, i, p + 1, i32::MAX as int);
                    }
                }
            }
            lemma_widen(s1, s2, lo as int, t as int, lo as int, hi as int);
            lemma_chain(s0, s1, s2, lo as int, hi as int);
        }
    } else if t + 1 < kk {
        select(nums, kk, t + 1, hi);
        let ghost s2 = nums@;
        proof {
            assert forall|j: int| t + 1 <= j < hi implies i32::MIN <= #[trigger] s1[j] <= p by {}
            assert forall|i: int, j: int| lo <= i < kk <= j < hi implies s2[i] >= s2[j] by {
                if i <= t {
                    assert(s2[i] == s1[i]);
                    lemma_drawn_bounds(s2, s1, t + 1, hi as int, j, i32::MIN as int, p as int);
                }
            }
            lemma_widen(s1, s2, t + 1, hi as int, lo as int, hi as int);
            lemma_chain(s0, s1, s2, lo as int, hi as int);
        }
    }
}

/// The `k` largest entries of `nums` (all of them when `k` exceeds the
/// length), in no particular order.
pub fn topk(nums: Vec<i32>, k: usize) -> (r: Vec<i32>)
    ensures
        r@.len() == if k < nums@.len() {
            k as int
        } else {
            nums@.len() as int
        },
        exists|rest: Seq<i32>|
            (r@ + rest).to_multiset() == nums@.to_multiset() && forall|i: int, j: int|
                0 <= i < r@.len() && 0 <= j < rest.len() ==> r@[i] >= rest[j],
{
    let mut nums = nums;
    let l = nums.len();
    select(&mut nums, k, 0, l);
    let m: usize = if k < l {
        k
    } else {
        l
    };
    let mut r: Vec<i32> = Vec::new();
    let mut i: usize = 0;
    while i < m
        invariant
            i <= m <= nums@.len(),
            r@ == nums@.subrange(0, i as int),
        decreases m - i,
    {
        r.push(nums[i]);
        i += 1;
        assert(r@ =~= nums@.subrange(0, i as int));
    }
    proof {
        let rest = nums@.subrange(m as int, l as int);
        assert(r@ + rest =~= nums@);
        assert forall|i: int, j: int| 0 <= i < r@.len() && 0 <= j < rest.len() implies r@[i] >= rest[j] by {
            assert(r@[i] == nums@[i]);
            assert(rest[j] == nums@[m + j]);
        }
    }
    r
}

} // verus!
