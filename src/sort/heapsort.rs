//! Heapsort over a max-heap laid out in the vector itself.

use super::{drawn_from, kept_outside, lemma_chain, lemma_drawn_bounds, lemma_same, lemma_swap_in_range, lemma_widen, sorted_between, swap};
use vstd::prelude::*;

verus! {

/// Every parent in `start..=end` is at least each of its children in that range.
pub open spec fn heap_between(s: Seq<i32>, start: int, end: int) -> bool {
    forall|p: int, c: int|
        start <= p && c <= end && (c == 2 * p + 1 || c == 2 * p + 2) ==> #[trigger] s[p] >= #[trigger] s[c]
}

/// The root of a heap on `0..=end` is its largest entry.
pub proof fn lemma_root_max(s: Seq<i32>, end: int, k: int)
    requires
        heap_between(s, 0, end),
        0 <= k <= end,
    ensures
        s[0] >= s[k],
    decreases k,
{
    if k > 0 {
        let p = (k - 1) / 2;
        lemma_root_max(s, end, p);
        assert(k == 2 * p + 1 || k == 2 * p + 2);
        assert(s[p] >= s[k]);
    }
}

/// Sifts the entry at `start` down until `start..=end` is a max-heap,
/// given that it is one below `start`.
pub fn heapfiy(nums: &mut Vec<i32>, start: usize, end: usize)
    requires
        start <= end < old(nums)@.len(),
        end < usize::MAX / 2,
        heap_between(old(nums)@, start + 1, end as int),
    ensures
        heap_between(final(nums)@, start as int, end as int),
        kept_outside(final(nums)@, old(nums)@, start as int, end + 1),
        drawn_from(final(nums)@, old(nums)@, start as int, end + 1),
        final(nums)@.to_multiset() == old(nums)@.to_multiset(),
{
    let ghost s0 = nums@;
    proof {
        lemma_same(s0, start as int, end + 1);
    }
    let mut far: usize = start;
    while far * 2 + 1 <= end
        invariant
            start <= far <= end < nums@.len(),
            end < usize::MAX / 2,
            forall|p: int, c: int|
                start <= p && p != far && c <= end && (c == 2 * p + 1 || c == 2 * p + 2) ==> #[trigger] nums@[p]
                    >= #[trigger] nums@[c],
            far > start ==> forall|c: int|
                c <= end && (c == 2 * far + 1 || c == 2 * far + 2) ==> nums@[(far - 1) / 2] >= #[trigger] nums@[c],
            kept_outside(nums@, s0, start as int, end + 1),
            drawn_from(nums@, s0, start as int, end + 1),
            nums@.to_multiset() == s0.to_multiset(),
        ensures
            heap_between(nums@, start as int, end as int),
            kept_outside(nums@, s0, start as int, end + 1),
            drawn_from(nums@, s0, start as int, end + 1),
            nums@.to_multiset() == s0.to_multiset(),
        decreases end - far,
    {
        let mut child: usize = far * 2 + 1;
        if child < end && nums[child] < nums[child + 1] {
            child += 1;
        }
        if nums[child] < nums[far] {
            proof {
                assert forall|p: int, c: int|
                    start <= p && c <= end && (c == 2 * p + 1 || c == 2 * p + 2) implies #[trigger] nums@[p]
                    >= #[trigger] nums@[c] by {
                    if p == far {
                        assert(nums@[child as int] >= nums@[c]);
                    }
                }
            }
            break;
        }
        let ghost prev = nums@;
        swap(nums, far, child);
        proof {
            lemma_swap_in_range(prev, far as int, child as int, start as int, end + 1);
            lemma_chain(s0, prev, nums@, start as int, end + 1);
            let s = nums@;
            assert forall|p: int, c: int|
                start <= p && p != child && c <= end && (c == 2 * p + 1 || c == 2 * p + 2) implies #[trigger] s[p]
                >= #[trigger] s[c] by {
                if p == far {
                    assert(prev[child as int] >= prev[c]);
                } else if c == far {
                    assert(p == (far - 1) / 2);
                    assert(prev[p] >= prev[child as int]);
                } else if c == child {
                    assert(p == far);
                } else {
                    assert(prev[p] >= prev[c]);
                }
            }
            assert forall|c: int| c <= end && (c == 2 * child + 1 || c == 2 * child + 2) implies s[(child - 1) / 2]
                >= #[trigger] s[c] by {
                assert((child - 1) / 2 == far);
                assert(prev[child as int] >= prev[c]);
            }
        }
        far = child;
    }
}

/// Sorts `nums` in ascending order.
pub fn heapsort(nums: &mut Vec<i32>)
    requires
        old(nums)@.len() < usize::MAX / 2,
    ensures
        sorted_between(final(nums)@, 0, final(nums)@.len() as int),
        final(nums)@.to_multiset() == old(nums)@.to_multiset(),
{
    let n = nums.len();
    if n < 2 {
        return ;
    }
    let ghost s0 = nums@;
    let mut i: usize = n / 2;
    while i > 0
        invariant
            nums@.len() == n,
            2 <= n < usize::MAX / 2,
            i <= n / 2,
            heap_between(nums@, i as int, n - 1),
            nums@.to_multiset() == s0.to_multiset(),
        decreases i,
    {
        i -= 1;
        heapfiy(nums, i, n - 1);
    }
    let mut end: usize = n - 1;
    while end > 0
        invariant
            nums@.len() == n,
            2 <= n < usize::MAX / 2,
            end < n,
            heap_between(nums@, 0, end as int),
            sorted_between(nums@, end + 1, n as int),
            forall|a: int, b: int| 0 <= a <= end < b < n ==> nums@[a] <= nums@[b],
            nums@.to_multiset() == s0.to_multiset(),
        decreases end,
    {
        let ghost prev = nums@;
        proof {
            assert forall|k: int| 0 <= k <= end implies prev[0] >= #[trigger] prev[k] by {
                lemma_root_max(prev, end as int, k);
            }
        }
        swap(nums, 0, end);
        let ghost mid = nums@;
        proof {
            assert forall|p: int, c: int|
                1 <= p && c <= end - 1 && (c == 2 * p + 1 || c == 2 * p + 2) implies #[trigger] mid[p]
                >= #[trigger] mid[c] by {
                assert(prev[p] >= prev[c]);
            }
        }
        heapfiy(nums, 0, end - 1);
        proof {
            let s = nums@;
            assert forall|k: int| 0 <= k < end implies #[trigger] s[k] <= s[end as int] by {
                assert forall|j: int| 0 <= j < end implies i32::MIN <= #[trigger] mid[j] <= mid[end as int] by {
                    if j == 0 {
                        assert(mid[0] == prev[end as int]);
                    } else {
                        assert(mid[j] == prev[j]);
                    }
                }
                lemma_drawn_bounds(s, mid, 0, end as int, k, i32::MIN as int, mid[end as int] as int);
            }
            assert(s[end as int] == prev[0]);
            assert forall|a: int, b: int| 0 <= a <= end - 1 < b < n implies s[a] <= s[b] by {
                assert(s[a] <= s[end as int]);
                if b > end {
                    assert(prev[end as int] <= prev[b]);
                    assert(s[b] == prev[b]);
                    assert(prev[0] <= prev[b]);
                }
            }
            assert forall|a: int, b: int| end <= a <= b < n implies s[a] <= s[b] by {
                if a == end && b > end {
                    assert(prev[0] <= prev[b]);
                    assert(s[b] == prev[b]);
                } else if a > end {
                    assert(s[a] == prev[a]);
                    assert(s[b] == prev[b]);
                }
            }
        }
        end -= 1;
    }
}

} // verus!
