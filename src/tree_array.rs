//! A Fenwick (binary indexed) tree over `i64` values: point updates and
//! prefix sums, each in a logarithmic number of steps.

use vstd::prelude::*;

verus! {

/// Largest number of values a tree holds.
pub const MAX_LEN: usize = 0x1000_0000;

/// Largest magnitude of a single value.
pub const MAX_VALUE: i64 = 0x7fff_ffff;

/// The lowest set bit of `x`, as `x & -x`.
pub open spec fn lb(x: i32) -> i32 {
    x & !((x - 1) as i32)
}

/// Sum of `s` over positions `a..b`.
pub open spec fn range_sum(s: Seq<int>, a: int, b: int) -> int
    decreases b - a,
{
    if a >= b {
        0
    } else {
        range_sum(s, a, b - 1) + s[b - 1]
    }
}

proof fn lemma_lb(x: i32)
    requires
        x > 0,
    ensures
        1 <= lb(x) <= x,
{
    assert(x > 0 ==> 1 <= x & !((x - 1) as i32) && x & !((x - 1) as i32) <= x) by (bit_vector);
}

/// Between a node and the next one up the update chain, no node covers
/// anything below the first.
proof fn lemma_lb_gap(i: i32, j: i32)
    requires
        0 < i < j,
        j < i + lb(i),
        i + lb(i) < 0x4000_0000,
    ensures
        j - lb(j) >= i,
{
    assert(0 < i < j && j < i + (i & !((i - 1) as i32)) && i + (i & !((i - 1) as i32)) < 0x4000_0000 ==> j - (j
        & !((j - 1) as i32)) >= i) by (bit_vector);
}

/// The next node up the update chain starts no later than this one.
proof fn lemma_lb_next(i: i32)
    requires
        0 < i < 0x4000_0000,
    ensures
        (i + lb(i)) as i32 - lb((i + lb(i)) as i32) <= i - lb(i),
{
    let k = (i + lb(i)) as i32;
    assert(0 < i && i < 0x4000_0000 && k == (i + (i & !((i - 1) as i32))) as i32 ==> k - (k & !((k - 1) as i32)) <= i
        - (i & !((i - 1) as i32))) by (bit_vector);
}

proof fn lemma_sum_split(s: Seq<int>, a: int, m: int, b: int)
    requires
        a <= m <= b,
    ensures
        range_sum(s, a, b) == range_sum(s, a, m) + range_sum(s, m, b),
    decreases b - m,
{
    if m < b {
        lemma_sum_split(s, a, m, b - 1);
    }
}

proof fn lemma_sum_update(s: Seq<int>, a: int, b: int, p: int, v: int)
    requires
        0 <= p < s.len(),
        0 <= a,
        b <= s.len(),
    ensures
        range_sum(s.update(p, s[p] + v), a, b) == range_sum(s, a, b) + if a <= p < b {
            v
        } else {
            0
        },
    decreases b - a,
{
    if a < b {
        lemma_sum_update(s, a, b - 1, p, v);
        assert(s.update(p, s[p] + v)[b - 1] == s[b - 1] + if b - 1 == p {
            v
        } else {
            0
        });
    }
}

proof fn lemma_sum_bound(s: Seq<int>, a: int, b: int)
    requires
        0 <= a,
        b <= s.len(),
        forall|k: int| 0 <= k < s.len() ==> -MAX_VALUE <= #[trigger] s[k] <= MAX_VALUE,
    ensures
        a < b ==> -(b - a) * MAX_VALUE <= range_sum(s, a, b) <= (b - a) * MAX_VALUE,
    decreases b - a,
{
    if a < b {
        lemma_sum_bound(s, a, b - 1);
        assert((b - a) * MAX_VALUE == (b - 1 - a) * MAX_VALUE + MAX_VALUE) by (nonlinear_arith);
        assert(-(b - a) * MAX_VALUE == -(b - 1 - a) * MAX_VALUE - MAX_VALUE) by (nonlinear_arith);
        if a == b - 1 {
            assert(range_sum(s, a, b - 1) == 0);
        }
    }
}

/// A Fenwick tree: `tree[i]` holds the sum of the values at positions
/// `i - lowbit(i) .. i`.
pub struct TreeArray {
    tree: Vec<i64>,
    vals: Ghost<Seq<int>>,
}

impl TreeArray {
    /// The values, by position.
    pub closed spec fn values(&self) -> Seq<int> {
        self.vals@
    }

    /// The invariant.
    pub closed spec fn wf(&self) -> bool {
        let n = self.vals@.len();
        &&& self.tree@.len() == n + 1
        &&& n <= MAX_LEN
        &&& forall|k: int| 0 <= k < n ==> -MAX_VALUE <= #[trigger] self.vals@[k] <= MAX_VALUE
        &&& forall|i: int|
            1 <= i <= n ==> #[trigger] self.tree@[i] == range_sum(self.vals@, i - lb(i as i32), i)
    }

    /// The lowest set bit of `x`.
    pub fn lowbit(x: i32) -> (r: i32)
        requires
            x > i32::MIN,
        ensures
            r == lb(x),
    {
        x & !(x - 1)
    }

    /// Sum of the values at positions `0..=r`; `None` past the end.
    pub fn query(&self, r: usize) -> (res: Option<i64>)
        requires
            self.wf(),
        ensures
            res == if r < self.values().len() {
                Some(range_sum(self.values(), 0, r + 1) as i64)
            } else {
                None::<i64>
            },
            r < self.values().len() ==> i64::MIN <= range_sum(self.values(), 0, r + 1) <= i64::MAX,
    {
        let n = self.tree.len() - 1;
        if r >= n {
            return None;
        }
        let ghost s = self.vals@;
        proof {
            lemma_sum_bound(s, 0, r + 1);
            assert((r + 1) * MAX_VALUE <= MAX_LEN * MAX_VALUE) by (nonlinear_arith)
                requires
                    r + 1 <= MAX_LEN,
            ;
        }
        let mut i: i32 = (r + 1) as i32;
        let mut res: i64 = 0;
        while i > 0
            invariant
                self.wf(),
                s == self.vals@,
                r < n,
                n == s.len(),
                0 <= i <= r + 1,
                res == range_sum(s, i as int, r + 1),
            decreases i,
        {
            proof {
                lemma_lb(i);
                lemma_sum_split(s, i - lb(i), i as int, r + 1);
                lemma_sum_bound(s, i - lb(i), r + 1);
                assert((r + 1 - (i - lb(i))) * MAX_VALUE <= MAX_LEN * MAX_VALUE) by (nonlinear_arith)
                    requires
                        r + 1 - (i - lb(i)) <= MAX_LEN,
                ;
            }
            res = res + self.tree[i as usize];
            i = i - Self::lowbit(i);
        }
        Some(res)
    }

    /// Adds `val` to the value at position `idx`.
    pub fn add(&mut self, idx: usize, val: i64)
        requires
            old(self).wf(),
            idx < old(self).values().len(),
            -MAX_VALUE <= old(self).values()[idx as int] + val <= MAX_VALUE,
        ensures
            final(self).wf(),
            final(self).values() == old(self).values().update(idx as int, old(self).values()[idx as int] + val),
    {
        let ghost s0 = self.vals@;
        let ghost s1 = s0.update(idx as int, s0[idx as int] + val);
        let n = self.tree.len() - 1;
        let ghost x: int = idx + 1;
        let mut i: i32 = (idx + 1) as i32;
        proof {
            lemma_lb(i);
        }
        while (i as usize) <= n
            invariant
                n == s0.len(),
                n <= MAX_LEN,
                self.tree@.len() == n + 1,
                self.vals@ == s0,
                s1 == s0.update(idx as int, s0[idx as int] + val),
                x == idx + 1,
                0 < x <= i,
                i - lb(i) < x,
                i <= 2 * n + 2,
                forall|k: int| 0 <= k < n ==> -MAX_VALUE <= #[trigger] s0[k] <= MAX_VALUE,
                -MAX_VALUE <= s1[idx as int] <= MAX_VALUE,
                forall|j: int|
                    1 <= j <= n ==> #[trigger] self.tree@[j] == range_sum(s0, j - lb(j as i32), j) + if j < i && j
                        - lb(j as i32) < x <= j {
                        val as int
                    } else {
                        0
                    },
            decreases 2 * n + 2 - i,
        {
            proof {
                lemma_lb(i);
                lemma_sum_update(s0, i - lb(i), i as int, idx as int, val as int);
                assert forall|k: int| 0 <= k < n implies -MAX_VALUE <= #[trigger] s1[k] <= MAX_VALUE by {}
                lemma_sum_bound(s1, i - lb(i), i as int);
                assert((i - (i - lb(i))) * MAX_VALUE <= MAX_LEN * MAX_VALUE) by (nonlinear_arith)
                    requires
                        i - (i - lb(i)) <= MAX_LEN,
                ;
            }
            let t = self.tree[i as usize];
            self.tree.set(i as usize, t + val);
            let ghost old_i = i;
            i = i + Self::lowbit(i);
            proof {
                lemma_lb_next(old_i);
                assert forall|j: int|
                    1 <= j <= n implies #[trigger] self.tree@[j] == range_sum(s0, j - lb(j as i32), j) + if j < i && j
                        - lb(j as i32) < x <= j {
                        val as int
                    } else {
                        0
                    } by {
                    if old_i < j < i {
                        lemma_lb_gap(old_i, j as i32);
                    }
                }
            }
        }
        self.vals = Ghost(s1);
        proof {
            assert forall|j: int| 1 <= j <= n implies #[trigger] self.tree@[j] == range_sum(s1, j - lb(j as i32), j) by {
                lemma_lb(j as i32);
                lemma_sum_update(s0, j - lb(j as i32), j, idx as int, val as int);
            }
        }
    }

    /// A tree over `nums`, built by adding each value in turn.
    pub fn new(nums: &Vec<i64>) -> (r: Self)
        requires
            nums@.len() <= MAX_LEN,
            forall|k: int| 0 <= k < nums@.len() ==> -MAX_VALUE <= #[trigger] nums@[k] <= MAX_VALUE,
        ensures
            r.wf(),
            r.values() == nums@.map_values(|v: i64| v as int),
    {
        let n = nums.len();
        let mut tree: Vec<i64> = Vec::new();
        let mut i: usize = 0;
        while i <= n
            invariant
                i <= n + 1,
                n <= MAX_LEN,
                tree@ == Seq::new(i as nat, |j: int| 0i64),
            decreases n + 1 - i,
        {
            tree.push(0);
            i += 1;
            assert(tree@ =~= Seq::new(i as nat, |j: int| 0i64));
        }
        let ghost zeros = Seq::new(n as nat, |j: int| 0int);
        let mut r = TreeArray { tree, vals: Ghost(zeros) };
        proof {
            assert forall|a: int, b: int| 0 <= a <= b <= n implies range_sum(zeros, a, b) == 0 by {
                lemma_zero_sum(zeros, a, b);
            }
            assert forall|j: int| 1 <= j <= n implies #[trigger] r.tree@[j] == range_sum(r.vals@, j - lb(j as i32), j) by {
                lemma_lb(j as i32);
            }
        }
        let mut k: usize = 0;
        while k < n
            invariant
                r.wf(),
                n == nums@.len(),
                k <= n,
                r.vals@.len() == n,
                forall|q: int| 0 <= q < n ==> -MAX_VALUE <= #[trigger] nums@[q] <= MAX_VALUE,
                forall|q: int| 0 <= q < k ==> #[trigger] r.vals@[q] == nums@[q] as int,
                forall|q: int| k <= q < n ==> #[trigger] r.vals@[q] == 0,
            decreases n - k,
        {
            r.add(k, nums[k]);
            k += 1;
        }
        assert(r.vals@ =~= nums@.map_values(|v: i64| v as int));
        r
    }
}

proof fn lemma_zero_sum(s: Seq<int>, a: int, b: int)
    requires
        0 <= a,
        b <= s.len(),
        forall|k: int| 0 <= k < s.len() ==> s[k] == 0,
    ensures
        range_sum(s, a, b) == 0,
    decreases b - a,
{
    if a < b {
        lemma_zero_sum(s, a, b - 1);
    }
}

} // verus!
