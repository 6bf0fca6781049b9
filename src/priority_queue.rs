//! A binary-heap priority queue of `i32` ordered by a caller's comparator:
//! `cmp(a, b)` says that `a` leaves the queue before `b`.
//!
//! The ordering facts are stated for every relation `lt` that agrees with
//! the comparator's answers (see [`orders`]); a comparator whose contract is
//! `r == (*a < *b)` agrees with `|a, b| a < b`, for instance.

use vstd::multiset::Multiset;
use vstd::prelude::*;

verus! {

broadcast use vstd::seq_lib::group_to_multiset_ensures, vstd::multiset::group_multiset_axioms;

/// `cmp` may be called on any pair.
pub open spec fn callable<F: Fn(&i32, &i32) -> bool>(cmp: F) -> bool {
    forall|a: i32, b: i32| #[trigger] cmp.requires((&a, &b))
}

/// `lt` is a strict weak order: asymmetric, with "not before" transitive.
pub open spec fn strict_weak(lt: spec_fn(i32, i32) -> bool) -> bool {
    &&& forall|a: i32, b: i32| #[trigger] lt(a, b) ==> !lt(b, a)
    &&& forall|a: i32, b: i32, c: i32|
        #![trigger lt(a, b), lt(b, c), lt(a, c)]
        !lt(a, b) && !lt(b, c) ==> !lt(a, c)
}

/// Every answer `cmp` gives for `(a, b)` is `lt(a, b)`, and `lt` is a
/// strict weak order.
pub open spec fn orders<F: Fn(&i32, &i32) -> bool>(cmp: F, lt: spec_fn(i32, i32) -> bool) -> bool {
    &&& forall|a: i32, b: i32, r: bool| #[trigger] cmp.ensures((&a, &b), r) ==> r == lt(a, b)
    &&& strict_weak(lt)
}

/// No child in `start..=end` goes before its parent under `lt`.
pub open spec fn heap_ok(lt: spec_fn(i32, i32) -> bool, s: Seq<i32>, start: int, end: int) -> bool {
    forall|p: int, c: int|
        start <= p && c <= end && (c == 2 * p + 1 || c == 2 * p + 2) ==> !lt(#[trigger] s[c], #[trigger] s[p])
}

proof fn lemma_trans(lt: spec_fn(i32, i32) -> bool, a: i32, b: i32, c: i32)
    requires
        strict_weak(lt),
        !lt(a, b),
        !lt(b, c),
    ensures
        !lt(a, c),
{
    assert(!lt(a, b) && !lt(b, c) && (lt(a, c) || !lt(a, c)));
}

/// Nothing in a heap on `0..=end` goes before its root.
proof fn lemma_root_first(lt: spec_fn(i32, i32) -> bool, s: Seq<i32>, end: int, k: int)
    requires
        strict_weak(lt),
        heap_ok(lt, s, 0, end),
        0 <= k <= end,
    ensures
        !lt(s[k], s[0]),
    decreases k,
{
    if k > 0 {
        let p = (k - 1) / 2;
        lemma_root_first(lt, s, end, p);
        assert(k == 2 * p + 1 || k == 2 * p + 2);
        assert(!lt(s[k], s[p]));
        lemma_trans(lt, s[k], s[p], s[0]);
    } else {
        assert(lt(s[0], s[0]) ==> !lt(s[0], s[0]));
    }
}

/// While sifting down from `far`: every pair but those at `far` is in
/// order, and `far`'s children do not go before `far`'s parent.
pub open spec fn sift_inv(lt: spec_fn(i32, i32) -> bool, q: Seq<i32>, start: int, end: int, far: int) -> bool {
    &&& forall|p: int, c: int|
        start <= p && p != far && c <= end && (c == 2 * p + 1 || c == 2 * p + 2) ==> !lt(#[trigger] q[c], #[trigger] q[p])
    &&& far > start ==> forall|c: int|
        c <= end && (c == 2 * far + 1 || c == 2 * far + 2) ==> !lt(#[trigger] q[c], q[(far - 1) / 2])
}

/// `child` is the child of `far` that goes first.
pub open spec fn best_child(lt: spec_fn(i32, i32) -> bool, q: Seq<i32>, end: int, far: int, child: int) -> bool {
    let c0 = 2 * far + 1;
    &&& c0 <= end
    &&& (child == c0 || (child == c0 + 1 && c0 + 1 <= end))
    &&& child == c0 + 1 ==> lt(q[c0 + 1], q[c0])
    &&& (child == c0 && c0 + 1 <= end) ==> !lt(q[c0 + 1], q[c0])
}

proof fn lemma_sift_stop(lt: spec_fn(i32, i32) -> bool, q: Seq<i32>, start: int, end: int, far: int, child: int)
    requires
        strict_weak(lt),
        start <= far,
        sift_inv(lt, q, start, end, far),
        best_child(lt, q, end, far, child),
        lt(q[far], q[child]),
    ensures
        heap_ok(lt, q, start, end),
{
    let c0 = 2 * far + 1;
    assert(!lt(q[child], q[far]));
    if child == c0 + 1 {
        assert(!lt(q[c0], q[c0 + 1]));
    }
    assert forall|p: int, c: int| start <= p && c <= end && (c == 2 * p + 1 || c == 2 * p + 2) implies !lt(
        #[trigger] q[c],
        #[trigger] q[p],
    ) by {
        if p == far && c != child {
            lemma_trans(lt, q[c], q[child], q[far]);
        }
    }
}

proof fn lemma_sift_swap(lt: spec_fn(i32, i32) -> bool, q: Seq<i32>, start: int, end: int, far: int, child: int)
    requires
        strict_weak(lt),
        0 <= start <= far,
        end < q.len(),
        sift_inv(lt, q, start, end, far),
        best_child(lt, q, end, far, child),
        !lt(q[far], q[child]),
    ensures
        sift_inv(lt, q.update(far, q[child]).update(child, q[far]), start, end, child),
{
    let s = q.update(far, q[child]).update(child, q[far]);
    let c0 = 2 * far + 1;
    if child == c0 + 1 {
        assert(!lt(q[c0], q[c0 + 1]));
    }
    assert forall|p: int, c: int| start <= p && p != child && c <= end && (c == 2 * p + 1 || c == 2 * p + 2) implies !lt(
        #[trigger] s[c],
        #[trigger] s[p],
    ) by {
        if p == far {
        } else if c == far {
            assert(p == (far - 1) / 2);
            assert(far > start);
            assert(child <= end && (child == 2 * far + 1 || child == 2 * far + 2));
            assert(!lt(q[child], q[(far - 1) / 2]));
            assert(s[c] == q[child]);
            assert(s[p] == q[p]);
        } else {
            assert(!lt(q[c], q[p]));
        }
    }
    assert forall|c: int| c <= end && (c == 2 * child + 1 || c == 2 * child + 2) implies !lt(
        #[trigger] s[c],
        s[(child - 1) / 2],
    ) by {
        assert((child - 1) / 2 == far);
        assert(child != far && start <= child);
        assert(!lt(q[c], q[child]));
        assert(s[c] == q[c]);
    }
}

/// While sifting up from `i`: every pair but the one above `i` is in order,
/// and `i`'s children do not go before `i`'s parent.
pub open spec fn up_inv(lt: spec_fn(i32, i32) -> bool, q: Seq<i32>, n: int, i: int) -> bool {
    &&& forall|p: int, c: int|
        0 <= p && c != i && c <= n - 1 && (c == 2 * p + 1 || c == 2 * p + 2) ==> !lt(#[trigger] q[c], #[trigger] q[p])
    &&& i > 0 ==> forall|c: int|
        c <= n - 1 && (c == 2 * i + 1 || c == 2 * i + 2) ==> !lt(#[trigger] q[c], q[(i - 1) / 2])
}

proof fn lemma_up_swap(lt: spec_fn(i32, i32) -> bool, q: Seq<i32>, n: int, i: int)
    requires
        strict_weak(lt),
        0 < i < n <= q.len(),
        up_inv(lt, q, n, i),
        lt(q[i], q[(i - 1) / 2]),
    ensures
        up_inv(lt, q.update(i, q[(i - 1) / 2]).update((i - 1) / 2, q[i]), n, (i - 1) / 2),
{
    let p = (i - 1) / 2;
    let s = q.update(i, q[p]).update(p, q[i]);
    assert(!lt(q[p], q[i]));
    assert forall|a: int, c: int| 0 <= a && c != p && c <= n - 1 && (c == 2 * a + 1 || c == 2 * a + 2) implies !lt(
        #[trigger] s[c],
        #[trigger] s[a],
    ) by {
        if a == p {
            if c != i {
                assert(!lt(q[c], q[p]));
                lemma_trans(lt, q[c], q[p], q[i]);
            }
        } else if a == i {
            assert(p == (i - 1) / 2);
        } else {
            assert(!lt(q[c], q[a]));
        }
    }
    if p > 0 {
        let pp = (p - 1) / 2;
        assert(!lt(q[p], q[pp]));
        assert forall|c: int| c <= n - 1 && (c == 2 * p + 1 || c == 2 * p + 2) implies !lt(#[trigger] s[c], s[(p - 1) / 2]) by {
            if c != i {
                assert(!lt(q[c], q[p]));
                lemma_trans(lt, q[c], q[p], q[pp]);
            }
        }
    }
}

proof fn lemma_up_stop(lt: spec_fn(i32, i32) -> bool, q: Seq<i32>, n: int, i: int)
    requires
        0 <= i < n,
        up_inv(lt, q, n, i),
        i > 0 ==> !lt(q[i], q[(i - 1) / 2]),
    ensures
        heap_ok(lt, q, 0, n - 1),
{
    assert forall|a: int, c: int| 0 <= a && c <= n - 1 && (c == 2 * a + 1 || c == 2 * a + 2) implies !lt(
        #[trigger] q[c],
        #[trigger] q[a],
    ) by {
        if c == i {
            assert(a == (i - 1) / 2);
        }
    }
}

/// A binary heap in a vector, with the comparator that orders it.
pub struct PriorityQueue<F> {
    que: Vec<i32>,
    cmp: F,
}

impl<F: Fn(&i32, &i32) -> bool> PriorityQueue<F> {
    /// The queue's invariant: the vector is a heap under every relation
    /// that agrees with the comparator.
    pub closed spec fn wf(&self) -> bool {
        &&& callable(self.cmp)
        &&& self.que@.len() < usize::MAX / 2
        &&& forall|lt: spec_fn(i32, i32) -> bool|
            #[trigger] orders(self.cmp, lt) ==> heap_ok(lt, self.que@, 0, self.que@.len() - 1)
    }

    /// The comparator.
    pub closed spec fn order(&self) -> F {
        self.cmp
    }

    /// The vector that holds the heap.
    pub closed spec fn heap_seq(&self) -> Seq<i32> {
        self.que@
    }

    /// The entries held, with their multiplicities.
    pub closed spec fn items(&self) -> Multiset<i32> {
        self.que@.to_multiset()
    }

    fn swap(&mut self, i: usize, j: usize)
        requires
            i < old(self).que@.len(),
            j < old(self).que@.len(),
        ensures
            final(self).que@ == old(self).que@.update(i as int, old(self).que@[j as int]).update(
                j as int,
                old(self).que@[i as int],
            ),
            final(self).que@.to_multiset() == old(self).que@.to_multiset(),
            final(self).cmp == old(self).cmp,
    {
        crate::sort::swap(&mut self.que, i, j);
    }

    /// Sifts the entry at `start` down until `start..=end` is a heap, given
    /// that it is one below `start`.
    pub fn heapify(&mut self, start: usize, end: usize)
        requires
            callable(old(self).order()),
            start <= end < old(self).heap_seq().len(),
            end < usize::MAX / 2,
            forall|lt: spec_fn(i32, i32) -> bool|
                #[trigger] orders(old(self).order(), lt) ==> heap_ok(lt, old(self).heap_seq(), start + 1, end as int),
        ensures
            final(self).order() == old(self).order(),
            final(self).heap_seq().len() == old(self).heap_seq().len(),
            forall|lt: spec_fn(i32, i32) -> bool|
                #[trigger] orders(final(self).order(), lt) ==> heap_ok(lt, final(self).heap_seq(), start as int, end as int),
            forall|k: int|
                0 <= k < final(self).heap_seq().len() && !(start <= k <= end) ==> #[trigger] final(self).heap_seq()[k]
                    == old(self).heap_seq()[k],
            final(self).heap_seq().to_multiset() == old(self).heap_seq().to_multiset(),
    {
        let ghost s0 = self.que@;
        let ghost cmp = self.cmp;
        let mut far: usize = start;
        proof {
            assert forall|lt: spec_fn(i32, i32) -> bool| #[trigger] orders(cmp, lt) implies sift_inv(
                lt,
                s0,
                start as int,
                end as int,
                start as int,
            ) by {
                assert(heap_ok(lt, s0, start + 1, end as int));
            }
        }
        while far * 2 + 1 <= end
            invariant
                self.cmp == cmp,
                callable(cmp),
                start <= far <= end < self.que@.len(),
                end < usize::MAX / 2,
                self.que@.len() == s0.len(),
                forall|lt: spec_fn(i32, i32) -> bool|
                    #[trigger] orders(cmp, lt) ==> sift_inv(lt, self.que@, start as int, end as int, far as int),
                forall|k: int| 0 <= k < s0.len() && !(start <= k <= end) ==> #[trigger] self.que@[k] == s0[k],
                self.que@.to_multiset() == s0.to_multiset(),
            ensures
                forall|lt: spec_fn(i32, i32) -> bool|
                    #[trigger] orders(cmp, lt) ==> heap_ok(lt, self.que@, start as int, end as int),
                self.que@.len() == s0.len(),
                forall|k: int| 0 <= k < s0.len() && !(start <= k <= end) ==> #[trigger] self.que@[k] == s0[k],
                self.que@.to_multiset() == s0.to_multiset(),
            decreases end - far,
        {
            let ghost q = self.que@;
            let c0: usize = far * 2 + 1;
            let mut child: usize = c0;
            if c0 < end {
                let go = (self.cmp)(&self.que[c0 + 1], &self.que[c0]);
                if go {
                    child = c0 + 1;
                }
            }
            let stop = (self.cmp)(&self.que[far], &self.que[child]);
            proof {
                assert forall|lt: spec_fn(i32, i32) -> bool| #[trigger] orders(cmp, lt) implies best_child(
                    lt,
                    q,
                    end as int,
                    far as int,
                    child as int,
                ) && stop == lt(q[far as int], q[child as int]) by {}
            }
            if stop {
                proof {
                    assert forall|lt: spec_fn(i32, i32) -> bool| #[trigger] orders(cmp, lt) implies heap_ok(
                        lt,
                        q,
                        start as int,
                        end as int,
                    ) by {
                        lemma_sift_stop(lt, q, start as int, end as int, far as int, child as int);
                    }
                }
                break;
            }
            self.swap(far, child);
            proof {
                assert forall|lt: spec_fn(i32, i32) -> bool| #[trigger] orders(cmp, lt) implies sift_inv(
                    lt,
                    self.que@,
                    start as int,
                    end as int,
                    child as int,
                ) by {
                    lemma_sift_swap(lt, q, start as int, end as int, far as int, child as int);
                }
            }
            far = child;
        }
    }

    /// A queue over `nums` (empty for `None`), ordered by `cmp`.
    pub fn new(nums: Option<Vec<i32>>, cmp: F) -> (r: Self)
        requires
            callable(cmp),
            nums matches Some(v) ==> v@.len() < usize::MAX / 2,
        ensures
            r.wf(),
            r.order() == cmp,
            r.items() == match nums {
                Some(v) => v@.to_multiset(),
                None => Multiset::empty(),
            },
    {
        match nums {
            Some(v) => {
                let mut r = PriorityQueue { que: v, cmp };
                let n = r.que.len();
                let ghost s0 = r.que@;
                if n >= 2 {
                    let mut i: usize = n / 2;
                    while i > 0
                        invariant
                            r.cmp == cmp,
                            callable(cmp),
                            r.que@.len() == n,
                            2 <= n < usize::MAX / 2,
                            i <= n / 2,
                            forall|lt: spec_fn(i32, i32) -> bool|
                                #[trigger] orders(cmp, lt) ==> heap_ok(lt, r.que@, i as int, n - 1),
                            r.que@.to_multiset() == s0.to_multiset(),
                        decreases i,
                    {
                        i -= 1;
                        r.heapify(i, n - 1);
                    }
                }
                r
            },
            None => {
                let r = PriorityQueue { que: Vec::new(), cmp };
                proof {
                    assert(r.que@.to_multiset() =~= Multiset::empty());
                }
                r
            },
        }
    }

    /// Number of entries.
    pub fn len(&self) -> (r: usize)
        ensures
            r == self.items().len(),
    {
        self.que.len()
    }

    /// Whether the queue is empty.
    pub fn empty(&self) -> (r: bool)
        ensures
            r == (self.items().len() == 0),
    {
        self.que.len() == 0
    }

    /// Removes and returns an entry that no other entry goes before.
    pub fn pop(&mut self) -> (r: i32)
        requires
            old(self).wf(),
            old(self).items().len() > 0,
        ensures
            final(self).wf(),
            final(self).order() == old(self).order(),
            old(self).items().contains(r),
            final(self).items() == old(self).items().remove(r),
            forall|lt: spec_fn(i32, i32) -> bool|
                #[trigger] orders(old(self).order(), lt) ==> forall|x: i32| old(self).items().contains(x) ==> !lt(x, r),
    {
        let ghost s0 = self.que@;
        let ghost cmp = self.cmp;
        let n = self.que.len();
        proof {
            assert forall|lt: spec_fn(i32, i32) -> bool| #[trigger] orders(cmp, lt) implies forall|x: i32|
                s0.to_multiset().contains(x) ==> !lt(x, s0[0]) by {
                assert forall|x: i32| s0.to_multiset().contains(x) implies !lt(x, s0[0]) by {
                    let k = choose|k: int| 0 <= k < s0.len() && s0[k] == x;
                    lemma_root_first(lt, s0, n - 1, k);
                }
            }
        }
        self.swap(0, n - 1);
        let ghost s1 = self.que@;
        let r = match self.que.pop() {
            Some(x) => x,
            None => 0,
        };
        let ghost s2 = self.que@;
        proof {
            assert(s2 =~= s1.drop_last());
            assert(s1 =~= s2.push(r));
            assert(s1.to_multiset() == s2.to_multiset().insert(r));
            assert(s2.to_multiset() =~= s1.to_multiset().remove(r));
        }
        if n > 1 {
            proof {
                assert forall|lt: spec_fn(i32, i32) -> bool| #[trigger] orders(cmp, lt) implies heap_ok(
                    lt,
                    s2,
                    1,
                    n - 2,
                ) by {
                    assert forall|p: int, c: int|
                        1 <= p && c <= n - 2 && (c == 2 * p + 1 || c == 2 * p + 2) implies !lt(
                        #[trigger] s2[c],
                        #[trigger] s2[p],
                    ) by {
                        assert(s2[c] == s0[c]);
                        assert(s2[p] == s0[p]);
                    }
                }
            }
            self.heapify(0, n - 2);
        }
        r
    }

    /// Adds `item`.
    pub fn push(&mut self, item: i32)
        requires
            old(self).wf(),
            old(self).items().len() + 1 < usize::MAX / 2,
        ensures
            final(self).wf(),
            final(self).order() == old(self).order(),
            final(self).items() == old(self).items().insert(item),
    {
        let ghost s0 = self.que@;
        let ghost cmp = self.cmp;
        self.que.push(item);
        proof {
            assert(self.que@ =~= s0.push(item));
            assert(self.que@.to_multiset() == s0.to_multiset().insert(item));
        }
        let ghost s1 = self.que@;
        let n = self.que.len();
        let mut i: usize = n - 1;
        proof {
            assert forall|lt: spec_fn(i32, i32) -> bool| #[trigger] orders(cmp, lt) implies up_inv(
                lt,
                s1,
                n as int,
                (n - 1) as int,
            ) by {
                assert forall|p: int, c: int|
                    0 <= p && c != n - 1 && c <= n - 1 && (c == 2 * p + 1 || c == 2 * p + 2) implies !lt(
                    #[trigger] s1[c],
                    #[trigger] s1[p],
                ) by {
                    assert(s1[c] == s0[c]);
                    assert(s1[p] == s0[p]);
                }
            }
        }
        while i > 0
            invariant
                self.cmp == cmp,
                callable(cmp),
                self.que@.len() == n,
                1 <= n < usize::MAX / 2,
                i < n,
                forall|lt: spec_fn(i32, i32) -> bool|
                    #[trigger] orders(cmp, lt) ==> up_inv(lt, self.que@, n as int, i as int),
                self.que@.to_multiset() == s1.to_multiset(),
            ensures
                forall|lt: spec_fn(i32, i32) -> bool| #[trigger] orders(cmp, lt) ==> heap_ok(lt, self.que@, 0, n - 1),
                self.que@.len() == n,
                self.que@.to_multiset() == s1.to_multiset(),
            decreases i,
        {
            let p = (i - 1) / 2;
            let ghost q = self.que@;
            let up = (self.cmp)(&self.que[i], &self.que[p]);
            if up {
                self.swap(i, p);
                proof {
                    assert forall|lt: spec_fn(i32, i32) -> bool| #[trigger] orders(cmp, lt) implies up_inv(
                        lt,
                        self.que@,
                        n as int,
                        p as int,
                    ) by {
                        lemma_up_swap(lt, q, n as int, i as int);
                    }
                }
                i = p;
            } else {
                proof {
                    assert forall|lt: spec_fn(i32, i32) -> bool| #[trigger] orders(cmp, lt) implies heap_ok(
                        lt,
                        q,
                        0,
                        n - 1,
                    ) by {
                        lemma_up_stop(lt, q, n as int, i as int);
                    }
                }
                break;
            }
        }
        proof {
            if n == 1 {
                assert forall|lt: spec_fn(i32, i32) -> bool| #[trigger] orders(cmp, lt) implies heap_ok(
                    lt,
                    self.que@,
                    0,
                    n - 1,
                ) by {}
            }
        }
    }
}

} // verus!
