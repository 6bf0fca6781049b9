//! A segment tree with lazy range addition over positions `1..=n-1` of a
//! vector of `i64`: range sums and range additions in logarithmic time.
//! Nodes are linked by `Box`; a node's `lazy` is an addition still owed to
//! both of its children.

use vstd::prelude::*;

verus! {

/// Largest magnitude of a single value.
pub const BOUND: i64 = 0x4000_0000;

/// Largest number of positions.
pub const MAX_N: usize = 0x0100_0000;

/// A node over a range: the range's sum, the addition owed to the
/// children, and the two halves.
pub struct SegNode {
    pub sum: i64,
    pub lazy: i64,
    pub left: Option<Box<SegNode>>,
    pub right: Option<Box<SegNode>>,
}

pub open spec fn mid(cl: int, cr: int) -> int {
    cl + (cr - cl) / 2
}

/// Every entry of `s` plus `t`.
pub open spec fn add_all(s: Seq<int>, t: int) -> Seq<int> {
    Seq::new(s.len(), |i: int| s[i] + t)
}

/// Sum of all entries.
pub open spec fn total(s: Seq<int>) -> int
    decreases s.len(),
{
    if s.len() == 0 {
        0
    } else {
        total(s.drop_last()) + s.last()
    }
}

/// The values of positions `cl..=cr` as the subtree at `node` holds them.
pub open spec fn view(node: SegNode, cl: int, cr: int) -> Seq<int>
    decreases cr - cl,
{
    if cl >= cr {
        seq![node.sum as int]
    } else {
        match (node.left, node.right) {
            (Some(l), Some(r)) => add_all(view(*l, cl, mid(cl, cr)) + view(*r, mid(cl, cr) + 1, cr), node.lazy as int),
            _ => seq![node.sum as int],
        }
    }
}

/// The subtree over `cl..=cr` is complete, its sums are right, and every
/// value it holds is within `BOUND`.
pub open spec fn seg_ok(node: SegNode, cl: int, cr: int) -> bool
    decreases cr - cl,
{
    &&& cl <= cr
    &&& node.sum == total(view(node, cl, cr))
    &&& forall|i: int| 0 <= i < view(node, cl, cr).len() ==> -BOUND <= #[trigger] view(node, cl, cr)[i] <= BOUND
    &&& if cl == cr {
        true
    } else {
        match (node.left, node.right) {
            (Some(l), Some(r)) => seg_ok(*l, cl, mid(cl, cr)) && seg_ok(*r, mid(cl, cr) + 1, cr),
            _ => false,
        }
    }
}

pub proof fn lemma_total_add(a: Seq<int>, b: Seq<int>)
    ensures
        total(a + b) == total(a) + total(b),
    decreases b.len(),
{
    if b.len() > 0 {
        assert((a + b).drop_last() =~= a + b.drop_last());
        lemma_total_add(a, b.drop_last());
    } else {
        assert(a + b =~= a);
    }
}

pub proof fn lemma_total_shift(a: Seq<int>, c: int)
    ensures
        total(add_all(a, c)) == total(a) + c * a.len(),
    decreases a.len(),
{
    if a.len() > 0 {
        assert(add_all(a, c).drop_last() =~= add_all(a.drop_last(), c));
        lemma_total_shift(a.drop_last(), c);
        assert(c * a.len() == c * (a.len() - 1) + c) by (nonlinear_arith);
    }
}

pub proof fn lemma_total_bound(a: Seq<int>, k: int)
    requires
        k >= 0,
        forall|i: int| 0 <= i < a.len() ==> -k <= #[trigger] a[i] <= k,
    ensures
        -k * a.len() <= total(a) <= k * a.len(),
    decreases a.len(),
{
    if a.len() > 0 {
        lemma_total_bound(a.drop_last(), k);
        assert(k * a.len() == k * (a.len() - 1) + k) by (nonlinear_arith);
        assert(-k * a.len() == -k * (a.len() - 1) - k) by (nonlinear_arith);
    }
}

proof fn lemma_view_len(node: SegNode, cl: int, cr: int)
    requires
        seg_ok(node, cl, cr),
    ensures
        view(node, cl, cr).len() == cr - cl + 1,
    decreases cr - cl,
{
    if cl < cr {
        let l = *node.left.unwrap();
        let r = *node.right.unwrap();
        lemma_view_len(l, cl, mid(cl, cr));
        lemma_view_len(r, mid(cl, cr) + 1, cr);
    }
}

/// The sum of `s` over the positions of `cl..` that fall in `l..=r`.
pub open spec fn part(s: Seq<int>, cl: int, l: int, r: int) -> int {
    let lo = if l > cl {
        l
    } else {
        cl
    };
    let hi = if r < cl + s.len() - 1 {
        r
    } else {
        cl + s.len() - 1
    };
    if lo > hi {
        0
    } else {
        total(s.subrange(lo - cl, hi - cl + 1))
    }
}

/// `s` with `val` added at the positions of `cl..` that fall in `l..=r`.
pub open spec fn added(s: Seq<int>, cl: int, l: int, r: int, val: int) -> Seq<int> {
    Seq::new(s.len(), |i: int| s[i] + if l <= cl + i <= r { val } else { 0 })
}

proof fn lemma_part_split(a: Seq<int>, b: Seq<int>, cl: int, l: int, r: int)
    requires
        a.len() >= 1,
        b.len() >= 1,
        l <= r,
    ensures
        part(a + b, cl, l, r) == part(a, cl, l, r) + part(b, cl + a.len(), l, r),
{
    let s = a + b;
    let m = cl + a.len() - 1;
    let lo = if l > cl { l } else { cl };
    let hi = if r < cl + s.len() - 1 { r } else { cl + s.len() - 1 };
    if lo <= hi {
        if hi <= m {
            assert(s.subrange(lo - cl, hi - cl + 1) =~= a.subrange(lo - cl, hi - cl + 1));
        } else if lo > m {
            assert(s.subrange(lo - cl, hi - cl + 1) =~= b.subrange(lo - cl - a.len(), hi - cl + 1 - a.len()));
        } else {
            assert(s.subrange(lo - cl, hi - cl + 1) =~= a.subrange(lo - cl, a.len() as int) + b.subrange(0, hi - cl + 1 - a.len()));
            lemma_total_add(a.subrange(lo - cl, a.len() as int), b.subrange(0, hi - cl + 1 - a.len()));
        }
    }
}

proof fn lemma_part_bound(s: Seq<int>, cl: int, l: int, r: int)
    requires
        forall|i: int| 0 <= i < s.len() ==> -BOUND <= #[trigger] s[i] <= BOUND,
        s.len() <= MAX_N,
    ensures
        -BOUND * MAX_N <= part(s, cl, l, r) <= BOUND * MAX_N,
{
    let lo = if l > cl { l } else { cl };
    let hi = if r < cl + s.len() - 1 { r } else { cl + s.len() - 1 };
    if lo <= hi {
        let t = s.subrange(lo - cl, hi - cl + 1);
        lemma_total_bound(t, BOUND as int);
        assert(BOUND * t.len() <= BOUND * MAX_N) by (nonlinear_arith)
            requires
                t.len() <= MAX_N,
        ;
        assert(-BOUND * t.len() >= -BOUND * MAX_N) by (nonlinear_arith)
            requires
                t.len() <= MAX_N,
        ;
    }
}

proof fn lemma_whole(node: SegNode, cl: int, cr: int)
    requires
        seg_ok(node, cl, cr),
    ensures
        view(node, cl, cr).len() == cr - cl + 1,
        node.sum == total(view(node, cl, cr)),
        cl < cr ==> node.left is Some && node.right is Some,
        cl < cr ==> view(node, cl, cr) == add_all((view(*node.left.unwrap(), cl, mid(cl, cr)) + view(
            *node.right.unwrap(),
            mid(cl, cr) + 1,
            cr,
        )), node.lazy as int),
        cl < cr ==> seg_ok(*node.left.unwrap(), cl, mid(cl, cr)) && seg_ok(*node.right.unwrap(), mid(cl, cr) + 1, cr),
{
    lemma_view_len(node, cl, cr);
}

/// A node over `cl..=cr` after `t` is added to all of it.
pub open spec fn shifted(c: SegNode, cl: int, cr: int, t: int) -> SegNode {
    SegNode { sum: (c.sum + t * (cr - cl + 1)) as i64, lazy: if cl < cr { (c.lazy + t) as i64 } else { c.lazy }, ..c }
}

proof fn lemma_shifted(c: SegNode, cl: int, cr: int, t: int)
    requires
        seg_ok(c, cl, cr),
        forall|i: int| 0 <= i < cr - cl + 1 ==> -BOUND <= #[trigger] view(c, cl, cr)[i] + t <= BOUND,
        i64::MIN <= c.sum + t * (cr - cl + 1) <= i64::MAX,
        cl < cr ==> i64::MIN <= c.lazy + t <= i64::MAX,
    ensures
        seg_ok(shifted(c, cl, cr, t), cl, cr),
        view(shifted(c, cl, cr, t), cl, cr) == add_all(view(c, cl, cr), t),
{
    let c2 = shifted(c, cl, cr, t);
    lemma_whole(c, cl, cr);
    let v = view(c, cl, cr);
    if cl < cr {
        let lv = view(*c.left.unwrap(), cl, mid(cl, cr));
        let rv = view(*c.right.unwrap(), mid(cl, cr) + 1, cr);
        assert(view(c2, cl, cr) =~= add_all((lv + rv), c2.lazy as int));
        assert(c2.lazy == c.lazy + t);
        assert(v =~= add_all((lv + rv), c.lazy as int));
        assert forall|i: int| 0 <= i < v.len() implies #[trigger] view(c2, cl, cr)[i] == add_all(v, t)[i] by {
            assert(view(c2, cl, cr)[i] == (lv + rv)[i] + c2.lazy);
            assert(v[i] == (lv + rv)[i] + c.lazy);
        }
        assert(view(c2, cl, cr) =~= add_all(v, t));
    } else {
        assert(cr - cl + 1 == 1);
        assert(t * (cr - cl + 1) == t) by (nonlinear_arith)
            requires
                cr - cl + 1 == 1,
        ;
        assert(c2.sum == c.sum + t);
        assert(view(c2, cl, cr)[0] == c2.sum);
        assert(v[0] == c.sum);
        assert(view(c2, cl, cr) =~= add_all(v, t));
    }
    lemma_total_shift(v, t);
    assert(forall|i: int| 0 <= i < view(c2, cl, cr).len() ==> view(c2, cl, cr)[i] == v[i] + t);
}

proof fn lemma_lazy_bound(c: SegNode, cl: int, cr: int)
    requires
        seg_ok(c, cl, cr),
        cl < cr,
    ensures
        -2 * BOUND <= c.lazy <= 2 * BOUND,
{
    lemma_whole(c, cl, cr);
    let lv = view(*c.left.unwrap(), cl, mid(cl, cr));
    lemma_whole(*c.left.unwrap(), cl, mid(cl, cr));
    let v = view(c, cl, cr);
    assert(v[0] == lv[0] + c.lazy);
    assert(-BOUND <= v[0] <= BOUND);
    assert(-BOUND <= lv[0] <= BOUND);
}

proof fn lemma_sum_bound(c: SegNode, cl: int, cr: int)
    requires
        seg_ok(c, cl, cr),
        cr - cl + 1 <= MAX_N,
    ensures
        -BOUND * MAX_N <= c.sum <= BOUND * MAX_N,
{
    lemma_whole(c, cl, cr);
    let v = view(c, cl, cr);
    lemma_total_bound(v, BOUND as int);
    assert(BOUND * v.len() <= BOUND * MAX_N) by (nonlinear_arith)
        requires
            v.len() <= MAX_N,
    ;
    assert(-BOUND * v.len() >= -BOUND * MAX_N) by (nonlinear_arith)
        requires
            v.len() <= MAX_N,
    ;
}

/// Adds `t` to the whole range of a child node.
fn shift_child(c: &mut Box<SegNode>, cl: usize, cr: usize, t: i64)
    requires
        seg_ok(**old(c), cl as int, cr as int),
        cl <= cr,
        cr - cl + 1 <= MAX_N,
        -2 * BOUND <= t <= 2 * BOUND,
        forall|i: int| 0 <= i < cr - cl + 1 ==> -BOUND <= #[trigger] view(**old(c), cl as int, cr as int)[i] + t <= BOUND,
    ensures
        **final(c) == shifted(**old(c), cl as int, cr as int, t as int),
        seg_ok(**final(c), cl as int, cr as int),
        view(**final(c), cl as int, cr as int) == add_all(view(**old(c), cl as int, cr as int), t as int),
{
    proof {
        lemma_sum_bound(**c, cl as int, cr as int);
        assert(t * (cr - cl + 1) <= 2 * BOUND * MAX_N && t * (cr - cl + 1) >= -2 * BOUND * MAX_N) by (nonlinear_arith)
            requires
                -2 * BOUND <= t <= 2 * BOUND,
                0 < cr - cl + 1 <= MAX_N,
        ;
        if cl < cr {
            lemma_lazy_bound(**c, cl as int, cr as int);
        }
        lemma_shifted(**c, cl as int, cr as int, t as int);
    }
    let len = (cr - cl + 1) as i64;
    c.sum = c.sum + t * len;
    if cl < cr {
        c.lazy = c.lazy + t;
    }
}

/// Hands the owed addition of an inner node down to its children.
pub fn pushdown(node: &mut Box<SegNode>, l: usize, r: usize)
    requires
        seg_ok(**old(node), l as int, r as int),
        r - l + 1 <= MAX_N,
    ensures
        seg_ok(**final(node), l as int, r as int),
        view(**final(node), l as int, r as int) == view(**old(node), l as int, r as int),
        l < r ==> final(node).lazy == 0,
{
    proof {
        lemma_whole(**node, l as int, r as int);
    }
    if l == r || node.lazy == 0 {
        proof {
            if l < r {
                let lv = view(*node.left.unwrap(), l as int, mid(l as int, r as int));
                let rv = view(*node.right.unwrap(), mid(l as int, r as int) + 1, r as int);
                assert(add_all((lv + rv), node.lazy as int) =~= lv + rv);
            }
        }
        return ;
    }
    let ghost n0 = **node;
    let t = node.lazy;
    let m = l + (r - l) / 2;
    let ghost lv = view(*n0.left.unwrap(), l as int, m as int);
    let ghost rv = view(*n0.right.unwrap(), m + 1, r as int);
    let ghost v0 = view(n0, l as int, r as int);
    proof {
        lemma_whole(*n0.left.unwrap(), l as int, m as int);
        lemma_whole(*n0.right.unwrap(), m + 1, r as int);
        lemma_lazy_bound(n0, l as int, r as int);
        assert forall|i: int| 0 <= i < m - l + 1 implies -BOUND <= #[trigger] lv[i] + t <= BOUND by {
            assert(v0[i] == lv[i] + t);
        }
        assert forall|i: int| 0 <= i < r - m implies -BOUND <= #[trigger] rv[i] + t <= BOUND by {
            assert(v0[lv.len() + i] == rv[i] + t);
        }
    }
    let mut a = match node.left.take() {
        Some(a) => a,
        None => {
            return ;
        },
    };
    let mut b = match node.right.take() {
        Some(b) => b,
        None => {
            node.left = Some(a);
            return ;
        },
    };
    shift_child(&mut a, l, m, t);
    shift_child(&mut b, m + 1, r, t);
    node.left = Some(a);
    node.right = Some(b);
    node.lazy = 0;
    proof {
        let lv2 = view(*a, l as int, m as int);
        let rv2 = view(*b, m + 1, r as int);
        assert(view(**node, l as int, r as int) =~= add_all((lv2 + rv2), 0));
        assert(view(**node, l as int, r as int) =~= v0);
    }
}

proof fn lemma_total_one(x: int)
    ensures
        total(seq![x]) == x,
{
    assert(seq![x].drop_last() =~= Seq::<int>::empty());
    assert(total(Seq::<int>::empty()) == 0);
    assert(seq![x].last() == x);
}

/// An inner node with no owed addition, whose sum is its children's, is
/// sound when they are.
proof fn lemma_join(node: SegNode, cl: int, cr: int, target: Seq<int>)
    requires
        cl < cr,
        node.left is Some,
        node.right is Some,
        node.lazy == 0,
        seg_ok(*node.left.unwrap(), cl, mid(cl, cr)),
        seg_ok(*node.right.unwrap(), mid(cl, cr) + 1, cr),
        node.sum == node.left.unwrap().sum + node.right.unwrap().sum,
        view(*node.left.unwrap(), cl, mid(cl, cr)) + view(*node.right.unwrap(), mid(cl, cr) + 1, cr) == target,
        forall|i: int| 0 <= i < target.len() ==> -BOUND <= #[trigger] target[i] <= BOUND,
    ensures
        seg_ok(node, cl, cr),
        view(node, cl, cr) == target,
{
    let lv = view(*node.left.unwrap(), cl, mid(cl, cr));
    let rv = view(*node.right.unwrap(), mid(cl, cr) + 1, cr);
    lemma_whole(*node.left.unwrap(), cl, mid(cl, cr));
    lemma_whole(*node.right.unwrap(), mid(cl, cr) + 1, cr);
    assert(view(node, cl, cr) =~= add_all(lv + rv, 0));
    assert(view(node, cl, cr) =~= target);
    lemma_total_add(lv, rv);
}

/// Values `nums[l..=r]` as integers.
pub open spec fn slice_of(nums: Seq<i64>, l: int, r: int) -> Seq<int> {
    Seq::new((r - l + 1) as nat, |i: int| nums[l + i] as int)
}

/// Builds the subtree over positions `l..=r` of `nums`.
pub fn build(nums: &Vec<i64>, l: usize, r: usize) -> (node: Box<SegNode>)
    requires
        l <= r < nums@.len() <= MAX_N,
        forall|i: int| 0 <= i < nums@.len() ==> -BOUND <= #[trigger] nums@[i] <= BOUND,
    ensures
        seg_ok(*node, l as int, r as int),
        view(*node, l as int, r as int) == slice_of(nums@, l as int, r as int),
    decreases r - l,
{
    if l == r {
        let node = Box::new(SegNode { sum: nums[l], lazy: 0, left: None, right: None });
        proof {
            assert(view(*node, l as int, r as int) =~= slice_of(nums@, l as int, r as int));
            lemma_total_one(node.sum as int);
        }
        return node;
    }
    let m = l + (r - l) / 2;
    let a = build(nums, l, m);
    let b = build(nums, m + 1, r);
    proof {
        lemma_sum_bound(*a, l as int, m as int);
        lemma_sum_bound(*b, m + 1, r as int);
    }
    let node = Box::new(SegNode { sum: a.sum + b.sum, lazy: 0, left: Some(a), right: Some(b) });
    proof {
        let lv = view(*a, l as int, m as int);
        let rv = view(*b, m + 1, r as int);
        lemma_whole(*a, l as int, m as int);
        lemma_whole(*b, m + 1, r as int);
        assert(view(*node, l as int, r as int) =~= lv + rv);
        assert(lv + rv =~= slice_of(nums@, l as int, r as int));
        lemma_total_add(lv, rv);
        assert forall|i: int| 0 <= i < view(*node, l as int, r as int).len() implies -BOUND <= #[trigger] view(
            *node,
            l as int,
            r as int,
        )[i] <= BOUND by {
            assert(view(*node, l as int, r as int)[i] == nums@[l + i]);
        }
    }
    node
}

/// Sets an inner node's sum from its children's.
pub fn pushup(node: &mut Box<SegNode>)
    requires
        old(node).left is Some,
        old(node).right is Some,
        i64::MIN <= old(node).left.unwrap().sum + old(node).right.unwrap().sum <= i64::MAX,
    ensures
        final(node).sum == old(node).left.unwrap().sum + old(node).right.unwrap().sum,
        final(node).lazy == old(node).lazy,
        final(node).left == old(node).left,
        final(node).right == old(node).right,
{
    let ls = match &node.left {
        Some(a) => a.sum,
        None => 0,
    };
    let rs = match &node.right {
        Some(b) => b.sum,
        None => 0,
    };
    node.sum = ls + rs;
}

/// Sum of the values at positions `l..=r` within the subtree over `cl..=cr`.
pub fn range_query(node: &mut Box<SegNode>, l: usize, r: usize, cl: usize, cr: usize) -> (res: i64)
    requires
        seg_ok(**old(node), cl as int, cr as int),
        cr - cl + 1 <= MAX_N,
        l <= r,
        l <= cr,
        cl <= r,
    ensures
        seg_ok(**final(node), cl as int, cr as int),
        view(**final(node), cl as int, cr as int) == view(**old(node), cl as int, cr as int),
        res == part(view(**old(node), cl as int, cr as int), cl as int, l as int, r as int),
    decreases cr - cl,
{
    proof {
        lemma_whole(**node, cl as int, cr as int);
    }
    if l <= cl && cr <= r {
        proof {
            let v = view(**node, cl as int, cr as int);
            assert(v.subrange(0, v.len() as int) =~= v);
        }
        return node.sum;
    }
    let ghost v0 = view(**node, cl as int, cr as int);
    pushdown(node, cl, cr);
    let m = cl + (cr - cl) / 2;
    proof {
        lemma_whole(**node, cl as int, cr as int);
    }
    let mut a = match node.left.take() {
        Some(a) => a,
        None => {
            return 0;
        },
    };
    let mut b = match node.right.take() {
        Some(b) => b,
        None => {
            node.left = Some(a);
            return 0;
        },
    };
    let ghost lv = view(*a, cl as int, m as int);
    let ghost rv = view(*b, m + 1, cr as int);
    proof {
        lemma_whole(*a, cl as int, m as int);
        lemma_whole(*b, m + 1, cr as int);
        assert(v0 =~= lv + rv);
        lemma_part_split(lv, rv, cl as int, l as int, r as int);
        lemma_part_bound(lv, cl as int, l as int, r as int);
        lemma_part_bound(rv, m + 1, l as int, r as int);
    }
    let mut res: i64 = 0;
    if l <= m {
        res = range_query(&mut a, l, r, cl, m);
    }
    if m < r {
        let q = range_query(&mut b, l, r, m + 1, cr);
        res = res + q;
    }
    node.left = Some(a);
    node.right = Some(b);
    proof {
        assert(view(**node, cl as int, cr as int) =~= add_all(lv + rv, 0));
        assert(view(**node, cl as int, cr as int) =~= v0);
    }
    res
}

/// Adds `val` to the values at positions `l..=r` within the subtree over `cl..=cr`.
#[verifier::rlimit(100)]
pub fn range_add(node: &mut Box<SegNode>, l: usize, r: usize, cl: usize, cr: usize, val: i64)
    requires
        seg_ok(**old(node), cl as int, cr as int),
        cr - cl + 1 <= MAX_N,
        l <= r,
        l <= cr,
        cl <= r,
        -BOUND <= val <= BOUND,
        forall|i: int|
            0 <= i < cr - cl + 1 ==> -BOUND <= #[trigger] added(view(**old(node), cl as int, cr as int), cl as int, l as int, r as int, val as int)[i] <= BOUND,
    ensures
        seg_ok(**final(node), cl as int, cr as int),
        view(**final(node), cl as int, cr as int) == added(view(**old(node), cl as int, cr as int), cl as int, l as int, r as int, val as int),
    decreases cr - cl,
{
    let ghost v0 = view(**node, cl as int, cr as int);
    proof {
        lemma_whole(**node, cl as int, cr as int);
    }
    if l <= cl && cr <= r {
        proof {
            assert forall|i: int| 0 <= i < cr - cl + 1 implies -BOUND <= #[trigger] v0[i] + val <= BOUND by {
                assert(added(v0, cl as int, l as int, r as int, val as int)[i] == v0[i] + val);
            }
        }
        shift_child(node, cl, cr, val);
        proof {
            assert(add_all(v0, val as int) =~= added(v0, cl as int, l as int, r as int, val as int));
        }
        return ;
    }
    pushdown(node, cl, cr);
    let m = cl + (cr - cl) / 2;
    proof {
        lemma_whole(**node, cl as int, cr as int);
    }
    let mut a = match node.left.take() {
        Some(a) => a,
        None => {
            return ;
        },
    };
    let mut b = match node.right.take() {
        Some(b) => b,
        None => {
            node.left = Some(a);
            return ;
        },
    };
    let ghost lv = view(*a, cl as int, m as int);
    let ghost rv = view(*b, m + 1, cr as int);
    proof {
        lemma_whole(*a, cl as int, m as int);
        lemma_whole(*b, m + 1, cr as int);
        assert(v0 =~= lv + rv);
        assert forall|i: int| 0 <= i < m - cl + 1 implies -BOUND <= #[trigger] added(lv, cl as int, l as int, r as int, val as int)[i] <= BOUND by {
            assert(added(v0, cl as int, l as int, r as int, val as int)[i] == added(lv, cl as int, l as int, r as int, val as int)[i]);
        }
        assert forall|i: int| 0 <= i < cr - m implies -BOUND <= #[trigger] added(rv, m + 1, l as int, r as int, val as int)[i] <= BOUND by {
            assert(added(v0, cl as int, l as int, r as int, val as int)[lv.len() + i] == added(rv, m + 1, l as int, r as int, val as int)[i]);
        }
    }
    if l <= m {
        range_add(&mut a, l, r, cl, m, val);
    } else {
        proof {
            assert(added(lv, cl as int, l as int, r as int, val as int) =~= lv);
        }
    }
    if m < r {
        range_add(&mut b, l, r, m + 1, cr, val);
    } else {
        proof {
            assert(added(rv, m + 1, l as int, r as int, val as int) =~= rv);
        }
    }
    proof {
        lemma_sum_bound(*a, cl as int, m as int);
        lemma_sum_bound(*b, m + 1, cr as int);
    }
    let ghost la = *a;
    let ghost lb = *b;
    node.left = Some(a);
    node.right = Some(b);
    pushup(node);
    proof {
        let target = added(v0, cl as int, l as int, r as int, val as int);
        assert(view(la, cl as int, m as int) + view(lb, m + 1, cr as int) =~= target);
        lemma_join(**node, cl as int, cr as int, target);
    }
}

/// A lazy segment tree over positions `1..n` of the values it was built from.
pub struct SegTree {
    n: usize,
    root: Box<SegNode>,
}

impl SegTree {
    /// The values at positions `1..n`; entry `i` is position `i + 1`.
    pub closed spec fn values(&self) -> Seq<int> {
        view(*self.root, 1, self.n - 1)
    }

    /// The invariant.
    pub closed spec fn wf(&self) -> bool {
        &&& 2 <= self.n <= MAX_N
        &&& seg_ok(*self.root, 1, self.n - 1)
    }

    /// A tree over positions `1..nums.len()` of `nums`.
    pub fn new(nums: &Vec<i64>) -> (r: Self)
        requires
            2 <= nums@.len() <= MAX_N,
            forall|i: int| 0 <= i < nums@.len() ==> -BOUND <= #[trigger] nums@[i] <= BOUND,
        ensures
            r.wf(),
            r.values() == Seq::new((nums@.len() - 1) as nat, |i: int| nums@[i + 1] as int),
    {
        let n = nums.len();
        let root = build(nums, 1, n - 1);
        let r = SegTree { n, root };
        proof {
            assert(r.values() =~= Seq::new((nums@.len() - 1) as nat, |i: int| nums@[i + 1] as int));
        }
        r
    }

    /// Sum of the values at positions `l..=r`.
    pub fn query(&mut self, l: usize, r: usize) -> (res: i64)
        requires
            old(self).wf(),
            1 <= l <= r,
            r < old(self).values().len() + 1,
        ensures
            final(self).wf(),
            final(self).values() == old(self).values(),
            res == total(old(self).values().subrange(l - 1, r as int)),
    {
        proof {
            lemma_whole(*self.root, 1, self.n - 1);
        }
        let n = self.n;
        range_query(&mut self.root, l, r, 1, n - 1)
    }

    /// Adds `val` to the values at positions `l..=r`.
    pub fn add(&mut self, l: usize, r: usize, val: i64)
        requires
            old(self).wf(),
            1 <= l <= r,
            r < old(self).values().len() + 1,
            -BOUND <= val <= BOUND,
            forall|i: int|
                0 <= i < old(self).values().len() && l <= i + 1 <= r ==> -BOUND <= #[trigger] old(self).values()[i] + val
                    <= BOUND,
        ensures
            final(self).wf(),
            final(self).values() == added(old(self).values(), 1, l as int, r as int, val as int),
    {
        proof {
            lemma_whole(*self.root, 1, self.n - 1);
            let v = self.values();
            assert forall|i: int| 0 <= i < self.n - 1 implies -BOUND <= #[trigger] added(v, 1, l as int, r as int, val as int)[i] <= BOUND by {
                if !(l <= i + 1 <= r) {
                    assert(-BOUND <= v[i] <= BOUND);
                }
            }
        }
        let n = self.n;
        range_add(&mut self.root, l, r, 1, n - 1, val)
    }
}

} // verus!
