//! In-place sorting and selection on `i32` vectors, with the facts about
//! permutations that they share.

pub mod heapsort;
pub mod quicksort;
pub mod topk;

use vstd::prelude::*;

verus! {

/// `s` is non-decreasing on positions `lo..hi`.
pub open spec fn sorted_between(s: Seq<i32>, lo: int, hi: int) -> bool {
    forall|i: int, j: int| lo <= i <= j < hi ==> s[i] <= s[j]
}

/// `new` has the length of `old` and agrees with it outside `lo..hi`.
pub open spec fn kept_outside(new: Seq<i32>, old: Seq<i32>, lo: int, hi: int) -> bool {
    &&& new.len() == old.len()
    &&& forall|k: int| 0 <= k < new.len() && !(lo <= k < hi) ==> #[trigger] new[k] == old[k]
}

/// Every entry of `new` in `lo..hi` is an entry of `old` in `lo..hi`.
pub open spec fn drawn_from(new: Seq<i32>, old: Seq<i32>, lo: int, hi: int) -> bool {
    forall|k: int| lo <= k < hi ==> old.subrange(lo, hi).contains(#[trigger] new[k])
}

/// Exchanges the entries at `i` and `j`.
pub fn swap(v: &mut Vec<i32>, i: usize, j: usize)
    requires
        i < old(v)@.len(),
        j < old(v)@.len(),
    ensures
        final(v)@ == old(v)@.update(i as int, old(v)@[j as int]).update(j as int, old(v)@[i as int]),
        final(v)@.to_multiset() == old(v)@.to_multiset(),
{
    let a = v[i];
    let b = v[j];
    v.set(i, b);
    v.set(j, a);
    proof {
        lemma_swap_multiset(old(v)@, i as int, j as int);
    }
}

/// Exchanging two entries keeps the multiset of a sequence.
pub proof fn lemma_swap_multiset(s: Seq<i32>, i: int, j: int)
    requires
        0 <= i < s.len(),
        0 <= j < s.len(),
    ensures
        s.update(i, s[j]).update(j, s[i]).to_multiset() == s.to_multiset(),
{
    broadcast use vstd::seq_lib::to_multiset_update, vstd::multiset::group_multiset_properties;

    let t = s.update(i, s[j]);
    assert(t.to_multiset() == s.to_multiset().insert(s[j]).remove(s[i]));
    assert(t.update(j, s[i]).to_multiset() == t.to_multiset().insert(s[i]).remove(t[j]));
    if i == j {
        assert(t.update(j, s[i]) =~= s);
    } else {
        broadcast use vstd::multiset::group_multiset_axioms, vstd::seq_lib::to_multiset_contains;

        assert(t[j] == s[j]);
        assert(s.contains(s[i]));
        assert(s.contains(s[j]));
        let m = s.to_multiset();
        assert(m.count(s[i]) > 0);
        assert(m.count(s[j]) > 0);
        assert(m.insert(s[j]).remove(s[i]).insert(s[i]).remove(s[j]) =~= m);
    }
}

/// A swap inside `lo..hi` keeps the rest and draws from the range.
pub proof fn lemma_swap_in_range(s: Seq<i32>, i: int, j: int, lo: int, hi: int)
    requires
        0 <= lo <= i < hi <= s.len(),
        lo <= j < hi,
    ensures
        kept_outside(s.update(i, s[j]).update(j, s[i]), s, lo, hi),
        drawn_from(s.update(i, s[j]).update(j, s[i]), s, lo, hi),
{
    let t = s.update(i, s[j]).update(j, s[i]);
    assert forall|k: int| lo <= k < hi implies s.subrange(lo, hi).contains(#[trigger] t[k]) by {
        if k == j {
            assert(s.subrange(lo, hi)[i - lo] == t[k]);
        } else if k == i {
            assert(s.subrange(lo, hi)[j - lo] == t[k]);
        } else {
            assert(s.subrange(lo, hi)[k - lo] == t[k]);
        }
    }
}

/// A sequence is drawn from itself.
pub proof fn lemma_same(a: Seq<i32>, lo: int, hi: int)
    requires
        0 <= lo <= hi <= a.len(),
    ensures
        kept_outside(a, a, lo, hi),
        drawn_from(a, a, lo, hi),
{
    assert forall|k: int| lo <= k < hi implies a.subrange(lo, hi).contains(#[trigger] a[k]) by {
        assert(a.subrange(lo, hi)[k - lo] == a[k]);
    }
}

/// Both facts compose along a chain of states.
pub proof fn lemma_chain(a: Seq<i32>, b: Seq<i32>, c: Seq<i32>, lo: int, hi: int)
    requires
        0 <= lo <= hi <= a.len(),
        kept_outside(b, a, lo, hi),
        drawn_from(b, a, lo, hi),
        kept_outside(c, b, lo, hi),
        drawn_from(c, b, lo, hi),
    ensures
        kept_outside(c, a, lo, hi),
        drawn_from(c, a, lo, hi),
{
    assert forall|k: int| lo <= k < hi implies a.subrange(lo, hi).contains(#[trigger] c[k]) by {
        assert(b.subrange(lo, hi).contains(c[k]));
        let j = choose|j: int| 0 <= j < hi - lo && b.subrange(lo, hi)[j] == c[k];
        assert(b[lo + j] == c[k]);
        assert(a.subrange(lo, hi).contains(b[lo + j]));
    }
}

/// Facts about a sub-range carry over to an enclosing range.
pub proof fn lemma_widen(a: Seq<i32>, b: Seq<i32>, lo: int, hi: int, lo2: int, hi2: int)
    requires
        0 <= lo2 <= lo <= hi <= hi2 <= a.len(),
        kept_outside(b, a, lo, hi),
        drawn_from(b, a, lo, hi),
    ensures
        kept_outside(b, a, lo2, hi2),
        drawn_from(b, a, lo2, hi2),
{
    assert forall|k: int| lo2 <= k < hi2 implies a.subrange(lo2, hi2).contains(#[trigger] b[k]) by {
        if lo <= k < hi {
            assert(a.subrange(lo, hi).contains(b[k]));
            let j = choose|j: int| 0 <= j < hi - lo && a.subrange(lo, hi)[j] == b[k];
            assert(a.subrange(lo2, hi2)[lo + j - lo2] == b[k]);
        } else {
            assert(a.subrange(lo2, hi2)[k - lo2] == b[k]);
        }
    }
}

/// An entry drawn from a range where all entries lie in `[low, high]` lies there too.
pub proof fn lemma_drawn_bounds(new: Seq<i32>, old: Seq<i32>, lo: int, hi: int, k: int, low: int, high: int)
    requires
        0 <= lo <= k < hi <= old.len(),
        drawn_from(new, old, lo, hi),
        forall|j: int| lo <= j < hi ==> low <= #[trigger] old[j] <= high,
    ensures
        low <= new[k] <= high,
{
    assert(old.subrange(lo, hi).contains(new[k]));
    let j = choose|j: int| 0 <= j < hi - lo && old.subrange(lo, hi)[j] == new[k];
    assert(old[lo + j] == new[k]);
}

} // verus!
