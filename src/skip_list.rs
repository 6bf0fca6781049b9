//! A sorted multiset of `i32` kept in a skip list: each distinct value is
//! one node of a [`SkipListMap`] whose value counts its copies.

use crate::skip_list_map::{SkipListError, SkipListMap};
use vstd::multiset::Multiset;
use vstd::prelude::*;

verus! {

broadcast use vstd::multiset::group_multiset_axioms;

/// Height cap used when none is given.
pub const DEFAULT_MAX_HEIGHT: usize = 32;

/// A skip list that keeps every inserted copy.
pub struct SkipList {
    map: SkipListMap<usize>,
    len: usize,
    items: Ghost<Multiset<i32>>,
}

impl View for SkipList {
    type V = Multiset<i32>;

    closed spec fn view(&self) -> Multiset<i32> {
        self.items@
    }
}

impl SkipList {
    /// The invariant.
    pub closed spec fn wf(&self) -> bool {
        &&& self.map.wf()
        &&& self.len == self.items@.len()
        &&& self.map.spec_len() <= self.len
        &&& forall|x: i32|
            #[trigger] self.items@.count(x) == if self.map@.contains_key(x) {
                self.map@[x] as nat
            } else {
                0
            }
        &&& forall|x: i32| #[trigger] self.map@.contains_key(x) ==> 1 <= self.map@[x] <= self.len
    }

    /// The level cap fixed at construction.
    pub closed spec fn max_height(&self) -> nat {
        self.map.spec_max_height()
    }

    /// Levels in use.
    pub closed spec fn spec_height(&self) -> nat {
        self.map.spec_height()
    }

    /// Number of levels in use; never above the cap.
    pub fn height(&self) -> (r: usize)
        requires
            self.wf(),
        ensures
            r == self.spec_height(),
            r <= self.max_height(),
    {
        proof {
            self.map.lemma_height_bounded();
        }
        self.map.height()
    }

    /// An empty list whose nodes reach at most `max_height` levels (32 when
    /// `None`).
    pub fn new(max_height: Option<usize>) -> (r: Result<Self, SkipListError>)
        ensures
            r is Err <==> max_height == Some(0usize),
            r matches Ok(l) ==> l.wf() && l@ == Multiset::<i32>::empty() && l.spec_height() == 0 && l.max_height()
                == match max_height {
                Some(h) => h,
                None => DEFAULT_MAX_HEIGHT,
            },
    {
        let h = match max_height {
            Some(h) => h,
            None => DEFAULT_MAX_HEIGHT,
        };
        match SkipListMap::new(h) {
            Ok(map) => {
                let l = SkipList { map, len: 0, items: Ghost(Multiset::empty()) };
                Ok(l)
            },
            Err(e) => Err(e),
        }
    }

    /// Whether `val` is held.
    pub fn contain(&self, val: i32) -> (r: bool)
        requires
            self.wf(),
        ensures
            r == self@.contains(val),
    {
        self.map.contain(val)
    }

    /// Adds one copy of `val`.
    pub fn insert(&mut self, val: i32)
        requires
            old(self).wf(),
            old(self)@.len() < usize::MAX,
        ensures
            final(self).wf(),
            final(self)@ == old(self)@.insert(val),
            final(self).max_height() == old(self).max_height(),
            old(self).spec_height() <= final(self).spec_height() <= final(self).max_height(),
    {
        let c: usize = match self.map.get_key(val) {
            Some(c) => *c,
            None => 0,
        };
        self.map.insert(val, c + 1);
        self.len = self.len + 1;
        self.items = Ghost(self.items@.insert(val));
        proof {
            assert forall|x: i32| #[trigger] self.map@.contains_key(x) implies 1 <= self.map@[x] <= self.len by {
                if x != val {
                    assert(old(self).map@.contains_key(x));
                }
            }
        }
    }

    /// Number of copies held.
    pub fn len(&self) -> (r: usize)
        requires
            self.wf(),
        ensures
            r == self@.len(),
    {
        self.len
    }

    /// The values in ascending order, each as many times as it is held.
    pub fn iter(&self) -> (r: Vec<i32>)
        requires
            self.wf(),
        ensures
            forall|i: int, j: int| 0 <= i <= j < r@.len() ==> r@[i] <= r@[j],
            r@.to_multiset() == self@,
    {
        broadcast use vstd::seq_lib::group_to_multiset_ensures;

        let entries = self.map.iter_key_val();
        proof {
            self.map.lemma_keys_ascending();
        }
        let ghost ks = self.map.keys();
        let mut out: Vec<i32> = Vec::new();
        let mut j: usize = 0;
        while j < entries.len()
            invariant
                self.wf(),
                ks == self.map.keys(),
                ks.len() == entries@.len(),
                forall|a: int, b: int| 0 <= a < b < ks.len() ==> ks[a] < ks[b],
                forall|k: i32| self.map@.contains_key(k) <==> ks.contains(k),
                forall|t: int|
                    0 <= t < entries@.len() ==> (#[trigger] entries@[t]).0 == ks[t] && *entries@[t].1 == self.map@[ks[t]],
                j <= entries@.len(),
                forall|a: int, b: int| 0 <= a <= b < out@.len() ==> out@[a] <= out@[b],
                j > 0 ==> forall|a: int| 0 <= a < out@.len() ==> out@[a] <= ks[j - 1],
                j == 0 ==> out@.len() == 0,
                forall|x: i32|
                    #[trigger] out@.to_multiset().count(x) == if exists|t: int| 0 <= t < j && ks[t] == x {
                        self@.count(x)
                    } else {
                        0
                    },
            decreases entries@.len() - j,
        {
            let (k, cref) = entries[j];
            let c: usize = *cref;
            proof {
                assert(entries@[j as int].0 == ks[j as int]);
                assert(ks.contains(k));
                assert(self.map@.contains_key(k));
            }
            let ghost base = out@;
            let mut m: usize = 0;
            while m < c
                invariant
                    m <= c,
                    j < ks.len(),
                    k == ks[j as int],
                    forall|a: int, b: int| 0 <= a < b < ks.len() ==> ks[a] < ks[b],
                    forall|a: int, b: int| 0 <= a <= b < base.len() ==> base[a] <= base[b],
                    j > 0 ==> forall|a: int| 0 <= a < base.len() ==> base[a] <= ks[j - 1],
                    j == 0 ==> base.len() == 0,
                    out@.len() == base.len() + m,
                    forall|a: int| 0 <= a < base.len() ==> out@[a] == base[a],
                    forall|a: int| base.len() <= a < out@.len() ==> out@[a] == k,
                    forall|x: i32| #[trigger] out@.to_multiset().count(x) == base.to_multiset().count(x) + if x == k {
                        m as nat
                    } else {
                        0
                    },
                decreases c - m,
            {
                let ghost before = out@;
                out.push(k);
                proof {
                    assert(out@ =~= before.push(k));
                    vstd::seq_lib::to_multiset_build(before, k);
                }
                m += 1;
            }
            proof {
                assert forall|a: int, b: int| 0 <= a <= b < out@.len() implies out@[a] <= out@[b] by {
                    if a < base.len() {
                        assert(out@[a] == base[a]);
                    } else {
                        assert(out@[a] == k);
                    }
                    if b < base.len() {
                        assert(out@[b] == base[b]);
                    } else {
                        assert(out@[b] == k);
                    }
                    if b >= base.len() && a < base.len() {
                        assert(j > 0);
                        assert(base[a] <= ks[j - 1]);
                        assert(ks[j - 1] < ks[j as int]);
                    }
                }
                assert forall|a: int| 0 <= a < out@.len() implies out@[a] <= ks[j as int] by {
                    if a < base.len() {
                        assert(out@[a] == base[a]);
                        assert(ks[j - 1] < ks[j as int]);
                    } else {
                        assert(out@[a] == k);
                    }
                }
                assert forall|x: i32| #[trigger] out@.to_multiset().count(x) == if exists|t: int| 0 <= t < j + 1 && ks[t] == x {
                    self@.count(x)
                } else {
                    0
                } by {
                    if x == k {
                        assert(!exists|t: int| 0 <= t < j && ks[t] == x) by {
                            if exists|t: int| 0 <= t < j && ks[t] == x {
                                let t = choose|t: int| 0 <= t < j && ks[t] == x;
                                assert(ks[t] < ks[j as int]);
                            }
                        }
                        assert(ks[j as int] == x);
                    } else {
                        if exists|t: int| 0 <= t < j + 1 && ks[t] == x {
                            let t = choose|t: int| 0 <= t < j + 1 && ks[t] == x;
                            assert(t < j);
                        }
                    }
                }
            }
            j += 1;
        }
        proof {
            assert forall|x: i32| #[trigger] out@.to_multiset().count(x) == self@.count(x) by {
                if !(exists|t: int| 0 <= t < j && ks[t] == x) {
                    if self.map@.contains_key(x) {
                        assert(ks.contains(x));
                        let t = choose|t: int| 0 <= t < ks.len() && ks[t] == x;
                        assert(0 <= t < j && ks[t] == x);
                    }
                }
            }
            assert(out@.to_multiset() =~= self@);
        }
        out
    }
}

} // verus!
