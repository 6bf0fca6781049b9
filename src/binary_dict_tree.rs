//! A binary trie over the 32 bits of `i32` values, most significant bit
//! first, answering which stored value gives the largest exclusive-or with
//! a query (comparing bit patterns as unsigned numbers).

use vstd::prelude::*;

verus! {

/// The top `d` bits of `x`, as a number below `2^d`.
pub open spec fn top(x: u32, d: u32) -> u32 {
    x >> ((32 - d) as u32)
}

/// Bit `d` of `x`, counting from the most significant.
pub open spec fn bit(x: u32, d: u32) -> u32 {
    (x >> ((31 - d) as u32)) & 1
}

proof fn lemma_top_step(x: u32, d: u32)
    requires
        d < 32,
    ensures
        top(x, (d + 1) as u32) == (top(x, d) << 1u32) | bit(x, d),
        top(x, d) < 0x8000_0000,
        bit(x, d) <= 1,
{
    assert(d < 32 ==> (x >> ((32 - ((d + 1) as u32)) as u32)) == ((x >> ((32 - d) as u32)) << 1u32) | ((x >> ((31
        - d) as u32)) & 1) && (x >> ((32 - d) as u32)) < 0x8000_0000) by (bit_vector);
    assert(((x >> ((31 - d) as u32)) & 1) <= 1) by (bit_vector);
}

proof fn lemma_top_xor(x: u32, y: u32, d: u32)
    requires
        d <= 32,
    ensures
        top(x ^ y, d) == top(x, d) ^ top(y, d),
        d < 32 ==> bit(x ^ y, d) == bit(x, d) ^ bit(y, d),
{
    assert(d <= 32 ==> ((x ^ y) >> ((32 - d) as u32)) == (x >> ((32 - d) as u32)) ^ (y >> ((32 - d) as u32)))
        by (bit_vector);
    assert((((x ^ y) >> ((31 - d) as u32)) & 1) == ((x >> ((31 - d) as u32)) & 1) ^ ((y >> ((31 - d) as u32)) & 1))
        by (bit_vector);
}

proof fn lemma_top_ends(x: u32)
    ensures
        top(x, 32) == x,
        top(x, 0) == 0,
{
    assert((x >> ((32 - 32u32) as u32)) == x) by (bit_vector);
    assert((x >> ((32 - 0u32) as u32)) == 0) by (bit_vector);
}

proof fn lemma_shift_le(a: u32, r: u32, c: u32)
    requires
        a <= r,
        r < 0x8000_0000,
        c <= 1,
    ensures
        (a << 1u32) | c <= (r << 1u32) | 1,
        a < r ==> (a << 1u32) | c <= (r << 1u32),
{
    assert(a <= r && r < 0x8000_0000 && c <= 1 ==> (a << 1u32) | c <= (r << 1u32) | 1) by (bit_vector);
    assert(a < r && r < 0x8000_0000 && c <= 1 ==> (a << 1u32) | c <= (r << 1u32)) by (bit_vector);
}

proof fn lemma_shift_xor(t: u32, p: u32, b: u32)
    requires
        b <= 1,
    ensures
        ((t << 1u32) | b) ^ ((p << 1u32) | ((1 - b) as u32)) == ((t ^ p) << 1u32) | 1,
        ((t << 1u32) | b) ^ ((p << 1u32) | b) == (t ^ p) << 1u32,
{
    assert(b <= 1 ==> ((t << 1u32) | b) ^ ((p << 1u32) | ((1 - b) as u32)) == ((t ^ p) << 1u32) | 1) by (bit_vector);
    assert(b <= 1 ==> ((t << 1u32) | b) ^ ((p << 1u32) | b) == (t ^ p) << 1u32) by (bit_vector);
}

proof fn lemma_shift_inj(t1: u32, b1: u32, t2: u32, b2: u32)
    requires
        t1 < 0x8000_0000,
        t2 < 0x8000_0000,
        b1 <= 1,
        b2 <= 1,
        (t1 << 1u32) | b1 == (t2 << 1u32) | b2,
    ensures
        t1 == t2,
        b1 == b2,
{
    assert(t1 < 0x8000_0000 && t2 < 0x8000_0000 && b1 <= 1 && b2 <= 1 && (t1 << 1u32) | b1 == (t2 << 1u32) | b2 ==> t1
        == t2 && b1 == b2) by (bit_vector);
}

proof fn lemma_xor_small(a: u32, b: u32)
    requires
        a < 0x8000_0000,
        b < 0x8000_0000,
    ensures
        a ^ b < 0x8000_0000,
{
    assert(a < 0x8000_0000 && b < 0x8000_0000 ==> a ^ b < 0x8000_0000) by (bit_vector);
}

proof fn lemma_xor_cancel(a: u32, b: u32, c: u32)
    requires
        a ^ b == a ^ c,
    ensures
        b == c,
{
    assert(a ^ b == a ^ c ==> b == c) by (bit_vector);
}

/// The trie: node `h` has children `tree[h].0` (bit 0) and `tree[h].1`
/// (bit 1), where `0` means none; node `0` is the root.
pub struct DicTree {
    tree: Vec<(usize, usize)>,
    idx: usize,
    set: Ghost<Set<u32>>,
    dep: Ghost<Seq<u32>>,
    pre: Ghost<Seq<u32>>,
}

impl DicTree {
    spec fn child(&self, h: int, b: u32) -> usize {
        if b == 0 {
            self.tree@[h].0
        } else {
            self.tree@[h].1
        }
    }

    /// The stored values, as bit patterns.
    pub closed spec fn values(&self) -> Set<u32> {
        self.set@
    }

    /// Number of trie nodes.
    pub closed spec fn nodes(&self) -> nat {
        self.tree@.len()
    }

    /// Depths and prefixes agree with the links, every node but the root
    /// has a parent, and no two nodes share a depth and prefix.
    spec fn shape(&self) -> bool {
        let n = self.tree@.len();
        let dep = self.dep@;
        let pre = self.pre@;
        &&& n >= 1
        &&& self.idx == n - 1
        &&& dep.len() == n
        &&& pre.len() == n
        &&& dep[0] == 0
        &&& pre[0] == 0
        &&& forall|h: int| 0 <= h < n ==> #[trigger] dep[h] <= 32
        &&& forall|h: int, b: u32|
            0 <= h < n && b <= 1 && #[trigger] self.child(h, b) != 0 ==> {
                &&& (self.child(h, b) as int) < n
                &&& dep[h] < 32
                &&& dep[self.child(h, b) as int] == dep[h] + 1
                &&& pre[self.child(h, b) as int] == (pre[h] << 1u32) | b
            }
        &&& forall|c: int|
            #![trigger self.dep@[c]]
            1 <= c < n && self.dep@[c] <= 32 ==> exists|h: int, b: u32|
                #![trigger self.child(h, b)]
                0 <= h < n && b <= 1 && self.child(h, b) == c
        &&& forall|h1: int, h2: int|
            0 <= h1 < n && 0 <= h2 < n && h1 != h2 ==> #[trigger] dep[h1] != #[trigger] dep[h2] || pre[h1] != pre[h2]
    }

    /// Every node but the root lies on the path of a value of `s`.
    spec fn sound(&self, s: Set<u32>) -> bool {
        forall|h: int|
            #![trigger self.dep@[h]]
            1 <= h < self.tree@.len() && self.dep@[h] <= 32 ==> exists|x: u32|
                s.contains(x) && top(x, self.dep@[h]) == self.pre@[h]
    }

    /// Every value of `s` has its whole path.
    spec fn complete(&self, s: Set<u32>) -> bool {
        forall|x: u32, h: int|
            #![trigger top(x, self.dep@[h])]
            s.contains(x) && 0 <= h < self.tree@.len() && self.dep@[h] < 32 && self.pre@[h] == top(x, self.dep@[h])
                ==> self.child(h, bit(x, self.dep@[h])) != 0
    }

    /// The path of `u` exists above depth `d`.
    spec fn partial(&self, u: u32, d: u32) -> bool {
        forall|h: int|
            #![trigger top(u, self.dep@[h])]
            0 <= h < self.tree@.len() && self.dep@[h] < d && self.pre@[h] == top(u, self.dep@[h]) ==> self.child(
                h,
                bit(u, self.dep@[h]),
            ) != 0
    }

    /// The invariant.
    pub closed spec fn wf(&self) -> bool {
        &&& self.shape()
        &&& self.sound(self.set@)
        &&& self.complete(self.set@)
    }

    /// The state while `u` is being added: the path is built down to node
    /// `h` at depth `d`.
    spec fn building(&self, s0: Set<u32>, u: u32, d: u32, h: int) -> bool {
        &&& self.shape()
        &&& self.set@ == s0
        &&& self.sound(s0.insert(u))
        &&& self.complete(s0)
        &&& self.partial(u, d)
        &&& 0 <= h < self.tree@.len()
        &&& d <= 32
        &&& self.dep@[h] == d
        &&& self.pre@[h] == top(u, d)
    }

}

impl DicTree {
    proof fn lemma_start(&self, u: u32)
        requires
            self.wf(),
        ensures
            self.building(self.set@, u, 0, 0),
    {
        lemma_top_ends(u);
        assert forall|h: int|
            #![trigger self.dep@[h]]
            1 <= h < self.tree@.len() && self.dep@[h] <= 32 implies exists|x: u32|
                self.set@.insert(u).contains(x) && top(x, self.dep@[h]) == self.pre@[h] by {
            let x = choose|x: u32| self.set@.contains(x) && top(x, self.dep@[h]) == self.pre@[h];
            assert(self.set@.insert(u).contains(x));
        }
    }

    proof fn lemma_follow(&self, s0: Set<u32>, u: u32, d: u32, h: int)
        requires
            self.building(s0, u, d, h),
            d < 32,
            self.child(h, bit(u, d)) != 0,
        ensures
            self.building(s0, u, (d + 1) as u32, self.child(h, bit(u, d)) as int),
    {
        lemma_top_step(u, d);
        let c = self.child(h, bit(u, d)) as int;
        assert forall|g: int|
            0 <= g < self.tree@.len() && self.dep@[g] < d + 1 && self.pre@[g] == top(u, self.dep@[g]) implies self.child(
            g,
            bit(u, self.dep@[g]),
        ) != 0 by {
            if self.dep@[g] == d && g != h {
                assert(self.dep@[g] != self.dep@[h] || self.pre@[g] != self.pre@[h]);
            }
            if self.dep@[g] < d {
                assert(self.pre@[g] == top(u, self.dep@[g]));
            }
        }
    }

    #[verifier::rlimit(100)]
    proof fn lemma_grow(pre: Self, post: Self, s0: Set<u32>, u: u32, d: u32, h: int)
        requires
            pre.building(s0, u, d, h),
            d < 32,
            pre.child(h, bit(u, d)) == 0,
            post.tree@ == pre.tree@.push((0usize, 0usize)).update(
                h,
                if bit(u, d) == 0 {
                    (pre.tree@.len() as usize, pre.tree@[h].1)
                } else {
                    (pre.tree@[h].0, pre.tree@.len() as usize)
                },
            ),
            post.idx == pre.idx + 1,
            post.dep@ == pre.dep@.push((d + 1) as u32),
            post.pre@ == pre.pre@.push(top(u, (d + 1) as u32)),
            post.set@ == s0,
        ensures
            post.building(s0, u, (d + 1) as u32, pre.tree@.len() as int),
    {
        let n = pre.tree@.len() as int;
        let b = bit(u, d);
        lemma_top_step(u, d);
        pre.lemma_pre_small_in(s0.insert(u), h);
        assert forall|g: int, b2: u32| 0 <= g < n + 1 && b2 <= 1 implies #[trigger] post.child(g, b2) == if g == h && b2
            == b {
            n as usize
        } else if g == n {
            0usize
        } else {
            pre.child(g, b2)
        } by {}
        assert forall|g: int| 0 <= g < n implies post.dep@[g] == pre.dep@[g] && post.pre@[g] == pre.pre@[g] by {}
        // shape
        assert forall|g: int, b2: u32| 0 <= g < n + 1 && b2 <= 1 && #[trigger] post.child(g, b2) != 0 implies {
            &&& (post.child(g, b2) as int) < n + 1
            &&& post.dep@[g] < 32
            &&& post.dep@[post.child(g, b2) as int] == post.dep@[g] + 1
            &&& post.pre@[post.child(g, b2) as int] == (post.pre@[g] << 1u32) | b2
        } by {
            if g == h && b2 == b {
            } else if g < n {
                assert(pre.child(g, b2) != 0);
            }
        }
        assert forall|c: int| #![trigger post.dep@[c]] 1 <= c < n + 1 && post.dep@[c] <= 32 implies exists|g: int, b2: u32|
            #![trigger post.child(g, b2)]
            0 <= g < n + 1 && b2 <= 1 && post.child(g, b2) == c by {
            if c == n {
                assert(post.child(h, b) == c);
            } else {
                assert(pre.dep@[c] <= 32);
                let (g, b2) = choose|g: int, b2: u32| 0 <= g < n && b2 <= 1 && pre.child(g, b2) == c;
                assert(post.child(g, b2) == c);
            }
        }
        assert forall|h1: int, h2: int|
            0 <= h1 < n + 1 && 0 <= h2 < n + 1 && h1 != h2 implies #[trigger] post.dep@[h1] != #[trigger] post.dep@[h2]
            || post.pre@[h1] != post.pre@[h2] by {
            if h1 == n || h2 == n {
                let o = if h1 == n {
                    h2
                } else {
                    h1
                };
                if post.dep@[o] == d + 1 && post.pre@[o] == top(u, (d + 1) as u32) {
                    assert(o >= 1);
                    assert(pre.dep@[o] <= 32);
                    let (g, b2) = choose|g: int, b2: u32| 0 <= g < n && b2 <= 1 && pre.child(g, b2) == o;
                    pre.lemma_pre_small_in(s0.insert(u), g);
                    lemma_shift_inj(pre.pre@[g], b2, pre.pre@[h], b);
                    if g != h {
                        assert(pre.dep@[g] != pre.dep@[h] || pre.pre@[g] != pre.pre@[h]);
                    }
                }
            } else {
                assert(pre.dep@[h1] != pre.dep@[h2] || pre.pre@[h1] != pre.pre@[h2]);
            }
        }
        assert forall|g: int| 0 <= g < n + 1 implies #[trigger] post.dep@[g] <= 32 by {
            if g < n {
                assert(pre.dep@[g] <= 32);
            }
        }
        assert(post.shape());
        // soundness
        assert forall|g: int|
            #![trigger post.dep@[g]]
            1 <= g < n + 1 && post.dep@[g] <= 32 implies exists|x: u32|
                s0.insert(u).contains(x) && top(x, post.dep@[g]) == post.pre@[g] by {
            if g == n {
                assert(s0.insert(u).contains(u));
            } else {
                assert(pre.dep@[g] == post.dep@[g]);
                assert(pre.dep@[g] <= 32);
                let x = choose|x: u32| s0.insert(u).contains(x) && top(x, pre.dep@[g]) == pre.pre@[g];
            }
        }
        // completeness of the old values
        assert forall|x: u32, g: int|
            #![trigger top(x, post.dep@[g])]
            s0.contains(x) && 0 <= g < n + 1 && post.dep@[g] < 32 && post.pre@[g] == top(x, post.dep@[g]) implies post.child(
            g,
            bit(x, post.dep@[g]),
        ) != 0 by {
            if g == n {
                lemma_top_step(x, d);
                lemma_shift_inj(top(x, d), bit(x, d), top(u, d), b);
                assert(pre.pre@[h] == top(x, pre.dep@[h]));
            } else {
                assert(pre.pre@[g] == top(x, pre.dep@[g]));
                lemma_top_step(x, pre.dep@[g]);
            }
        }
        // the path of `u`
        assert forall|g: int|
            #![trigger top(u, post.dep@[g])]
            0 <= g < n + 1 && post.dep@[g] < d + 1 && post.pre@[g] == top(u, post.dep@[g]) implies post.child(
            g,
            bit(u, post.dep@[g]),
        ) != 0 by {
            if g < n {
                if pre.dep@[g] == d && g != h {
                    assert(pre.dep@[g] != pre.dep@[h] || pre.pre@[g] != pre.pre@[h]);
                }
                if pre.dep@[g] < d {
                    assert(pre.pre@[g] == top(u, pre.dep@[g]));
                }
            }
        }
    }

    /// Below depth 32 the prefix of a node on some path is under `2^31`.
    proof fn lemma_pre_small_in(&self, s: Set<u32>, h: int)
        requires
            self.shape(),
            self.sound(s),
            0 <= h < self.tree@.len(),
        ensures
            self.dep@[h] < 32 ==> self.pre@[h] < 0x8000_0000,
    {
        if h >= 1 && self.dep@[h] < 32 {
            assert(self.dep@[h] <= 32);
            let x = choose|x: u32| s.contains(x) && top(x, self.dep@[h]) == self.pre@[h];
            lemma_top_step(x, self.dep@[h]);
        }
    }
}

proof fn lemma_cast_round(x: u32)
    ensures
        ((x as i32) as u32) == x,
{
    assert(((x as i32) as u32) == x) by (bit_vector);
}

proof fn lemma_or_zero(x: u32)
    ensures
        x | 0u32 == x,
{
    assert(x | 0u32 == x) by (bit_vector);
}

impl DicTree {
    proof fn lemma_finish(pre: Self, post: Self, s0: Set<u32>, u: u32, h: int)
        requires
            pre.building(s0, u, 32, h),
            post.tree == pre.tree,
            post.idx == pre.idx,
            post.dep == pre.dep,
            post.pre == pre.pre,
            post.set@ == s0.insert(u),
        ensures
            post.wf(),
    {
        assert forall|x: u32, g: int|
            #![trigger top(x, post.dep@[g])]
            post.set@.contains(x) && 0 <= g < post.tree@.len() && post.dep@[g] < 32 && post.pre@[g] == top(x, post.dep@[g])
                implies post.child(g, bit(x, post.dep@[g])) != 0 by {
            if x == u {
                assert(pre.pre@[g] == top(u, pre.dep@[g]));
            } else {
                assert(pre.pre@[g] == top(x, pre.dep@[g]));
            }
        }
        assert forall|g: int, b: u32| 0 <= g < post.tree@.len() && b <= 1 implies #[trigger] post.child(g, b) == pre.child(g, b) by {}
        assert(post.shape()) by {
            assert forall|c: int|
                #![trigger post.dep@[c]]
                1 <= c < post.tree@.len() && post.dep@[c] <= 32 implies exists|g: int, b: u32|
                    #![trigger post.child(g, b)]
                    0 <= g < post.tree@.len() && b <= 1 && post.child(g, b) == c by {
                assert(pre.dep@[c] <= 32);
                let (g, b) = choose|g: int, b: u32| 0 <= g < pre.tree@.len() && b <= 1 && pre.child(g, b) == c;
                assert(post.child(g, b) == c);
            }
        }
        assert(post.sound(post.set@)) by {
            assert forall|g: int|
                #![trigger post.dep@[g]]
                1 <= g < post.tree@.len() && post.dep@[g] <= 32 implies exists|x: u32|
                    post.set@.contains(x) && top(x, post.dep@[g]) == post.pre@[g] by {
                assert(pre.dep@[g] <= 32);
            }
        }
    }

    /// An empty trie: the root alone.
    fn empty() -> (r: Self)
        ensures
            r.wf(),
            r.values() == Set::<u32>::empty(),
            r.nodes() == 1,
    {
        let mut tree: Vec<(usize, usize)> = Vec::new();
        tree.push((0, 0));
        let ghost zero: Seq<u32> = Seq::empty().push(0u32);
        let r = DicTree { tree, idx: 0, set: Ghost(Set::empty()), dep: Ghost(zero), pre: Ghost(zero) };
        proof {
            assert forall|h: int, b: u32| 0 <= h < 1 && b <= 1 implies #[trigger] r.child(h, b) == 0 by {}
        }
        r
    }

    /// Stores `num`.
    pub fn add(&mut self, num: i32)
        requires
            old(self).wf(),
            old(self).nodes() + 32 < usize::MAX,
        ensures
            final(self).wf(),
            final(self).values() == old(self).values().insert(num as u32),
            final(self).nodes() <= old(self).nodes() + 32,
            old(self).values().contains(num as u32) ==> final(self).nodes() == old(self).nodes(),
    {
        let u: u32 = num as u32;
        let ghost s0 = self.set@;
        let ghost n0 = self.tree@.len();
        proof {
            self.lemma_start(u);
        }
        let mut h: usize = 0;
        let mut d: u32 = 0;
        while d < 32
            invariant
                self.building(s0, u, d, h as int),
                self.tree@.len() <= n0 + d,
                n0 + 32 < usize::MAX,
                s0.contains(u) ==> self.tree@.len() == n0,
            decreases 32 - d,
        {
            let b: u32 = (u >> (31 - d)) & 1;
            let c = if b == 0 {
                self.tree[h].0
            } else {
                self.tree[h].1
            };
            proof {
                lemma_top_step(u, d);
                assert(b == bit(u, d));
                assert(c == self.child(h as int, b));
            }
            if c == 0 {
                proof {
                    if s0.contains(u) {
                        assert(self.pre@[h as int] == top(u, self.dep@[h as int]));
                    }
                }
                let ghost pre = *self;
                let nc = self.tree.len();
                let pair = self.tree[h];
                self.tree.push((0, 0));
                if b == 0 {
                    self.tree.set(h, (nc, pair.1));
                } else {
                    self.tree.set(h, (pair.0, nc));
                }
                self.idx = self.idx + 1;
                self.dep = Ghost(self.dep@.push((d + 1) as u32));
                self.pre = Ghost(self.pre@.push(top(u, (d + 1) as u32)));
                proof {
                    assert(self.tree@ =~= pre.tree@.push((0usize, 0usize)).update(
                        h as int,
                        if bit(u, d) == 0 {
                            (pre.tree@.len() as usize, pre.tree@[h as int].1)
                        } else {
                            (pre.tree@[h as int].0, pre.tree@.len() as usize)
                        },
                    ));
                    Self::lemma_grow(pre, *self, s0, u, d, h as int);
                }
                h = nc;
            } else {
                proof {
                    self.lemma_follow(s0, u, d, h as int);
                }
                h = c;
            }
            d = d + 1;
        }
        let ghost pre = *self;
        self.set = Ghost(s0.insert(u));
        proof {
            Self::lemma_finish(pre, *self, s0, u, h as int);
        }
    }

    /// The largest `num ^ x` over stored values `x`, as bit patterns
    /// compared unsigned; `0` when nothing is stored.
    pub fn query(&self, num: i32) -> (r: i32)
        requires
            self.wf(),
        ensures
            (forall|x: u32| !self.values().contains(x)) ==> r == 0,
            (exists|x: u32| self.values().contains(x)) ==> exists|x: u32|
                self.values().contains(x) && (r as u32) == (num as u32) ^ x,
            forall|y: u32| self.values().contains(y) ==> (num as u32) ^ y <= (r as u32),
    {
        let nu: u32 = num as u32;
        let ghost sv = self.set@;
        if self.tree[0].0 == 0 && self.tree[0].1 == 0 {
            proof {
                assert forall|x: u32| !sv.contains(x) by {
                    if sv.contains(x) {
                        lemma_top_ends(x);
                        lemma_top_step(x, 0);
                        assert(self.pre@[0] == top(x, self.dep@[0]));
                    }
                }
            }
            return 0;
        }
        proof {
            let c: int = if self.tree@[0].0 != 0 {
                self.tree@[0].0 as int
            } else {
                self.tree@[0].1 as int
            };
            let b0: u32 = if self.tree@[0].0 != 0 {
                0
            } else {
                1
            };
            assert(self.child(0, b0) as int == c);
            assert(self.dep@[c] <= 32);
            let x = choose|x: u32| sv.contains(x) && top(x, self.dep@[c]) == self.pre@[c];
            lemma_top_ends(x);
            lemma_top_ends(nu);
            assert(top(x, 0) == self.pre@[0]);
            assert forall|y: u32| sv.contains(y) implies top(nu ^ y, 0) <= 0u32 ^ 0u32 by {
                lemma_top_ends(nu ^ y);
            }
            assert(0u32 ^ 0u32 == 0u32) by (bit_vector);
        }
        let mut h: usize = 0;
        let mut d: u32 = 0;
        let mut res: u32 = 0;
        while d < 32
            invariant
                self.wf(),
                sv == self.set@,
                0 <= h < self.tree@.len(),
                self.dep@[h as int] == d,
                d <= 32,
                exists|x: u32| sv.contains(x) && top(x, d) == self.pre@[h as int],
                res == top(nu, d) ^ self.pre@[h as int],
                forall|y: u32| sv.contains(y) ==> top(nu ^ y, d) <= res,
            decreases 32 - d,
        {
            let b: u32 = (nu >> (31 - d)) & 1;
            proof {
                lemma_top_step(nu, d);
            }
            let want: u32 = 1 - b;
            let cw = if want == 0 {
                self.tree[h].0
            } else {
                self.tree[h].1
            };
            let ghost p = self.pre@[h as int];
            let ghost t = top(nu, d);
            proof {
                lemma_top_step(nu, d);
                assert(b == bit(nu, d));
                assert(cw == self.child(h as int, want));
                self.lemma_pre_small_in(sv, h as int);
                lemma_xor_small(t, p);
            }
            if cw != 0 {
                proof {
                    let c = cw as int;
                    assert(self.dep@[c] == d + 1);
                    assert(self.dep@[c] <= 32);
                    lemma_shift_xor(t, p, b);
                    assert forall|y: u32| sv.contains(y) implies top(nu ^ y, (d + 1) as u32) <= (res << 1u32) | 1 by {
                        lemma_top_step(nu ^ y, d);
                        lemma_shift_le(top(nu ^ y, d), res, bit(nu ^ y, d));
                    }
                }
                h = cw;
                res = (res << 1) | 1;
            } else {
                let cb = if b == 0 {
                    self.tree[h].0
                } else {
                    self.tree[h].1
                };
                proof {
                    let xs = choose|x: u32| sv.contains(x) && top(x, d) == p;
                    lemma_top_step(xs, d);
                    assert(p == top(xs, self.dep@[h as int]));
                    assert(self.child(h as int, bit(xs, d)) != 0);
                    assert(bit(xs, d) == b);
                    assert(cb == self.child(h as int, b));
                    assert(top(xs, (d + 1) as u32) == self.pre@[cb as int]);
                    lemma_shift_xor(t, p, b);
                    assert forall|y: u32| sv.contains(y) implies top(nu ^ y, (d + 1) as u32) <= res << 1u32 by {
                        lemma_top_step(nu ^ y, d);
                        lemma_top_xor(nu, y, d);
                        lemma_shift_le(top(nu ^ y, d), res, bit(nu ^ y, d));
                        if top(nu ^ y, d) == res {
                            lemma_xor_cancel(t, top(y, d), p);
                            lemma_top_step(y, d);
                            assert(p == top(y, self.dep@[h as int]));
                            assert(self.child(h as int, bit(y, d)) != 0);
                            assert(bit(y, d) == b);
                            assert(bit(nu ^ y, d) == 0) by {
                                assert(b ^ b == 0u32) by (bit_vector);
                            }
                            lemma_or_zero(res << 1u32);
                        }
                    }
                }
                h = cb;
                res = res << 1;
            }
            d = d + 1;
        }
        proof {
            lemma_top_ends(nu);
            let xs = choose|x: u32| sv.contains(x) && top(x, 32) == self.pre@[h as int];
            lemma_top_ends(xs);
            assert(self.values().contains(xs));
            assert forall|y: u32| sv.contains(y) implies nu ^ y <= res by {
                lemma_top_ends(nu ^ y);
            }
            lemma_cast_round(res);
        }
        res as i32
    }

    /// A trie holding each value of `nums`.
    pub fn new(nums: &Vec<i32>) -> (r: Self)
        requires
            nums@.len() < 0x0100_0000,
        ensures
            r.wf(),
            forall|x: u32| r.values().contains(x) <==> exists|i: int| 0 <= i < nums@.len() && nums@[i] as u32 == x,
    {
        let mut sf = Self::empty();
        let mut i: usize = 0;
        while i < nums.len()
            invariant
                sf.wf(),
                i <= nums@.len() < 0x0100_0000,
                sf.nodes() <= 1 + 32 * i,
                forall|x: u32| sf.values().contains(x) <==> exists|k: int| 0 <= k < i && nums@[k] as u32 == x,
            decreases nums@.len() - i,
        {
            proof {
                assert(32 * i < 32 * 0x0100_0000) by (nonlinear_arith)
                    requires
                        i < 0x0100_0000,
                ;
            }
            sf.add(nums[i]);
            proof {
                assert forall|x: u32| sf.values().contains(x) implies exists|k: int| 0 <= k < i + 1 && nums@[k] as u32 == x by {
                    if x != nums@[i as int] as u32 {
                        let k = choose|k: int| 0 <= k < i && nums@[k] as u32 == x;
                    }
                }
            }
            i += 1;
        }
        sf
    }
}

} // verus!
