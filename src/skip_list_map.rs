//! An ordered map from `i32` keys to values, kept as a skip list.
//!
//! Nodes live in an arena and link to each other by slot index; a freed slot
//! goes to a free list and is reused by the next insertion. The ghost field
//! `levels` records, for every level, the chain of slots that the forward links
//! at that level walk through; `wf` ties the links to those chains.

use crate::rng::draw_below;
use vstd::prelude::*;

verus! {

/// Percent chance that a new node is promoted one more level.
pub const PROMOTE_PERCENT: u32 = 30;

/// A node: a key, its value, and one forward link for each level it is on.
pub struct SkipListNode<V> {
    pub key: i32,
    pub val: V,
    pub forwards: Vec<Option<usize>>,
}

/// Why a map could not be built.
#[derive(Debug, PartialEq, Eq, Structural)]
pub enum SkipListError {
    /// A map needs at least one level.
    InvalidConfiguration,
}

/// The entry of `s` at `j`, or `None` off either end (`j == -1` stands for the sentinel).
pub open spec fn at(s: Seq<usize>, j: int) -> Option<usize> {
    if 0 <= j < s.len() {
        Some(s[j])
    } else {
        None
    }
}

/// Whether a search for `target` walks past a node with key `k`:
/// `k < target` when looking for a lower bound, `k <= target` for an upper bound.
pub open spec fn passes(k: i32, target: i32, inclusive: bool) -> bool {
    if inclusive {
        k <= target
    } else {
        k < target
    }
}

/// `k` is the least key of `m` that is at least `key`.
pub open spec fn is_lower_bound<V>(m: Map<i32, V>, key: i32, k: i32) -> bool {
    &&& m.contains_key(k)
    &&& key <= k
    &&& forall|k2: i32| m.contains_key(k2) && key <= k2 ==> k <= k2
}

/// `k` is the least key of `m` that is greater than `key`.
pub open spec fn is_upper_bound<V>(m: Map<i32, V>, key: i32, k: i32) -> bool {
    &&& m.contains_key(k)
    &&& key < k
    &&& forall|k2: i32| m.contains_key(k2) && key < k2 ==> k <= k2
}

/// Promotion stops at draw `j`: the draws before it continue (below
/// `PROMOTE_PERCENT`) and draw `j` does not, or `j` is past the last draw.
pub open spec fn stops_at(draws: Seq<u32>, j: int) -> bool {
    &&& 0 <= j <= draws.len()
    &&& j < draws.len() ==> draws[j] >= PROMOTE_PERCENT
    &&& forall|i: int| 0 <= i < j ==> #[trigger] draws[i] < PROMOTE_PERCENT
}

/// The level `1 + j` capped at `max_height`.
pub open spec fn capped_level(j: int, max_height: int) -> int {
    if 1 + j < max_height {
        1 + j
    } else {
        max_height
    }
}

/// `r` is the level that the percent draws `d` (each below 100) give.
pub open spec fn drawn_level(d: Seq<u32>, max_height: int, r: int) -> bool {
    &&& forall|i: int| 0 <= i < d.len() ==> #[trigger] d[i] < 100
    &&& forall|j: int| #[trigger] stops_at(d, j) ==> r == capped_level(j, max_height)
}

/// The level that a run of percent draws gives: one more than the number of
/// draws before the first that stops promotion, capped at `max_height`.
pub fn level_from_draws(draws: &Vec<u32>, max_height: usize) -> (r: usize)
    requires
        max_height >= 1,
    ensures
        1 <= r <= max_height,
        forall|j: int| #[trigger] stops_at(draws@, j) ==> r == capped_level(j, max_height as int),
{
    let mut j: usize = 0;
    while j < draws.len() && draws[j] < PROMOTE_PERCENT
        invariant
            j <= draws@.len(),
            forall|i: int| 0 <= i < j ==> #[trigger] draws@[i] < PROMOTE_PERCENT,
        decreases draws@.len() - j,
    {
        j += 1;
    }
    proof {
        assert(stops_at(draws@, j as int));
        assert forall|k: int| stops_at(draws@, k) implies k == j by {
            if k < j {
                assert(draws@[k] < PROMOTE_PERCENT);
            } else if k > j {
                assert(draws@[j as int] < PROMOTE_PERCENT);
            }
        }
    }
    if j < max_height - 1 {
        j + 1
    } else {
        max_height
    }
}

/// Draws a level for a new node: percent draws are taken until one is at
/// least `PROMOTE_PERCENT` or the cap is reached, and `level_from_draws`
/// turns them into a level.
fn random_level(rng: &mut rand::rngs::ThreadRng, max_height: usize) -> (r: usize)
    requires
        1 <= max_height,
    ensures
        1 <= r <= max_height,
        exists|d: Seq<u32>| #[trigger] drawn_level(d, max_height as int, r as int),
{
    let mut draws: Vec<u32> = Vec::new();
    let mut level: usize = 1;
    while level < max_height
        invariant
            1 <= level <= max_height,
            forall|i: int| 0 <= i < draws@.len() ==> #[trigger] draws@[i] < 100,
        decreases max_height - level,
    {
        let d = draw_below(rng, 100);
        draws.push(d);
        if d >= PROMOTE_PERCENT {
            break;
        }
        level += 1;
    }
    let r = level_from_draws(&draws, max_height);
    proof {
        assert(drawn_level(draws@, max_height as int, r as int));
    }
    r
}

impl<V> SkipListNode<V> {
    /// A node with `height` empty forward links.
    pub fn new(key: i32, val: V, height: usize) -> (r: Self)
        ensures
            r.key == key,
            r.val == val,
            r.forwards@ == Seq::new(height as nat, |i: int| None::<usize>),
    {
        let mut forwards: Vec<Option<usize>> = Vec::new();
        let mut i: usize = 0;
        while i < height
            invariant
                i <= height,
                forwards@ == Seq::new(i as nat, |j: int| None::<usize>),
            decreases height - i,
        {
            forwards.push(None);
            i += 1;
            assert(forwards@ =~= Seq::new(i as nat, |j: int| None::<usize>));
        }
        SkipListNode { key, val, forwards }
    }

    /// A node as [`SkipListNode::new`] builds it, on the heap.
    pub fn new_ptr(key: i32, val: V, height: usize) -> (r: Box<Self>)
        ensures
            r.key == key,
            r.val == val,
            r.forwards@ == Seq::new(height as nat, |i: int| None::<usize>),
    {
        Box::new(Self::new(key, val, height))
    }
}

/// A skip-list map from `i32` keys to values of type `V`.
pub struct SkipListMap<V> {
    /// Forward links of the sentinel, one per level up to `max_height`.
    head: Vec<Option<usize>>,
    /// The arena: a slot holds a node, or `None` once the slot is freed.
    nodes: Vec<Option<SkipListNode<V>>>,
    /// Freed slots, ready for reuse.
    free: Vec<usize>,
    len: usize,
    rand: rand::rngs::ThreadRng,
    max_height: usize,
    height: usize,
    /// For each level, the slots on that level in the order of the links.
    levels: Ghost<Seq<Seq<usize>>>,
}

impl<V> SkipListMap<V> {
    spec fn chain(&self) -> Seq<usize> {
        self.levels@[0]
    }

    spec fn nd(&self, n: usize) -> SkipListNode<V> {
        self.nodes@[n as int].unwrap()
    }

    spec fn key_at(&self, n: usize) -> i32 {
        self.nd(n).key
    }

    /// The link at level `i` out of `u`, where `None` stands for the sentinel.
    spec fn link(&self, u: Option<usize>, i: int) -> Option<usize> {
        match u {
            None => self.head@[i],
            Some(n) => self.nd(n).forwards@[i],
        }
    }

    spec fn node_ok(&self, i: int, j: int) -> bool {
        let n = self.levels@[i][j];
        &&& (n as int) < self.nodes@.len()
        &&& self.nodes@[n as int] is Some
        &&& i < self.nd(n).forwards@.len() <= self.max_height
        &&& self.nd(n).forwards@[i] == at(self.levels@[i], j + 1)
        &&& self.levels@[0].contains(n)
    }

    /// The map's invariant.
    pub closed spec fn wf(&self) -> bool {
        &&& 1 <= self.max_height
        &&& self.height <= self.max_height
        &&& self.head@.len() == self.max_height
        &&& self.levels@.len() == self.max_height
        &&& self.len == self.levels@[0].len()
        &&& forall|i: int, j: int|
            0 <= i < self.max_height && 0 <= j < self.levels@[i].len() ==> #[trigger] self.node_ok(
                i,
                j,
            )
        &&& forall|i: int| 0 <= i < self.max_height ==> #[trigger] self.head@[i] == at(self.levels@[i], 0)
        &&& forall|i: int, j: int, k: int|
            0 <= i < self.max_height && 0 <= j < k < self.levels@[i].len() ==> self.key_at(
                #[trigger] self.levels@[i][j],
            ) < self.key_at(#[trigger] self.levels@[i][k])
        &&& forall|i: int, j: int|
            0 <= i < self.max_height && 0 <= j < self.levels@[0].len() && i < self.nd(
                #[trigger] self.levels@[0][j],
            ).forwards@.len() ==> #[trigger] self.levels@[i].contains(self.levels@[0][j])
        &&& forall|i: int| self.height <= i < self.max_height ==> #[trigger] self.levels@[i].len() == 0
        &&& self.free@.no_duplicates()
        &&& forall|k: int|
            0 <= k < self.free@.len() ==> (#[trigger] self.free@[k] as int) < self.nodes@.len()
                && self.nodes@[self.free@[k] as int] is None
    }

    /// The keys in ascending order, as the level-0 chain holds them.
    pub closed spec fn keys(&self) -> Seq<i32> {
        self.chain().map_values(|n: usize| self.key_at(n))
    }

    /// Number of entries.
    pub closed spec fn spec_len(&self) -> nat {
        self.len as nat
    }

    /// Levels in use.
    pub closed spec fn spec_height(&self) -> nat {
        self.height as nat
    }

    /// The level cap fixed at construction.
    pub closed spec fn spec_max_height(&self) -> nat {
        self.max_height as nat
    }

    /// `c` is where a search for `key` stops on level `i`: the nodes before it
    /// are walked past, the nodes from it on are not.
    spec fn cut_ok(&self, i: int, key: i32, inclusive: bool, c: int) -> bool {
        &&& 0 <= c <= self.levels@[i].len()
        &&& forall|j: int| 0 <= j < c ==> passes(self.key_at(#[trigger] self.levels@[i][j]), key, inclusive)
        &&& forall|j: int|
            c <= j < self.levels@[i].len() ==> !passes(self.key_at(#[trigger] self.levels@[i][j]), key, inclusive)
    }

    /// Builds an empty map whose nodes reach at most `max_height` levels.
    pub fn new(max_height: usize) -> (r: Result<Self, SkipListError>)
        ensures
            max_height == 0 <==> r is Err,
            r matches Ok(m) ==> m.wf() && m@ == Map::<i32, V>::empty() && m.spec_len() == 0
                && m.spec_height() == 0 && m.spec_max_height() == max_height,
            r matches Err(e) ==> e == SkipListError::InvalidConfiguration,
    {
        if max_height == 0 {
            return Err(SkipListError::InvalidConfiguration);
        }
        let mut head: Vec<Option<usize>> = Vec::new();
        let mut i: usize = 0;
        while i < max_height
            invariant
                i <= max_height,
                head@ == Seq::new(i as nat, |j: int| None::<usize>),
            decreases max_height - i,
        {
            head.push(None);
            i += 1;
            assert(head@ =~= Seq::new(i as nat, |j: int| None::<usize>));
        }
        let m = SkipListMap {
            head,
            nodes: Vec::new(),
            free: Vec::new(),
            len: 0,
            rand: rand::thread_rng(),
            max_height,
            height: 0,
            levels: Ghost(Seq::new(max_height as nat, |i: int| Seq::<usize>::empty())),
        };
        assert(m@ =~= Map::<i32, V>::empty());
        Ok(m)
    }
}

impl<V> SkipListMap<V> {
    /// A node on level `i` is on every level below its height.
    proof fn lemma_on_level(&self, i: int, j: int, l: int)
        requires
            self.wf(),
            0 <= i < self.max_height,
            0 <= j < self.levels@[i].len(),
            0 <= l < self.nd(self.levels@[i][j]).forwards@.len(),
        ensures
            self.levels@[l].contains(self.levels@[i][j]),
    {
        let n = self.levels@[i][j];
        assert(self.node_ok(i, j));
        let j0 = choose|j0: int| 0 <= j0 < self.levels@[0].len() && self.levels@[0][j0] == n;
        assert(self.levels@[0][j0] == n);
    }

    /// Every entry of the level-0 chain is an entry of the view.
    proof fn lemma_view_at(&self, j: int)
        requires
            self.wf(),
            0 <= j < self.levels@[0].len(),
        ensures
            self@.contains_key(self.key_at(self.levels@[0][j])),
            self@[self.key_at(self.levels@[0][j])] == self.nd(self.levels@[0][j]).val,
    {
        let k = self.key_at(self.levels@[0][j]);
        assert(exists|j2: int| 0 <= j2 < self.levels@[0].len() && self.key_at(self.levels@[0][j2]) == k);
        let j2 = choose|j2: int| 0 <= j2 < self.levels@[0].len() && self.key_at(self.levels@[0][j2]) == k;
        if j2 < j {
            assert(self.key_at(self.levels@[0][j2]) < self.key_at(self.levels@[0][j]));
        } else if j < j2 {
            assert(self.key_at(self.levels@[0][j]) < self.key_at(self.levels@[0][j2]));
        }
    }

    /// Every key of the view sits on the level-0 chain.
    proof fn lemma_view_key(&self, k: i32) -> (j: int)
        requires
            self.wf(),
            self@.contains_key(k),
        ensures
            0 <= j < self.levels@[0].len(),
            self.key_at(self.levels@[0][j]) == k,
    {
        choose|j: int| 0 <= j < self.levels@[0].len() && self.key_at(self.levels@[0][j]) == k
    }

    fn link_of(&self, u: Option<usize>, i: usize) -> (r: Option<usize>)
        requires
            self.wf(),
            i < self.max_height,
            u matches Some(n) ==> (n as int) < self.nodes@.len() && self.nodes@[n as int] is Some && i
                < self.nd(n).forwards@.len(),
        ensures
            r == self.link(u, i as int),
    {
        match u {
            None => self.head[i],
            Some(n) => match &self.nodes[n] {
                Some(node) => node.forwards[i],
                None => None,
            },
        }
    }

    fn key_of(&self, n: usize) -> (r: i32)
        requires
            (n as int) < self.nodes@.len(),
            self.nodes@[n as int] is Some,
        ensures
            r == self.key_at(n),
    {
        match &self.nodes[n] {
            Some(node) => node.key,
            None => 0,
        }
    }

    /// The shared descent: from the top level in use down to level 0, walk
    /// forward while the next key passes, and record the last node reached on
    /// each level (`None` for the sentinel). The ghost result holds, per level,
    /// the position in that level's chain where the walk stopped.
    fn descend(&self, key: i32, inclusive: bool) -> (res: (Vec<Option<usize>>, Ghost<Seq<int>>))
        requires
            self.wf(),
        ensures
            res.0@.len() == self.max_height,
            res.1@.len() == self.max_height,
            forall|i: int|
                0 <= i < self.max_height ==> self.cut_ok(i, key, inclusive, #[trigger] res.1@[i])
                    && res.0@[i] == at(self.levels@[i], res.1@[i] - 1),
    {
        let mut updates: Vec<Option<usize>> = Vec::new();
        let mut i: usize = 0;
        while i < self.max_height
            invariant
                i <= self.max_height,
                updates@ == Seq::new(i as nat, |j: int| None::<usize>),
            decreases self.max_height - i,
        {
            updates.push(None);
            i += 1;
            assert(updates@ =~= Seq::new(i as nat, |j: int| None::<usize>));
        }
        let ghost mut cuts: Seq<int> = Seq::new(self.max_height as nat, |j: int| 0int);
        let mut cur: Option<usize> = None;
        let mut lvl: usize = self.height;
        while lvl > 0
            invariant
                self.wf(),
                lvl <= self.height,
                updates@.len() == self.max_height,
                cuts.len() == self.max_height,
                forall|i: int|
                    lvl <= i < self.max_height ==> self.cut_ok(i, key, inclusive, #[trigger] cuts[i])
                        && updates@[i] == at(self.levels@[i], cuts[i] - 1),
                cur matches Some(n) ==> self.levels@[0].contains(n) && (lvl as int) < self.nd(
                    n,
                ).forwards@.len() && passes(self.key_at(n), key, inclusive),
            decreases lvl,
        {
            let l: usize = lvl - 1;
            let ghost lv = self.levels@[l as int];
            let ghost mut pos: int = -1;
            proof {
                if cur is Some {
                    let n = cur.unwrap();
                    let j0 = choose|j: int| 0 <= j < self.levels@[0].len() && self.levels@[0][j] == n;
                    self.lemma_on_level(0, j0, l as int);
                    pos = choose|j: int| 0 <= j < lv.len() && lv[j] == n;
                    assert forall|j: int| 0 <= j <= pos implies passes(
                        self.key_at(#[trigger] lv[j]),
                        key,
                        inclusive,
                    ) by {
                        if j < pos {
                            assert(self.key_at(lv[j]) < self.key_at(lv[pos]));
                        }
                    }
                }
            }
            loop
                invariant
                    self.wf(),
                    l < self.height,
                    lvl == l + 1,
                    lv == self.levels@[l as int],
                    updates@.len() == self.max_height,
                    cuts.len() == self.max_height,
                    forall|i: int|
                        lvl <= i < self.max_height ==> self.cut_ok(i, key, inclusive, #[trigger] cuts[i])
                            && updates@[i] == at(self.levels@[i], cuts[i] - 1),
                    -1 <= pos < lv.len(),
                    cur == at(lv, pos),
                    forall|j: int| 0 <= j <= pos ==> passes(self.key_at(#[trigger] lv[j]), key, inclusive),
                ensures
                    -1 <= pos < lv.len(),
                    cur == at(lv, pos),
                    self.cut_ok(l as int, key, inclusive, pos + 1),
                decreases lv.len() - pos,
            {
                proof {
                    if pos >= 0 {
                        assert(self.node_ok(l as int, pos));
                    }
                }
                let next = self.link_of(cur, l);
                proof {
                    if pos >= 0 {
                        assert(self.node_ok(l as int, pos));
                    }
                    assert(next == at(lv, pos + 1));
                    if pos + 1 < lv.len() {
                        assert(self.node_ok(l as int, pos + 1));
                    }
                }
                match next {
                    None => {
                        break;
                    },
                    Some(m) => {
                        let mk = self.key_of(m);
                        let go = if inclusive {
                            mk <= key
                        } else {
                            mk < key
                        };
                        if go {
                            cur = next;
                            proof {
                                pos = pos + 1;
                            }
                        } else {
                            proof {
                                assert forall|j: int| pos + 1 <= j < lv.len() implies !passes(
                                    self.key_at(#[trigger] lv[j]),
                                    key,
                                    inclusive,
                                ) by {
                                    if pos + 1 < j {
                                        assert(self.key_at(lv[pos + 1]) < self.key_at(lv[j]));
                                    }
                                }
                            }
                            break;
                        }
                    },
                }
            }
            proof {
                cuts = cuts.update(l as int, pos + 1);
                if pos >= 0 {
                    assert(self.node_ok(l as int, pos));
                }
            }
            updates.set(l, cur);
            lvl = l;
        }
        proof {
            assert forall|i: int| 0 <= i < self.max_height implies self.cut_ok(
                i,
                key,
                inclusive,
                #[trigger] cuts[i],
            ) && updates@[i] == at(self.levels@[i], cuts[i] - 1) by {
                if i < lvl {
                }
            }
        }
        (updates, Ghost(cuts))
    }
}

impl<V> SkipListMap<V> {
    /// `self` is `pre` with the link at each level `l < upto` out of `ups[l]`
    /// redirected to `tg[l]`, and nothing else changed.
    spec fn relinked(&self, pre: Self, ups: Seq<Option<usize>>, tg: Seq<Option<usize>>, upto: int) -> bool {
        &&& self.nodes@.len() == pre.nodes@.len()
        &&& self.head@.len() == pre.head@.len()
        &&& forall|l: int|
            0 <= l < self.head@.len() ==> #[trigger] self.head@[l] == if l < upto && ups[l] is None {
                tg[l]
            } else {
                pre.head@[l]
            }
        &&& forall|x: usize|
            (x as int) < self.nodes@.len() ==> (#[trigger] self.nodes@[x as int] is Some <==> pre.nodes@[x as int] is Some)
        &&& forall|x: usize|
            (x as int) < self.nodes@.len() && pre.nodes@[x as int] is Some ==> {
                &&& #[trigger] self.nd(x).key == pre.nd(x).key
                &&& self.nd(x).val == pre.nd(x).val
                &&& self.nd(x).forwards@.len() == pre.nd(x).forwards@.len()
                &&& forall|l: int|
                    0 <= l < self.nd(x).forwards@.len() ==> #[trigger] self.nd(x).forwards@[l] == if l
                        < upto && ups[l] == Some(x) {
                        tg[l]
                    } else {
                        pre.nd(x).forwards@[l]
                    }
            }
        &&& self.free == pre.free
        &&& self.len == pre.len
        &&& self.max_height == pre.max_height
        &&& self.height == pre.height
        &&& self.levels == pre.levels
    }

    /// Points the link at level `i` out of `u` (the sentinel when `None`) at `target`.
    fn set_link(&mut self, u: Option<usize>, i: usize, target: Option<usize>)
        requires
            i < old(self).head@.len(),
            u matches Some(n) ==> (n as int) < old(self).nodes@.len() && old(self).nodes@[n as int] is Some
                && i < old(self).nd(n).forwards@.len(),
        ensures
            final(self).head@ == if u is None {
                old(self).head@.update(i as int, target)
            } else {
                old(self).head@
            },
            final(self).nodes@.len() == old(self).nodes@.len(),
            forall|x: usize|
                (x as int) < final(self).nodes@.len() && u != Some(x) ==> #[trigger] final(self).nodes@[x as int]
                    == old(self).nodes@[x as int],
            u matches Some(n) ==> {
                &&& final(self).nodes@[n as int] is Some
                &&& final(self).nd(n).key == old(self).nd(n).key
                &&& final(self).nd(n).val == old(self).nd(n).val
                &&& final(self).nd(n).forwards@ == old(self).nd(n).forwards@.update(i as int, target)
            },
            final(self).free == old(self).free,
            final(self).len == old(self).len,
            final(self).max_height == old(self).max_height,
            final(self).height == old(self).height,
            final(self).levels == old(self).levels,
    {
        match u {
            None => {
                self.head.set(i, target);
            },
            Some(n) => match &mut self.nodes[n] {
                Some(node) => {
                    node.forwards.set(i, target);
                },
                None => {},
            },
        }
    }

    /// Relinks levels `0..tg.len()`: the link out of `ups[l]` now points at `tg[l]`.
    fn relink(&mut self, ups: &Vec<Option<usize>>, tg: &Vec<Option<usize>>)
        requires
            tg@.len() <= ups@.len(),
            tg@.len() <= old(self).head@.len(),
            forall|l: int|
                0 <= l < tg@.len() ==> (#[trigger] ups@[l] matches Some(n) ==> (n as int) < old(
                    self,
                ).nodes@.len() && old(self).nodes@[n as int] is Some && l < old(self).nd(
                    n,
                ).forwards@.len()),
        ensures
            final(self).relinked(*old(self), ups@, tg@, tg@.len() as int),
    {
        let ghost pre = *self;
        let mut i: usize = 0;
        while i < tg.len()
            invariant
                i <= tg@.len(),
                tg@.len() <= ups@.len(),
                tg@.len() <= pre.head@.len(),
                forall|l: int|
                    0 <= l < tg@.len() ==> (#[trigger] ups@[l] matches Some(n) ==> (n as int)
                        < pre.nodes@.len() && pre.nodes@[n as int] is Some && l < pre.nd(
                        n,
                    ).forwards@.len()),
                self.relinked(pre, ups@, tg@, i as int),
            decreases tg@.len() - i,
        {
            let ghost before = *self;
            proof {
                if ups@[i as int] is Some {
                    let n = ups@[i as int].unwrap();
                    assert(pre.nodes@[n as int] is Some);
                    assert(self.nodes@[n as int] is Some);
                    assert(self.nd(n).key == pre.nd(n).key);
                }
            }
            self.set_link(ups[i], i, tg[i]);
            proof {
                assert forall|x: usize|
                    (x as int) < self.nodes@.len() && pre.nodes@[x as int] is Some implies {
                        &&& #[trigger] self.nd(x).key == pre.nd(x).key
                        &&& self.nd(x).val == pre.nd(x).val
                        &&& self.nd(x).forwards@.len() == pre.nd(x).forwards@.len()
                        &&& forall|l: int|
                            0 <= l < self.nd(x).forwards@.len() ==> #[trigger] self.nd(x).forwards@[l]
                                == if l < i + 1 && ups@[l] == Some(x) {
                                tg@[l]
                            } else {
                                pre.nd(x).forwards@[l]
                            }
                    } by {
                    assert(before.nodes@[x as int] is Some);
                    assert(before.nd(x).key == pre.nd(x).key);
                    if ups@[i as int] == Some(x) {
                    } else {
                        assert(self.nodes@[x as int] == before.nodes@[x as int]);
                    }
                    assert forall|l: int| 0 <= l < self.nd(x).forwards@.len() implies #[trigger] self.nd(x).forwards@[l]
                        == if l < i + 1 && ups@[l] == Some(x) {
                        tg@[l]
                    } else {
                        pre.nd(x).forwards@[l]
                    } by {
                        assert(before.nd(x).forwards@[l] == if l < i && ups@[l] == Some(x) {
                            tg@[l]
                        } else {
                            pre.nd(x).forwards@[l]
                        });
                    }
                }
                assert forall|l: int| 0 <= l < self.head@.len() implies #[trigger] self.head@[l]
                    == if l < i + 1 && ups@[l] is None {
                    tg@[l]
                } else {
                    pre.head@[l]
                } by {
                    assert(before.head@[l] == if l < i && ups@[l] is None {
                        tg@[l]
                    } else {
                        pre.head@[l]
                    });
                }
                assert forall|x: usize| (x as int) < self.nodes@.len() implies (#[trigger] self.nodes@[x as int] is Some
                    <==> pre.nodes@[x as int] is Some) by {
                    assert(before.nodes@[x as int] is Some <==> pre.nodes@[x as int] is Some);
                }
                assert(self.relinked(pre, ups@, tg@, i + 1));
            }
            i += 1;
        }
    }

    /// The invariant, the view and the descent positions do not depend on the
    /// random generator.
    proof fn lemma_frame(a: Self, b: Self, key: i32)
        requires
            a.wf(),
            b.head == a.head,
            b.nodes == a.nodes,
            b.free == a.free,
            b.len == a.len,
            b.max_height == a.max_height,
            b.height == a.height,
            b.levels == a.levels,
        ensures
            b.wf(),
            b@ == a@,
            forall|i: int, c: int| #[trigger] b.cut_ok(i, key, false, c) == a.cut_ok(i, key, false, c),
    {
        assert forall|i: int, j: int| 0 <= i < b.max_height && 0 <= j < b.levels@[i].len() implies #[trigger] b.node_ok(i, j) by {
            assert(a.node_ok(i, j));
        }
        assert(b@ =~= a@);
    }

    /// What a search that stops at position `c` of the level-0 chain says of the map.
    proof fn lemma_cut(&self, key: i32, inclusive: bool, c: int)
        requires
            self.wf(),
            self.cut_ok(0, key, inclusive, c),
        ensures
            c < self.levels@[0].len() ==> {
                let k = self.key_at(self.levels@[0][c]);
                &&& self@.contains_key(k)
                &&& self@[k] == self.nd(self.levels@[0][c]).val
                &&& !passes(k, key, inclusive)
                &&& forall|k2: i32| self@.contains_key(k2) && !passes(k2, key, inclusive) ==> k <= k2
            },
            c == self.levels@[0].len() ==> forall|k2: i32| self@.contains_key(k2) ==> passes(k2, key, inclusive),
    {
        let ch = self.levels@[0];
        if c < ch.len() {
            self.lemma_view_at(c);
            assert forall|k2: i32| self@.contains_key(k2) && !passes(k2, key, inclusive) implies self.key_at(ch[c]) <= k2 by {
                let j = self.lemma_view_key(k2);
                if j < c {
                    assert(passes(self.key_at(ch[j]), key, inclusive));
                } else if j > c {
                    assert(self.key_at(ch[c]) < self.key_at(ch[j]));
                }
            }
        } else {
            assert forall|k2: i32| self@.contains_key(k2) implies passes(k2, key, inclusive) by {
                let j = self.lemma_view_key(k2);
                assert(passes(self.key_at(ch[j]), key, inclusive));
            }
        }
    }

    /// The first node whose key does not pass, with the position of the
    /// level-0 cut as ghost.
    fn bound(&self, key: i32, inclusive: bool) -> (res: (Option<usize>, Ghost<int>))
        requires
            self.wf(),
        ensures
            self.cut_ok(0, key, inclusive, res.1@),
            res.0 == at(self.levels@[0], res.1@),
            res.0 matches Some(n) ==> (n as int) < self.nodes@.len() && self.nodes@[n as int] is Some,
    {
        let (updates, Ghost(cuts)) = self.descend(key, inclusive);
        let u = updates[0];
        proof {
            assert(self.cut_ok(0, key, inclusive, cuts[0]));
            if cuts[0] >= 1 {
                assert(self.node_ok(0, cuts[0] - 1));
            }
            if cuts[0] < self.levels@[0].len() {
                assert(self.node_ok(0, cuts[0]));
            }
        }
        let next = self.link_of(u, 0);
        (next, Ghost(cuts[0]))
    }

    /// The entry with the least key at least `key`; `None` when every key is
    /// smaller. The sentinel is never an answer.
    pub fn lower_bound(&self, key: i32) -> (r: Option<(i32, &V)>)
        requires
            self.wf(),
        ensures
            r matches Some(p) ==> is_lower_bound(self@, key, p.0) && *p.1 == self@[p.0],
            r is None ==> forall|k: i32| self@.contains_key(k) ==> k < key,
    {
        let (b, Ghost(c)) = self.bound(key, false);
        proof {
            self.lemma_cut(key, false, c);
        }
        match b {
            None => None,
            Some(n) => match &self.nodes[n] {
                Some(node) => Some((node.key, &node.val)),
                None => None,
            },
        }
    }

    /// The entry with the least key greater than `key`; `None` when no key is
    /// greater. The sentinel is never an answer.
    pub fn upper_bound(&self, key: i32) -> (r: Option<(i32, &V)>)
        requires
            self.wf(),
        ensures
            r matches Some(p) ==> is_upper_bound(self@, key, p.0) && *p.1 == self@[p.0],
            r is None ==> forall|k: i32| self@.contains_key(k) ==> k <= key,
    {
        let (b, Ghost(c)) = self.bound(key, true);
        proof {
            self.lemma_cut(key, true, c);
        }
        match b {
            None => None,
            Some(n) => match &self.nodes[n] {
                Some(node) => Some((node.key, &node.val)),
                None => None,
            },
        }
    }

    /// Whether `key` is stored.
    pub fn contain(&self, key: i32) -> (r: bool)
        requires
            self.wf(),
        ensures
            r == self@.contains_key(key),
    {
        let (b, Ghost(c)) = self.bound(key, false);
        proof {
            self.lemma_cut(key, false, c);
        }
        match b {
            None => false,
            Some(n) => self.key_of(n) == key,
        }
    }

    /// The value stored under `key`, if any.
    pub fn get_key(&self, key: i32) -> (r: Option<&V>)
        requires
            self.wf(),
        ensures
            r is Some <==> self@.contains_key(key),
            r matches Some(v) ==> *v == self@[key],
    {
        let (b, Ghost(c)) = self.bound(key, false);
        proof {
            self.lemma_cut(key, false, c);
        }
        match b {
            None => None,
            Some(n) => match &self.nodes[n] {
                Some(node) => if node.key == key {
                    Some(&node.val)
                } else {
                    None
                },
                None => None,
            },
        }
    }

    /// Number of entries.
    pub fn len(&self) -> (r: usize)
        ensures
            r == self.spec_len(),
    {
        self.len
    }

    /// Number of levels in use.
    pub fn height(&self) -> (r: usize)
        ensures
            r == self.spec_height(),
    {
        self.height
    }
}

/// `s` put into `l` at position `c`.
pub open spec fn ins(l: Seq<usize>, c: int, s: usize) -> Seq<usize> {
    Seq::new((l.len() + 1) as nat, |j: int| if j < c { l[j] } else if j == c { s } else { l[j - 1] })
}

/// The level chains after a node in slot `s` of height `level` is put in at
/// position `cuts[i]` of each level `i` below `level`.
pub open spec fn levels_with(ls: Seq<Seq<usize>>, cuts: Seq<int>, level: int, s: usize) -> Seq<Seq<usize>> {
    Seq::new(ls.len(), |i: int| if i < level { ins(ls[i], cuts[i], s) } else { ls[i] })
}

/// The level chains after the node at position `cuts[i]` of each level `i`
/// below `level` is taken out.
pub open spec fn levels_without(ls: Seq<Seq<usize>>, cuts: Seq<int>, level: int) -> Seq<Seq<usize>> {
    Seq::new(ls.len(), |i: int| if i < level { rem(ls[i], cuts[i]) } else { ls[i] })
}

/// `l` without its entry at position `c`.
pub open spec fn rem(l: Seq<usize>, c: int) -> Seq<usize> {
    Seq::new((l.len() - 1) as nat, |j: int| if j < c { l[j] } else { l[j + 1] })
}

impl<V> SkipListMap<V> {
    proof fn lemma_distinct(&self, i: int, j: int, k: int)
        requires
            self.wf(),
            0 <= i < self.max_height,
            0 <= j < self.levels@[i].len(),
            0 <= k < self.levels@[i].len(),
            j != k,
        ensures
            self.levels@[i][j] != self.levels@[i][k],
    {
        if j < k {
            assert(self.key_at(self.levels@[i][j]) < self.key_at(self.levels@[i][k]));
        } else {
            assert(self.key_at(self.levels@[i][k]) < self.key_at(self.levels@[i][j]));
        }
    }

    /// `post` is `pre` with a fresh node for `key` in slot `s`, of height
    /// `level`, linked in at the positions `cuts` of a lower-bound descent.
    spec fn linked_in(
        pre: Self,
        post: Self,
        key: i32,
        val: V,
        level: usize,
        s: usize,
        ups: Seq<Option<usize>>,
        cuts: Seq<int>,
    ) -> bool {
        &&& pre.wf()
        &&& 1 <= level <= pre.max_height
        &&& !pre@.contains_key(key)
        &&& ups.len() == pre.max_height
        &&& cuts.len() == pre.max_height
        &&& forall|i: int|
                0 <= i < pre.max_height ==> pre.cut_ok(i, key, false, #[trigger] cuts[i]) && ups[i] == at(
                    pre.levels@[i],
                    cuts[i] - 1,
                )
        &&& (s as int) < post.nodes@.len()
        &&& ((s as int) >= pre.nodes@.len() || pre.nodes@[s as int] is None)
        &&& post.nodes@.len() >= pre.nodes@.len()
        &&& post.nodes@[s as int] is Some
        &&& post.nd(s).key == key
        &&& post.nd(s).val == val
        &&& post.nd(s).forwards@.len() == level
        &&& forall|l: int| 0 <= l < level ==> #[trigger] post.nd(s).forwards@[l] == at(pre.levels@[l], cuts[l])
        &&& forall|x: usize|
                #![trigger post.nodes@[x as int]]
                (x as int) < pre.nodes@.len() && x != s && pre.nodes@[x as int] is Some ==> {
                    &&& post.nodes@[x as int] is Some
                    &&& post.nd(x).key == pre.nd(x).key
                    &&& post.nd(x).val == pre.nd(x).val
                    &&& post.nd(x).forwards@.len() == pre.nd(x).forwards@.len()
                    &&& forall|l: int|
                        0 <= l < post.nd(x).forwards@.len() ==> #[trigger] post.nd(x).forwards@[l] == if l
                            < level && ups[l] == Some(x) {
                            Some(s)
                        } else {
                            pre.nd(x).forwards@[l]
                        }
                }
        &&& forall|x: usize|
                (x as int) < pre.nodes@.len() && x != s && pre.nodes@[x as int] is None ==> #[trigger] post.nodes@[x as int] is None
        &&& post.head@.len() == pre.head@.len()
        &&& forall|l: int|
                0 <= l < pre.max_height ==> #[trigger] post.head@[l] == if l < level && ups[l] is None {
                    Some(s)
                } else {
                    pre.head@[l]
                }
        &&& post.max_height == pre.max_height
        &&& post.height == (if level > pre.height {
            level
        } else {
            pre.height
        })
        &&& post.len == pre.len + 1
        &&& post.levels@ == levels_with(pre.levels@, cuts, level as int, s)
        &&& (post.free@ == pre.free@ || pre.free@ == post.free@.push(s))
        &&& !post.free@.contains(s)
    }

    /// Linking a fresh node in at the positions a lower-bound descent found
    /// keeps the invariant and adds the entry to the map.
    #[verifier::rlimit(50)]
    proof fn lemma_linked_in(
        pre: Self,
        post: Self,
        key: i32,
        val: V,
        level: usize,
        s: usize,
        ups: Seq<Option<usize>>,
        cuts: Seq<int>,
    )
        requires
            Self::linked_in(pre, post, key, val, level, s, ups, cuts),
        ensures
            post.wf(),
            post@ == pre@.insert(key, val),
    {
        let pl = pre.levels@;
        let ql = post.levels@;
        let mh = pre.max_height as int;
        // the fresh slot is on no level
        assert forall|i: int, j: int| 0 <= i < mh && 0 <= j < pl[i].len() implies #[trigger] pl[i][j] != s by {
            assert(pre.node_ok(i, j));
        }
        // old level nodes keep their key
        assert forall|i: int, j: int| 0 <= i < mh && 0 <= j < pl[i].len() implies post.key_at(#[trigger] pl[i][j])
            == pre.key_at(pl[i][j]) && post.nodes@[pl[i][j] as int] is Some by {
            assert(pre.node_ok(i, j));
            assert(pl[i][j] != s);
        }
        // where the key falls on each level
        assert forall|i: int, j: int| 0 <= i < mh && 0 <= j < pl[i].len() implies (j < cuts[i] ==> pre.key_at(
            #[trigger] pl[i][j],
        ) < key) && (j >= cuts[i] ==> pre.key_at(pl[i][j]) > key) by {
            assert(pre.cut_ok(i, key, false, cuts[i]));
            assert(pre.node_ok(i, j));
            let n = pl[i][j];
            let j0 = choose|j0: int| 0 <= j0 < pl[0].len() && pl[0][j0] == n;
            pre.lemma_view_at(j0);
        }
        // every old member of level 0 is still there
        assert forall|i: int, j: int| 0 <= i < mh && 0 <= j < pl[i].len() implies ql[0].contains(#[trigger] pl[i][j]) by {
            assert(pre.node_ok(i, j));
            let n = pl[i][j];
            let j0 = choose|j0: int| 0 <= j0 < pl[0].len() && pl[0][j0] == n;
            assert(pl[0][j0] == n);
            if j0 < cuts[0] {
                assert(ql[0][j0] == n);
            } else {
                assert(ql[0][j0 + 1] == n);
            }
        }
        assert(ql[0][cuts[0]] == s);
        assert forall|i: int, j: int| 0 <= i < mh && 0 <= j < ql[i].len() implies #[trigger] post.node_ok(i, j) by {
            let n = ql[i][j];
            if i < level {
                let c = cuts[i];
                assert(pre.cut_ok(i, key, false, c));
                if j < c {
                    assert(n == pl[i][j]);
                    assert(pre.node_ok(i, j));
                    if j == c - 1 {
                        assert(ups[i] == Some(n));
                    } else {
                        if ups[i] == Some(n) {
                            pre.lemma_distinct(i, j, c - 1);
                        }
                        assert(ql[i][j + 1] == pl[i][j + 1]);
                    }
                } else if j == c {
                    assert(n == s);
                    assert(post.nd(s).forwards@[i] == at(pl[i], c));
                    if c < pl[i].len() {
                        assert(ql[i][c + 1] == pl[i][c]);
                    }
                } else {
                    assert(n == pl[i][j - 1]);
                    assert(pre.node_ok(i, j - 1));
                    if ups[i] == Some(n) {
                        pre.lemma_distinct(i, j - 1, c - 1);
                    }
                    if j < pl[i].len() {
                        assert(ql[i][j + 1] == pl[i][j]);
                    }
                }
            } else {
                assert(ql[i] == pl[i]);
                assert(pre.node_ok(i, j));
                assert(n != s);
            }
        }
        assert forall|i: int| 0 <= i < mh implies #[trigger] post.head@[i] == at(ql[i], 0) by {
            if i < level {
                if cuts[i] > 0 {
                    assert(ql[i][0] == pl[i][0]);
                }
            }
        }
        assert forall|i: int, j: int, k: int|
            0 <= i < mh && 0 <= j < k < ql[i].len() implies post.key_at(#[trigger] ql[i][j]) < post.key_at(
            #[trigger] ql[i][k],
        ) by {
            if i < level {
                let c = cuts[i];
                if j < c && k < c {
                    assert(pre.key_at(pl[i][j]) < pre.key_at(pl[i][k]));
                } else if j < c && k == c {
                } else if j < c {
                    assert(ql[i][k] == pl[i][k - 1]);
                } else if j == c {
                    assert(ql[i][k] == pl[i][k - 1]);
                } else {
                    assert(ql[i][j] == pl[i][j - 1]);
                    assert(ql[i][k] == pl[i][k - 1]);
                    assert(pre.key_at(pl[i][j - 1]) < pre.key_at(pl[i][k - 1]));
                }
            } else {
                assert(pre.key_at(pl[i][j]) < pre.key_at(pl[i][k]));
            }
        }
        assert forall|i: int, j: int|
            0 <= i < mh && 0 <= j < ql[0].len() && i < post.nd(#[trigger] ql[0][j]).forwards@.len() implies #[trigger] ql[i].contains(
            ql[0][j],
        ) by {
            let n = ql[0][j];
            if n == s {
                assert(ql[i][cuts[i]] == s);
            } else {
                let j1 = if j < cuts[0] {
                    j
                } else {
                    j - 1
                };
                assert(n == pl[0][j1]);
                assert(pre.node_ok(0, j1));
                assert(pl[i].contains(n));
                let k = choose|k: int| 0 <= k < pl[i].len() && pl[i][k] == n;
                if i < level {
                    if k < cuts[i] {
                        assert(ql[i][k] == n);
                    } else {
                        assert(ql[i][k + 1] == n);
                    }
                } else {
                    assert(ql[i][k] == n);
                }
            }
        }
        assert forall|i: int| post.height <= i < mh implies #[trigger] ql[i].len() == 0 by {
        }
        if pre.free@ == post.free@.push(s) {
            assert forall|k: int| 0 <= k < post.free@.len() implies (#[trigger] post.free@[k] as int) < post.nodes@.len()
                && post.nodes@[post.free@[k] as int] is None by {
                assert(pre.free@[k] == post.free@[k]);
                assert(pre.free@[pre.free@.len() - 1] == s);
                assert(pre.free@[k] != s);
                let f = post.free@[k];
                assert(pre.nodes@[f as int] is None);
            }
            assert(post.free@ =~= pre.free@.drop_last());
        } else {
            assert forall|k: int| 0 <= k < post.free@.len() implies (#[trigger] post.free@[k] as int) < post.nodes@.len()
                && post.nodes@[post.free@[k] as int] is None by {
                assert(pre.free@[k] == post.free@[k]);
                assert(post.free@[k] != s);
                let f = post.free@[k];
                assert(pre.nodes@[f as int] is None);
            }
        }
        assert(post.wf());
        assert forall|k: i32| post@.contains_key(k) <==> pre@.insert(key, val).contains_key(k) by {
            if post@.contains_key(k) {
                let j = post.lemma_view_key(k);
                if ql[0][j] != s {
                    let j1 = if j < cuts[0] {
                        j
                    } else {
                        j - 1
                    };
                    assert(ql[0][j] == pl[0][j1]);
                    pre.lemma_view_at(j1);
                }
            }
            if pre@.contains_key(k) {
                let j = pre.lemma_view_key(k);
                if j < cuts[0] {
                    assert(ql[0][j] == pl[0][j]);
                    post.lemma_view_at(j);
                } else {
                    assert(ql[0][j + 1] == pl[0][j]);
                    post.lemma_view_at(j + 1);
                }
            }
            if k == key {
                post.lemma_view_at(cuts[0]);
            }
        }
        assert forall|k: i32| #[trigger] post@.contains_key(k) implies post@[k] == pre@.insert(key, val)[k] by {
            let j = post.lemma_view_key(k);
            post.lemma_view_at(j);
            if ql[0][j] != s {
                let j1 = if j < cuts[0] {
                    j
                } else {
                    j - 1
                };
                let n = pl[0][j1];
                assert(ql[0][j] == n);
                assert(pre.node_ok(0, j1));
                assert(post.nd(n).key == pre.nd(n).key);
                pre.lemma_view_at(j1);
                assert(k != key);
            }
        }
        assert(post@ =~= pre@.insert(key, val));
    }
}

impl<V> SkipListMap<V> {
    /// Allocates a node for `key` of height `level` and links it in after the
    /// nodes that a lower-bound descent recorded.
    fn link_new(&mut self, key: i32, val: V, level: usize, updates: &Vec<Option<usize>>, cuts: Ghost<Seq<int>>)
        requires
            old(self).wf(),
            1 <= level <= old(self).max_height,
            !old(self)@.contains_key(key),
            updates@.len() == old(self).max_height,
            cuts@.len() == old(self).max_height,
            forall|i: int|
                0 <= i < old(self).max_height ==> old(self).cut_ok(i, key, false, #[trigger] cuts@[i])
                    && updates@[i] == at(old(self).levels@[i], cuts@[i] - 1),
        ensures
            final(self).wf(),
            final(self)@ == old(self)@.insert(key, val),
            final(self).len == old(self).len + 1,
            final(self).height == if level > old(self).height {
                level
            } else {
                old(self).height
            },
            final(self).max_height == old(self).max_height,
            final(self).key_height(key) == level,
            forall|k: i32|
                k != key && old(self)@.contains_key(k) ==> final(self).key_height(k) == old(self).key_height(k),
    {
        let ghost pre = *self;
        let ghost cs = cuts@;
        let cap = self.nodes.len();
        proof {
            self.lemma_chain_fits();
            assert forall|i: int, j: int|
                0 <= i < pre.max_height && 0 <= j < pre.levels@[i].len() implies (#[trigger] pre.levels@[i][j]
                as int) < pre.nodes@.len() && pre.nodes@[pre.levels@[i][j] as int] is Some by {
                assert(pre.node_ok(i, j));
            }
        }
        let mut node = SkipListNode::new(key, val, level);
        let mut i: usize = 0;
        while i < level
            invariant
                *self == pre,
                pre.wf(),
                1 <= level <= pre.max_height,
                i <= level,
                updates@.len() == pre.max_height,
                cs.len() == pre.max_height,
                forall|i: int|
                    0 <= i < pre.max_height ==> pre.cut_ok(i, key, false, #[trigger] cs[i]) && updates@[i] == at(
                        pre.levels@[i],
                        cs[i] - 1,
                    ),
                node.key == key,
                node.val == val,
                node.forwards@.len() == level,
                forall|l: int| 0 <= l < i ==> #[trigger] node.forwards@[l] == at(pre.levels@[l], cs[l]),
            decreases level - i,
        {
            proof {
                let c = cs[i as int];
                assert(pre.cut_ok(i as int, key, false, c));
                if c >= 1 {
                    assert(pre.node_ok(i as int, c - 1));
                }
            }
            let nx = self.link_of(updates[i], i);
            node.forwards.set(i, nx);
            i += 1;
        }
        if level > self.height {
            self.height = level;
        }
        let s: usize = match self.free.pop() {
            Some(f) => {
                proof {
                    assert(pre.free@[pre.free@.len() - 1] == f);
                }
                self.nodes.set(f, Some(node));
                f
            },
            None => {
                self.nodes.push(Some(node));
                self.nodes.len() - 1
            },
        };
        let ghost mid = *self;
        proof {
            assert forall|i: int, j: int| 0 <= i < pre.max_height && 0 <= j < pre.levels@[i].len() implies #[trigger] pre.levels@[i][j]
                != s by {
                assert(pre.node_ok(i, j));
            }
            if pre.free@.len() > 0 {
                assert(self.free@ =~= pre.free@.drop_last());
                assert(pre.free@ =~= self.free@.push(s));
                assert forall|k: int| 0 <= k < self.free@.len() implies #[trigger] self.free@[k] != s by {
                    assert(pre.free@[k] == self.free@[k]);
                }
            } else {
                assert(self.free@.len() == 0);
            }
        }
        let mut tg: Vec<Option<usize>> = Vec::new();
        let mut i: usize = 0;
        while i < level
            invariant
                i <= level,
                tg@ == Seq::new(i as nat, |l: int| Some(s)),
            decreases level - i,
        {
            tg.push(Some(s));
            i += 1;
            assert(tg@ =~= Seq::new(i as nat, |l: int| Some(s)));
        }
        proof {
            assert forall|l: int| 0 <= l < tg@.len() implies (#[trigger] updates@[l] matches Some(n) ==> (n as int)
                < mid.nodes@.len() && mid.nodes@[n as int] is Some && l < mid.nd(n).forwards@.len()) by {
                if updates@[l] is Some {
                    let c = cs[l];
                    assert(pre.cut_ok(l, key, false, c));
                    assert(pre.node_ok(l, c - 1));
                    let n = updates@[l].unwrap();
                    assert(n != s);
                    assert(mid.nodes@[n as int] == pre.nodes@[n as int]);
                }
            }
        }
        self.relink(updates, &tg);
        let ghost rl = *self;
        proof {
            assert(pre.len < self.nodes@.len());
        }
        self.len = self.len + 1;
        self.levels = Ghost(levels_with(pre.levels@, cs, level as int, s));
        proof {
            let post = *self;
            assert(post.nodes == rl.nodes);
            assert(post.head == rl.head);
            assert(rl.nd(s).key == mid.nd(s).key);
            assert forall|l: int| 0 <= l < level implies #[trigger] post.nd(s).forwards@[l] == at(pre.levels@[l], cs[l]) by {
                assert(rl.nd(s).forwards@[l] == post.nd(s).forwards@[l]);
                assert(mid.nd(s).forwards@[l] == at(pre.levels@[l], cs[l]));
                if updates@[l] == Some(s) {
                    let c = cs[l];
                    assert(pre.cut_ok(l, key, false, c));
                    assert(pre.levels@[l][c - 1] != s);
                }
            }
            assert forall|x: usize|
                #![trigger post.nodes@[x as int]]
                (x as int) < pre.nodes@.len() && x != s && pre.nodes@[x as int] is Some implies post.nodes@[x as int] is Some
                    && post.nd(x).key == pre.nd(x).key
                    && post.nd(x).val == pre.nd(x).val
                    && post.nd(x).forwards@.len() == pre.nd(x).forwards@.len()
                    && (forall|l: int|
                        0 <= l < post.nd(x).forwards@.len() ==> #[trigger] post.nd(x).forwards@[l] == if l
                            < level && updates@[l] == Some(x) {
                            Some(s)
                        } else {
                            pre.nd(x).forwards@[l]
                        }) by {
                assert(mid.nodes@[x as int] == pre.nodes@[x as int]);
                assert(mid.nodes@[x as int] is Some);
                assert(rl.nd(x).key == mid.nd(x).key);
                assert forall|l: int| 0 <= l < post.nd(x).forwards@.len() implies #[trigger] post.nd(x).forwards@[l]
                    == if l < level && updates@[l] == Some(x) {
                    Some(s)
                } else {
                    pre.nd(x).forwards@[l]
                } by {
                    assert(rl.nd(x).forwards@[l] == post.nd(x).forwards@[l]);
                    if l < level && updates@[l] == Some(x) {
                        assert(tg@[l] == Some(s));
                    }
                }
            }
            assert forall|x: usize|
                (x as int) < pre.nodes@.len() && x != s && pre.nodes@[x as int] is None implies #[trigger] post.nodes@[x as int] is None by {
                assert(mid.nodes@[x as int] == pre.nodes@[x as int]);
            }
            assert forall|l: int|
                0 <= l < pre.max_height implies #[trigger] post.head@[l] == if l < level && updates@[l] is None {
                    Some(s)
                } else {
                    pre.head@[l]
                } by {
                assert(rl.head@[l] == post.head@[l]);
                if l < level && updates@[l] is None {
                    assert(tg@[l] == Some(s));
                }
            }
            assert(post.nodes@[s as int] is Some);
            assert(post.nd(s).key == mid.nd(s).key);
            Self::lemma_linked_in(pre, post, key, val, level, s, updates@, cs);
            Self::lemma_linked_heights(pre, post, key, val, level, s, updates@, cs);
        }
    }

    /// Writes `val` into the node in slot `n`.
    fn set_val(&mut self, n: usize, val: V)
        requires
            old(self).wf(),
            (n as int) < old(self).nodes@.len(),
            old(self).nodes@[n as int] is Some,
            old(self).levels@[0].contains(n),
        ensures
            final(self).wf(),
            final(self)@ == old(self)@.insert(old(self).key_at(n), val),
            final(self).len == old(self).len,
            final(self).height == old(self).height,
            final(self).max_height == old(self).max_height,
            final(self).spec_slots() == old(self).spec_slots(),
            forall|k: i32| old(self)@.contains_key(k) ==> #[trigger] final(self).key_height(k) == old(self).key_height(k),
    {
        let ghost pre = *self;
        match &mut self.nodes[n] {
            Some(node) => {
                node.val = val;
            },
            None => {},
        }
        proof {
            let post = *self;
            let ch = pre.levels@[0];
            let k = pre.key_at(n);
            let jn = choose|j: int| 0 <= j < ch.len() && ch[j] == n;
            assert(ch[jn] == n);
            assert forall|x: usize| (x as int) < post.nodes@.len() && x != n implies #[trigger] post.nodes@[x as int]
                == pre.nodes@[x as int] by {
            }
            assert forall|i: int, j: int| 0 <= i < post.max_height && 0 <= j < post.levels@[i].len() implies #[trigger] post.node_ok(i, j) by {
                assert(pre.node_ok(i, j));
            }
            assert forall|i: int, j: int, k: int|
                0 <= i < post.max_height && 0 <= j < k < post.levels@[i].len() implies post.key_at(#[trigger] post.levels@[i][j]) < post.key_at(
                #[trigger] post.levels@[i][k],
            ) by {
                assert(pre.node_ok(i, j));
                assert(pre.node_ok(i, k));
                assert(pre.key_at(pre.levels@[i][j]) < pre.key_at(pre.levels@[i][k]));
            }
            assert forall|i: int, j: int|
                0 <= i < post.max_height && 0 <= j < ch.len() && i < post.nd(#[trigger] ch[j]).forwards@.len() implies #[trigger] post.levels@[i].contains(
                ch[j],
            ) by {
                assert(pre.node_ok(0, j));
            }
            assert forall|q: int| 0 <= q < post.free@.len() implies (#[trigger] post.free@[q] as int) < post.nodes@.len()
                && post.nodes@[post.free@[q] as int] is None by {
                let f = post.free@[q];
                assert(pre.nodes@[f as int] is None);
            }
            assert(post.wf());
            assert forall|k2: i32| post@.contains_key(k2) <==> pre@.insert(k, val).contains_key(k2) by {
                if post@.contains_key(k2) {
                    let j = post.lemma_view_key(k2);
                    assert(pre.node_ok(0, j));
                    pre.lemma_view_at(j);
                }
                if pre@.contains_key(k2) {
                    let j = pre.lemma_view_key(k2);
                    assert(pre.node_ok(0, j));
                    post.lemma_view_at(j);
                }
                if k2 == k {
                    post.lemma_view_at(jn);
                }
            }
            assert forall|k2: i32| #[trigger] post@.contains_key(k2) implies post@[k2] == pre@.insert(k, val)[k2] by {
                let j = post.lemma_view_key(k2);
                post.lemma_view_at(j);
                assert(pre.node_ok(0, j));
                if ch[j] != n {
                    pre.lemma_view_at(j);
                } else {
                }
            }
            assert(post@ =~= pre@.insert(k, val));
            assert forall|k2: i32| pre@.contains_key(k2) implies #[trigger] post.key_height(k2) == pre.key_height(k2) by {
                let j = pre.lemma_view_key(k2);
                pre.lemma_slot(j);
                assert(pre.node_ok(0, j));
                post.lemma_slot(j);
            }
        }
    }

    /// Inserts `key` with `val`, or overwrites the value when `key` is
    /// already stored. A new node gets a height from `random_level`.
    pub fn insert(&mut self, key: i32, val: V)
        requires
            old(self).wf(),
        ensures
            final(self).wf(),
            final(self)@ == old(self)@.insert(key, val),
            final(self).spec_len() == old(self).spec_len() + if old(self)@.contains_key(key) {
                0int
            } else {
                1int
            },
            old(self)@.contains_key(key) ==> final(self).spec_height() == old(self).spec_height(),
            old(self).spec_height() <= final(self).spec_height() <= final(self).spec_max_height(),
            final(self).spec_max_height() == old(self).spec_max_height(),
            forall|k: i32|
                k != key && old(self)@.contains_key(k) ==> #[trigger] final(self).key_height(k) == old(self).key_height(k),
            old(self)@.contains_key(key) ==> final(self).key_height(key) == old(self).key_height(key)
                && final(self).spec_slots() == old(self).spec_slots(),
            !old(self)@.contains_key(key) ==> exists|d: Seq<u32>|
                #[trigger] drawn_level(d, old(self).spec_max_height() as int, final(self).key_height(key) as int),
            !old(self)@.contains_key(key) ==> final(self).spec_height() == (if old(self).spec_height()
                < final(self).key_height(key) {
                final(self).key_height(key)
            } else {
                old(self).spec_height()
            }),
    {
        let (updates, cuts) = self.descend(key, false);
        let ghost cs = cuts@;
        proof {
            let c = cs[0];
            assert(self.cut_ok(0, key, false, c));
            if c >= 1 {
                assert(self.node_ok(0, c - 1));
            }
            if c < self.levels@[0].len() {
                assert(self.node_ok(0, c));
            }
            self.lemma_cut(key, false, c);
        }
        let next = self.link_of(updates[0], 0);
        if let Some(n) = next {
            if self.key_of(n) == key {
                self.set_val(n, val);
                return;
            }
        }
        let ghost before = *self;
        let level = random_level(&mut self.rand, self.max_height);
        let ghost d = choose|d: Seq<u32>| drawn_level(d, before.max_height as int, level as int);
        proof {
            Self::lemma_frame(before, *self, key);
        }
        self.link_new(key, val, level, &updates, cuts);
        proof {
            assert(drawn_level(d, before.spec_max_height() as int, self.key_height(key) as int));
        }
    }

    /// Inserts as [`SkipListMap::insert`] does, with `level` in place of a
    /// random height for a new node.
    pub fn insert_with_level(&mut self, key: i32, val: V, level: usize)
        requires
            old(self).wf(),
            1 <= level <= old(self).spec_max_height(),
        ensures
            final(self).wf(),
            final(self)@ == old(self)@.insert(key, val),
            final(self).spec_len() == old(self).spec_len() + if old(self)@.contains_key(key) {
                0int
            } else {
                1int
            },
            final(self).spec_height() == if old(self)@.contains_key(key) || level <= old(self).spec_height() {
                old(self).spec_height()
            } else {
                level as nat
            },
            final(self).spec_max_height() == old(self).spec_max_height(),
            forall|k: i32|
                k != key && old(self)@.contains_key(k) ==> #[trigger] final(self).key_height(k) == old(self).key_height(k),
            old(self)@.contains_key(key) ==> final(self).key_height(key) == old(self).key_height(key)
                && final(self).spec_slots() == old(self).spec_slots(),
            !old(self)@.contains_key(key) ==> final(self).key_height(key) == level,
    {
        let (updates, cuts) = self.descend(key, false);
        let ghost cs = cuts@;
        proof {
            let c = cs[0];
            assert(self.cut_ok(0, key, false, c));
            if c >= 1 {
                assert(self.node_ok(0, c - 1));
            }
            if c < self.levels@[0].len() {
                assert(self.node_ok(0, c));
            }
            self.lemma_cut(key, false, c);
        }
        let next = self.link_of(updates[0], 0);
        if let Some(n) = next {
            if self.key_of(n) == key {
                self.set_val(n, val);
                return;
            }
        }
        self.link_new(key, val, level, &updates, cuts);
    }
}

impl<V> SkipListMap<V> {
    /// `post` is `pre` with the node in slot `t`, found by a lower-bound
    /// descent for its key, unlinked from every level it was on and freed.
    spec fn unlinked(pre: Self, post: Self, key: i32, t: usize, ups: Seq<Option<usize>>, cuts: Seq<int>) -> bool {
        let ht = pre.nd(t).forwards@.len();
        &&& pre.wf()
        &&& ups.len() == pre.max_height
        &&& cuts.len() == pre.max_height
        &&& forall|i: int|
            0 <= i < pre.max_height ==> pre.cut_ok(i, key, false, #[trigger] cuts[i]) && ups[i] == at(
                pre.levels@[i],
                cuts[i] - 1,
            )
        &&& at(pre.levels@[0], cuts[0]) == Some(t)
        &&& pre.key_at(t) == key
        &&& post.nodes@.len() == pre.nodes@.len()
        &&& post.nodes@[t as int] is None
        &&& forall|x: usize|
            #![trigger post.nodes@[x as int]]
            (x as int) < pre.nodes@.len() && x != t && pre.nodes@[x as int] is Some ==> {
                &&& post.nodes@[x as int] is Some
                &&& post.nd(x).key == pre.nd(x).key
                &&& post.nd(x).val == pre.nd(x).val
                &&& post.nd(x).forwards@.len() == pre.nd(x).forwards@.len()
                &&& forall|l: int|
                    0 <= l < post.nd(x).forwards@.len() ==> #[trigger] post.nd(x).forwards@[l] == if l < ht
                        && ups[l] == Some(x) {
                        pre.nd(t).forwards@[l]
                    } else {
                        pre.nd(x).forwards@[l]
                    }
            }
        &&& forall|x: usize|
            (x as int) < pre.nodes@.len() && x != t && pre.nodes@[x as int] is None ==> #[trigger] post.nodes@[x as int] is None
        &&& post.head@.len() == pre.head@.len()
        &&& forall|l: int|
            0 <= l < pre.max_height ==> #[trigger] post.head@[l] == if l < ht && ups[l] is None {
                pre.nd(t).forwards@[l]
            } else {
                pre.head@[l]
            }
        &&& post.max_height == pre.max_height
        &&& post.height == pre.height
        &&& post.len == pre.len - 1
        &&& post.levels@ == levels_without(pre.levels@, cuts, ht as int)
        &&& post.free@ == pre.free@.push(t)
    }

    /// Unlinking a node found by a lower-bound descent keeps the invariant
    /// and removes its key from the map.
    #[verifier::rlimit(50)]
    proof fn lemma_unlinked(pre: Self, post: Self, key: i32, t: usize, ups: Seq<Option<usize>>, cuts: Seq<int>)
        requires
            Self::unlinked(pre, post, key, t, ups, cuts),
        ensures
            post.wf(),
            post@ == pre@.remove(key),
    {
        let pl = pre.levels@;
        let ql = post.levels@;
        let mh = pre.max_height as int;
        let ht = pre.nd(t).forwards@.len() as int;
        assert(pre.cut_ok(0, key, false, cuts[0]));
        assert(pre.node_ok(0, cuts[0]));
        // the target sits at the cut of every level it is on, and on no other
        assert forall|i: int| 0 <= i < ht implies #[trigger] cuts[i] < pl[i].len() && pl[i][cuts[i]] == t by {
            pre.lemma_on_level(0, cuts[0], i);
            let p = choose|p: int| 0 <= p < pl[i].len() && pl[i][p] == t;
            assert(pre.cut_ok(i, key, false, cuts[i]));
            if p < cuts[i] {
                assert(passes(pre.key_at(pl[i][p]), key, false));
            } else if p > cuts[i] {
                assert(pre.key_at(pl[i][cuts[i]]) < pre.key_at(pl[i][p]));
            }
        }
        assert forall|i: int, j: int| ht <= i < mh && 0 <= j < pl[i].len() implies #[trigger] pl[i][j] != t by {
            assert(pre.node_ok(i, j));
        }
        assert forall|i: int, j: int| 0 <= i < ht && 0 <= j < pl[i].len() && j != cuts[i] implies #[trigger] pl[i][j] != t by {
            pre.lemma_distinct(i, j, cuts[i]);
        }
        // nodes that stay keep their key
        assert forall|i: int, j: int| 0 <= i < mh && 0 <= j < pl[i].len() && pl[i][j] != t implies post.key_at(
            #[trigger] pl[i][j],
        ) == pre.key_at(pl[i][j]) && post.nodes@[pl[i][j] as int] is Some by {
            assert(pre.node_ok(i, j));
        }
        assert forall|i: int, j: int| 0 <= i < mh && 0 <= j < ql[i].len() implies #[trigger] ql[i][j] != t && ql[i][j]
            == pl[i][if i < ht && j >= cuts[i] {
            j + 1
        } else {
            j
        }] by {
            if i < ht {
                if j >= cuts[i] {
                    assert(pl[i][j + 1] != t);
                } else {
                    assert(pl[i][j] != t);
                }
            } else {
                assert(pl[i][j] != t);
            }
        }
        assert forall|i: int, j: int| 0 <= i < mh && 0 <= j < ql[i].len() implies #[trigger] post.node_ok(i, j) by {
            let n = ql[i][j];
            if i < ht {
                let c = cuts[i];
                assert(pre.cut_ok(i, key, false, c));
                if j < c {
                    assert(n == pl[i][j]);
                    assert(pre.node_ok(i, j));
                    if j == c - 1 {
                        assert(ups[i] == Some(n));
                        assert(pre.node_ok(i, c));
                        if c + 1 < pl[i].len() {
                            assert(ql[i][c] == pl[i][c + 1]);
                        }
                    } else {
                        if ups[i] == Some(n) {
                            pre.lemma_distinct(i, j, c - 1);
                        }
                        assert(ql[i][j + 1] == pl[i][j + 1]);
                    }
                } else {
                    assert(n == pl[i][j + 1]);
                    assert(pre.node_ok(i, j + 1));
                    if ups[i] == Some(n) {
                        pre.lemma_distinct(i, j + 1, c - 1);
                    }
                    if j + 2 < pl[i].len() {
                        assert(ql[i][j + 1] == pl[i][j + 2]);
                    }
                }
            } else {
                assert(ql[i] == pl[i]);
                assert(pre.node_ok(i, j));
            }
            let j0 = choose|j0: int| 0 <= j0 < pl[0].len() && pl[0][j0] == n;
            assert(pl[0][j0] == n);
            if j0 < cuts[0] {
                assert(ql[0][j0] == n);
            } else {
                assert(j0 != cuts[0]);
                assert(ql[0][j0 - 1] == n);
            }
        }
        assert forall|i: int| 0 <= i < mh implies #[trigger] post.head@[i] == at(ql[i], 0) by {
            if i < ht {
                if cuts[i] == 0 {
                    assert(pre.node_ok(i, 0));
                    if 1 < pl[i].len() {
                        assert(ql[i][0] == pl[i][1]);
                    }
                } else {
                    assert(ql[i][0] == pl[i][0]);
                }
            }
        }
        assert forall|i: int, j: int, k: int|
            0 <= i < mh && 0 <= j < k < ql[i].len() implies post.key_at(#[trigger] ql[i][j]) < post.key_at(
            #[trigger] ql[i][k],
        ) by {
            let j1 = if i < ht && j >= cuts[i] {
                j + 1
            } else {
                j
            };
            let k1 = if i < ht && k >= cuts[i] {
                k + 1
            } else {
                k
            };
            assert(pre.key_at(pl[i][j1]) < pre.key_at(pl[i][k1]));
        }
        assert forall|i: int, j: int|
            0 <= i < mh && 0 <= j < ql[0].len() && i < post.nd(#[trigger] ql[0][j]).forwards@.len() implies #[trigger] ql[i].contains(
            ql[0][j],
        ) by {
            let n = ql[0][j];
            let j1 = if j >= cuts[0] {
                j + 1
            } else {
                j
            };
            assert(n == pl[0][j1]);
            assert(pre.node_ok(0, j1));
            assert(pl[i].contains(n));
            let k = choose|k: int| 0 <= k < pl[i].len() && pl[i][k] == n;
            if i < ht {
                if k < cuts[i] {
                    assert(ql[i][k] == n);
                } else {
                    assert(k != cuts[i]);
                    assert(ql[i][k - 1] == n);
                }
            } else {
                assert(ql[i][k] == n);
            }
        }
        assert forall|i: int| post.height <= i < mh implies #[trigger] ql[i].len() == 0 by {
            if i < ht {
                assert(pre.node_ok(i, cuts[i]));
            }
        }
        assert forall|k: int| 0 <= k < post.free@.len() implies (#[trigger] post.free@[k] as int) < post.nodes@.len()
            && post.nodes@[post.free@[k] as int] is None by {
            if k < pre.free@.len() {
                assert(pre.free@[k] == post.free@[k]);
                let f = post.free@[k];
                assert(pre.nodes@[f as int] is None);
                assert(f != t);
            }
        }
        assert(!pre.free@.contains(t)) by {
            if pre.free@.contains(t) {
                let k = choose|k: int| 0 <= k < pre.free@.len() && pre.free@[k] == t;
                assert(pre.nodes@[pre.free@[k] as int] is None);
            }
        }
        assert(post.free@.no_duplicates()) by {
            assert forall|a: int, b: int| 0 <= a < b < post.free@.len() implies post.free@[a] != post.free@[b] by {
                if b == pre.free@.len() {
                    assert(pre.free@[a] == post.free@[a]);
                } else {
                    assert(pre.free@[a] == post.free@[a]);
                    assert(pre.free@[b] == post.free@[b]);
                }
            }
        }
        assert(post.wf());
        assert forall|k: i32| post@.contains_key(k) <==> pre@.remove(key).contains_key(k) by {
            if post@.contains_key(k) {
                let j = post.lemma_view_key(k);
                let j1 = if j >= cuts[0] {
                    j + 1
                } else {
                    j
                };
                assert(ql[0][j] == pl[0][j1]);
                pre.lemma_view_at(j1);
                pre.lemma_distinct(0, j1, cuts[0]);
                if j1 < cuts[0] {
                    assert(pre.key_at(pl[0][j1]) < pre.key_at(pl[0][cuts[0]]));
                } else {
                    assert(pre.key_at(pl[0][cuts[0]]) < pre.key_at(pl[0][j1]));
                }
            }
            if pre@.contains_key(k) && k != key {
                let j = pre.lemma_view_key(k);
                if j < cuts[0] {
                    assert(ql[0][j] == pl[0][j]);
                    post.lemma_view_at(j);
                } else {
                    assert(j != cuts[0]);
                    assert(ql[0][j - 1] == pl[0][j]);
                    post.lemma_view_at(j - 1);
                }
            }
        }
        assert forall|k: i32| #[trigger] post@.contains_key(k) implies post@[k] == pre@.remove(key)[k] by {
            let j = post.lemma_view_key(k);
            post.lemma_view_at(j);
            let j1 = if j >= cuts[0] {
                j + 1
            } else {
                j
            };
            let n = pl[0][j1];
            assert(ql[0][j] == n);
            assert(pre.node_ok(0, j1));
            pre.lemma_view_at(j1);
        }
        assert(post@ =~= pre@.remove(key));
    }

    /// Unlinks the node in slot `t` from every level it is on and frees its slot.
    fn unlink(&mut self, key: i32, t: usize, updates: &Vec<Option<usize>>, cuts: Ghost<Seq<int>>)
        requires
            old(self).wf(),
            updates@.len() == old(self).max_height,
            cuts@.len() == old(self).max_height,
            forall|i: int|
                0 <= i < old(self).max_height ==> old(self).cut_ok(i, key, false, #[trigger] cuts@[i])
                    && updates@[i] == at(old(self).levels@[i], cuts@[i] - 1),
            at(old(self).levels@[0], cuts@[0]) == Some(t),
            old(self).key_at(t) == key,
        ensures
            final(self).wf(),
            final(self)@ == old(self)@.remove(key),
            final(self).len == old(self).len - 1,
            final(self).height == old(self).height,
            final(self).max_height == old(self).max_height,
    {
        let ghost pre = *self;
        let ghost cs = cuts@;
        proof {
            assert(pre.cut_ok(0, key, false, cs[0]));
            assert(pre.node_ok(0, cs[0]));
        }
        let removed = self.nodes[t].take();
        let node = match removed {
            Some(node) => node,
            None => {
                proof {
                    assert(false);
                }
                return ;
            },
        };
        let ghost mid = *self;
        proof {
            assert forall|x: usize| (x as int) < mid.nodes@.len() && x != t implies #[trigger] mid.nodes@[x as int]
                == pre.nodes@[x as int] by {
            }
            assert forall|l: int| 0 <= l < node.forwards@.len() implies (#[trigger] updates@[l] matches Some(n) ==> (n
                as int) < mid.nodes@.len() && mid.nodes@[n as int] is Some && l < mid.nd(n).forwards@.len()) by {
                if updates@[l] is Some {
                    let c = cs[l];
                    assert(pre.cut_ok(l, key, false, c));
                    assert(pre.node_ok(l, c - 1));
                    let n = updates@[l].unwrap();
                    pre.lemma_on_level(0, cs[0], l);
                    let p = choose|p: int| 0 <= p < pre.levels@[l].len() && pre.levels@[l][p] == t;
                    if p <= c - 1 {
                        assert(passes(pre.key_at(pre.levels@[l][p]), key, false));
                    }
                    pre.lemma_distinct(l, p, c - 1);
                    assert(mid.nodes@[n as int] == pre.nodes@[n as int]);
                }
            }
        }
        self.relink(updates, &node.forwards);
        let ghost rl = *self;
        self.free.push(t);
        self.len = self.len - 1;
        self.levels = Ghost(levels_without(pre.levels@, cs, node.forwards@.len() as int));
        proof {
            let post = *self;
            assert(post.nodes == rl.nodes);
            assert(post.head == rl.head);
            assert forall|x: usize|
                #![trigger post.nodes@[x as int]]
                (x as int) < pre.nodes@.len() && x != t && pre.nodes@[x as int] is Some implies post.nodes@[x as int] is Some
                    && post.nd(x).key == pre.nd(x).key
                    && post.nd(x).val == pre.nd(x).val
                    && post.nd(x).forwards@.len() == pre.nd(x).forwards@.len()
                    && (forall|l: int|
                        0 <= l < post.nd(x).forwards@.len() ==> #[trigger] post.nd(x).forwards@[l] == if l
                            < node.forwards@.len() && updates@[l] == Some(x) {
                            pre.nd(t).forwards@[l]
                        } else {
                            pre.nd(x).forwards@[l]
                        }) by {
                assert(mid.nodes@[x as int] == pre.nodes@[x as int]);
                assert(mid.nodes@[x as int] is Some);
                assert(rl.nd(x).key == mid.nd(x).key);
                assert forall|l: int| 0 <= l < post.nd(x).forwards@.len() implies #[trigger] post.nd(x).forwards@[l]
                    == if l < node.forwards@.len() && updates@[l] == Some(x) {
                    pre.nd(t).forwards@[l]
                } else {
                    pre.nd(x).forwards@[l]
                } by {
                    assert(rl.nd(x).forwards@[l] == post.nd(x).forwards@[l]);
                }
            }
            assert forall|x: usize|
                (x as int) < pre.nodes@.len() && x != t && pre.nodes@[x as int] is None implies #[trigger] post.nodes@[x as int] is None by {
                assert(mid.nodes@[x as int] == pre.nodes@[x as int]);
            }
            assert forall|l: int|
                0 <= l < pre.max_height implies #[trigger] post.head@[l] == if l < node.forwards@.len() && updates@[l] is None {
                    pre.nd(t).forwards@[l]
                } else {
                    pre.head@[l]
                } by {
                assert(rl.head@[l] == post.head@[l]);
            }
            assert(Self::unlinked(pre, post, key, t, updates@, cs));
            Self::lemma_unlinked(pre, post, key, t, updates@, cs);
        }
    }

    /// Removes `key` and its value; returns whether it was stored. An absent
    /// key leaves the map exactly as it was.
    pub fn erase(&mut self, key: i32) -> (found: bool)
        requires
            old(self).wf(),
        ensures
            final(self).wf(),
            found == old(self)@.contains_key(key),
            final(self)@ == old(self)@.remove(key),
            final(self).spec_len() == old(self).spec_len() - if found {
                1int
            } else {
                0int
            },
            final(self).spec_height() == old(self).spec_height(),
            final(self).spec_max_height() == old(self).spec_max_height(),
            !found ==> *final(self) == *old(self),
    {
        let (updates, cuts) = self.descend(key, false);
        let ghost cs = cuts@;
        proof {
            let c = cs[0];
            assert(self.cut_ok(0, key, false, c));
            if c >= 1 {
                assert(self.node_ok(0, c - 1));
            }
            if c < self.levels@[0].len() {
                assert(self.node_ok(0, c));
            }
            self.lemma_cut(key, false, c);
        }
        let next = self.link_of(updates[0], 0);
        match next {
            None => false,
            Some(t) => {
                if self.key_of(t) != key {
                    return false;
                }
                self.unlink(key, t, &updates, cuts);
                true
            },
        }
    }
}

impl<V> SkipListMap<V> {
    /// The entries in ascending key order, as the level-0 chain holds them.
    pub closed spec fn entries(&self) -> Seq<(i32, V)> {
        self.chain().map_values(|n: usize| (self.key_at(n), self.nd(n).val))
    }

    /// The keys in ascending order, by walking the level-0 chain.
    pub fn iter_key(&self) -> (r: Vec<i32>)
        requires
            self.wf(),
        ensures
            r@ == self.keys(),
    {
        let mut out: Vec<i32> = Vec::new();
        let mut cur: Option<usize> = self.head[0];
        let ghost ch = self.levels@[0];
        let ghost mut j: int = 0;
        while cur.is_some()
            invariant
                self.wf(),
                ch == self.levels@[0],
                0 <= j <= ch.len(),
                cur == at(ch, j),
                out@ == self.keys().subrange(0, j),
            decreases ch.len() - j,
        {
            let n = cur.unwrap();
            proof {
                assert(self.node_ok(0, j));
            }
            out.push(self.key_of(n));
            cur = self.link_of(cur, 0);
            proof {
                j = j + 1;
                assert(out@ =~= self.keys().subrange(0, j));
            }
        }
        assert(out@ =~= self.keys());
        out
    }

    /// The entries in ascending key order, by walking the level-0 chain.
    pub fn iter_key_val(&self) -> (r: Vec<(i32, &V)>)
        requires
            self.wf(),
        ensures
            r@.len() == self.entries().len(),
            forall|i: int| 0 <= i < r@.len() ==> (#[trigger] r@[i]).0 == self.entries()[i].0 && *r@[i].1 == self.entries()[i].1,
    {
        let mut out: Vec<(i32, &V)> = Vec::new();
        let mut cur: Option<usize> = self.head[0];
        let ghost ch = self.levels@[0];
        let ghost mut j: int = 0;
        while cur.is_some()
            invariant
                self.wf(),
                ch == self.levels@[0],
                0 <= j <= ch.len(),
                cur == at(ch, j),
                out@.len() == j,
                forall|i: int| 0 <= i < j ==> (#[trigger] out@[i]).0 == self.entries()[i].0 && *out@[i].1 == self.entries()[i].1,
            decreases ch.len() - j,
        {
            let n = cur.unwrap();
            proof {
                assert(self.node_ok(0, j));
            }
            match &self.nodes[n] {
                Some(node) => {
                    out.push((node.key, &node.val));
                },
                None => {},
            }
            cur = self.link_of(cur, 0);
            proof {
                j = j + 1;
            }
        }
        out
    }

    /// Keys along the level-0 chain strictly increase; they are the map's keys,
    /// and there are as many as the map has entries.
    pub proof fn lemma_keys_ascending(&self)
        requires
            self.wf(),
        ensures
            forall|i: int, j: int| 0 <= i < j < self.keys().len() ==> self.keys()[i] < self.keys()[j],
            self.keys().len() == self.spec_len(),
            forall|k: i32| self@.contains_key(k) <==> self.keys().contains(k),
            self.entries().len() == self.spec_len(),
            forall|i: int| 0 <= i < self.entries().len() ==> #[trigger] self.entries()[i] == (self.keys()[i], self@[self.keys()[i]]),
    {
        assert forall|k: i32| self@.contains_key(k) <==> self.keys().contains(k) by {
            if self@.contains_key(k) {
                let j = self.lemma_view_key(k);
                assert(self.keys()[j] == k);
            }
            if self.keys().contains(k) {
                let j = choose|j: int| 0 <= j < self.keys().len() && self.keys()[j] == k;
                self.lemma_view_at(j);
            }
        }
        assert forall|i: int| 0 <= i < self.entries().len() implies #[trigger] self.entries()[i] == (self.keys()[i], self@[self.keys()[i]]) by {
            self.lemma_view_at(i);
        }
    }

    /// The length counts the distinct keys: it is the size of the map's domain.
    pub proof fn lemma_len_is_key_count(&self)
        requires
            self.wf(),
        ensures
            self.spec_len() == self@.dom().len(),
    {
        self.lemma_keys_ascending();
        let ks = self.keys();
        assert(ks.no_duplicates()) by {
            assert forall|i: int, j: int| 0 <= i < ks.len() && 0 <= j < ks.len() && i != j implies ks[i] != ks[j] by {
                if i < j {
                    assert(ks[i] < ks[j]);
                } else {
                    assert(ks[j] < ks[i]);
                }
            }
        }
        ks.unique_seq_to_set();
        assert(self@.dom() =~= ks.to_set());
    }

    /// The levels in use never exceed the cap fixed at construction.
    pub proof fn lemma_height_bounded(&self)
        requires
            self.wf(),
        ensures
            self.spec_height() <= self.spec_max_height(),
    {
    }
}

/// After `insert(k, v)` the map holds `v` under `k`, so `get_key(k)` returns it.
pub proof fn law_insert_then_get<V>(before: &SkipListMap<V>, after: &SkipListMap<V>, k: i32, v: V)
    requires
        after@ == before@.insert(k, v),
    ensures
        after@.contains_key(k),
        after@[k] == v,
{
}

/// On an empty map no key has a lower or an upper bound, so both queries
/// return `None`.
pub proof fn law_empty_has_no_bounds<V>(m: &SkipListMap<V>, key: i32)
    requires
        m.wf(),
        m.spec_len() == 0,
    ensures
        forall|k: i32| !is_lower_bound(m@, key, k) && !is_upper_bound(m@, key, k),
{
    m.lemma_len_is_key_count();
    assert forall|k: i32| !m@.contains_key(k) by {
        if m@.contains_key(k) {
            assert(m@.dom().contains(k));
        }
    }
}

/// A key greater than every stored key has no lower bound: the query returns
/// `None`, not the sentinel.
pub proof fn law_lower_bound_past_end<V>(m: &SkipListMap<V>, key: i32)
    requires
        forall|k: i32| m@.contains_key(k) ==> k < key,
    ensures
        forall|k: i32| !is_lower_bound(m@, key, k),
{
}

impl<V> SkipListMap<V> {
    /// The slot whose node holds key `k`.
    spec fn slot_of(&self, k: i32) -> usize {
        self.levels@[0][choose|j: int| 0 <= j < self.levels@[0].len() && self.key_at(self.levels@[0][j]) == k]
    }

    /// How many levels the node of key `k` is on.
    pub closed spec fn key_height(&self, k: i32) -> nat {
        self.nd(self.slot_of(k)).forwards@.len()
    }

    /// Key `k` is on the chain of level `i`.
    pub closed spec fn on_level(&self, k: i32, i: int) -> bool {
        &&& 0 <= i < self.max_height
        &&& exists|t: int| 0 <= t < self.levels@[i].len() && self.key_at(#[trigger] self.levels@[i][t]) == k
    }

    /// Number of arena slots, freed ones included.
    pub closed spec fn spec_slots(&self) -> nat {
        self.nodes@.len()
    }

    proof fn lemma_slot(&self, j: int)
        requires
            self.wf(),
            0 <= j < self.levels@[0].len(),
        ensures
            self.slot_of(self.key_at(self.levels@[0][j])) == self.levels@[0][j],
    {
        let k = self.key_at(self.levels@[0][j]);
        assert(exists|j2: int| 0 <= j2 < self.levels@[0].len() && self.key_at(self.levels@[0][j2]) == k);
        let j2 = choose|j2: int| 0 <= j2 < self.levels@[0].len() && self.key_at(self.levels@[0][j2]) == k;
        if j2 < j {
            assert(self.key_at(self.levels@[0][j2]) < self.key_at(self.levels@[0][j]));
        } else if j < j2 {
            assert(self.key_at(self.levels@[0][j]) < self.key_at(self.levels@[0][j2]));
        }
    }

    /// A stored key's node is on exactly the levels below its height, and
    /// that height is between 1 and the cap.
    pub proof fn lemma_key_levels(&self, k: i32, i: int)
        requires
            self.wf(),
            self@.contains_key(k),
            0 <= i < self.spec_max_height(),
        ensures
            self.on_level(k, i) <==> i < self.key_height(k),
            1 <= self.key_height(k) <= self.spec_max_height(),
    {
        let j = self.lemma_view_key(k);
        self.lemma_slot(j);
        let n = self.levels@[0][j];
        assert(self.node_ok(0, j));
        if self.on_level(k, i) {
            let t = choose|t: int| 0 <= t < self.levels@[i].len() && self.key_at(self.levels@[i][t]) == k;
            assert(self.node_ok(i, t));
            let m = self.levels@[i][t];
            let j0 = choose|j0: int| 0 <= j0 < self.levels@[0].len() && self.levels@[0][j0] == m;
            self.lemma_slot(j0);
        }
        if i < self.key_height(k) {
            assert(self.levels@[i].contains(n));
            let t = choose|t: int| 0 <= t < self.levels@[i].len() && self.levels@[i][t] == n;
            assert(self.key_at(self.levels@[i][t]) == k);
        }
    }

    /// After linking in a node for `key` of height `level`, that key is on
    /// `level` levels and every other key keeps its height.
    proof fn lemma_linked_heights(
        pre: Self,
        post: Self,
        key: i32,
        val: V,
        level: usize,
        s: usize,
        ups: Seq<Option<usize>>,
        cuts: Seq<int>,
    )
        requires
            Self::linked_in(pre, post, key, val, level, s, ups, cuts),
            post.wf(),
        ensures
            post.key_height(key) == level,
            forall|k: i32| k != key && pre@.contains_key(k) ==> post.key_height(k) == pre.key_height(k),
    {
        let pl = pre.levels@[0];
        let ql = post.levels@[0];
        assert(ql[cuts[0]] == s);
        post.lemma_slot(cuts[0]);
        assert forall|k: i32| k != key && pre@.contains_key(k) implies post.key_height(k) == pre.key_height(k) by {
            let j = pre.lemma_view_key(k);
            pre.lemma_slot(j);
            let n = pl[j];
            assert(pre.node_ok(0, j));
            assert(n != s);
            let j2 = if j < cuts[0] {
                j
            } else {
                j + 1
            };
            assert(ql[j2] == n);
            assert(post.nodes@[n as int] is Some);
            assert(post.nd(n).key == pre.nd(n).key);
            post.lemma_slot(j2);
        }
    }
}

impl<V> SkipListMap<V> {
    /// The level-0 chain holds distinct slots of the arena, so it is no
    /// longer than the arena, and shorter when a slot is free.
    proof fn lemma_chain_fits(&self)
        requires
            self.wf(),
        ensures
            self.len <= self.nodes@.len(),
            self.free@.len() > 0 ==> self.len < self.nodes@.len(),
    {
        let ch = self.levels@[0];
        let n = self.nodes@.len() as int;
        let c = ch.map_values(|x: usize| x as int);
        assert(c.no_duplicates()) by {
            assert forall|a: int, b: int| 0 <= a < c.len() && 0 <= b < c.len() && a != b implies c[a] != c[b] by {
                self.lemma_distinct(0, a, b);
            }
        }
        c.unique_seq_to_set();
        vstd::set_lib::lemma_int_range(0, n);
        assert forall|x: int| #[trigger] c.to_set().contains(x) implies vstd::set_lib::set_int_range(0, n).contains(x) by {
            let j = choose|j: int| 0 <= j < c.len() && c[j] == x;
            assert(self.node_ok(0, j));
        }
        vstd::set_lib::lemma_len_subset(c.to_set(), vstd::set_lib::set_int_range(0, n));
        if self.free@.len() > 0 {
            let f = self.free@[0] as int;
            let r = vstd::set_lib::set_int_range(0, n).remove(f);
            assert forall|x: int| #[trigger] c.to_set().contains(x) implies r.contains(x) by {
                let j = choose|j: int| 0 <= j < c.len() && c[j] == x;
                assert(self.node_ok(0, j));
            }
            vstd::set_lib::lemma_len_subset(c.to_set(), r);
        }
    }
}

impl<V> View for SkipListMap<V> {
    type V = Map<i32, V>;

    /// Each key on the level-0 chain, with the value of its node.
    closed spec fn view(&self) -> Map<i32, V> {
        Map::new(
            |k: i32| exists|j: int| 0 <= j < self.levels@[0].len() && self.key_at(self.levels@[0][j]) == k,
            |k: i32|
                self.nd(
                    self.levels@[0][choose|j: int|
                        0 <= j < self.levels@[0].len() && self.key_at(self.levels@[0][j]) == k],
                ).val,
        )
    }
}

/// A forward walk over the level-0 chain. Each call of `next` yields the
/// following entry; a new walk starts again from the smallest key.
pub struct SkipListIter<'a, V> {
    map: &'a SkipListMap<V>,
    cur: Option<usize>,
    pos: Ghost<int>,
}

impl<'a, V> SkipListIter<'a, V> {
    /// The map being walked.
    pub closed spec fn source(&self) -> &'a SkipListMap<V> {
        self.map
    }

    /// How many entries the walk has yielded.
    pub closed spec fn index(&self) -> int {
        self.pos@
    }

    /// The walk's invariant.
    pub closed spec fn wf(&self) -> bool {
        &&& self.map.wf()
        &&& 0 <= self.pos@ <= self.map.levels@[0].len()
        &&& self.cur == at(self.map.levels@[0], self.pos@)
    }

    /// The next entry in ascending key order, or `None` at the end.
    pub fn next(&mut self) -> (r: Option<(i32, &'a V)>)
        requires
            old(self).wf(),
        ensures
            final(self).wf(),
            final(self).source() == old(self).source(),
            old(self).index() < old(self).source().entries().len() ==> final(self).index() == old(self).index() + 1
                && r is Some,
            r matches Some(p) ==> p.0 == old(self).source().entries()[old(self).index()].0
                && *p.1 == old(self).source().entries()[old(self).index()].1,
            old(self).index() >= old(self).source().entries().len() ==> final(self).index() == old(self).index()
                && r is None,
    {
        let map = self.map;
        match self.cur {
            None => None,
            Some(n) => {
                proof {
                    assert(map.node_ok(0, self.pos@));
                }
                let next = map.link_of(self.cur, 0);
                self.cur = next;
                self.pos = Ghost(self.pos@ + 1);
                match &map.nodes[n] {
                    Some(node) => Some((node.key, &node.val)),
                    None => None,
                }
            },
        }
    }
}

impl<V> SkipListMap<V> {
    /// A walk from the smallest key.
    pub fn iter(&self) -> (r: SkipListIter<'_, V>)
        requires
            self.wf(),
        ensures
            r.wf(),
            r.source() == self,
            r.index() == 0,
    {
        SkipListIter { map: self, cur: self.head[0], pos: Ghost(0) }
    }
}

} // verus!
