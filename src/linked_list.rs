//! A doubly linked list with sentinels at both ends. Nodes live in an arena
//! and are named by their slot index, which callers keep as a handle.

use vstd::prelude::*;

verus! {

/// Slot of the front sentinel.
pub const HEAD: usize = 0;

/// Slot of the back sentinel.
pub const TAIL: usize = 1;

/// A node: its value (`None` for a sentinel or an erased node) and the
/// handles of its neighbours.
pub struct LinkedListNode<T> {
    pub val: Option<T>,
    pub next: Option<usize>,
    pub pre: Option<usize>,
}

impl<T> LinkedListNode<T> {
    /// A node holding `val`, linked to nothing.
    pub fn new(val: Option<T>) -> (r: Self)
        ensures
            r.val == val,
            r.next is None,
            r.pre is None,
    {
        LinkedListNode { val, next: None, pre: None }
    }
}

/// The list: an arena of nodes, two sentinels, and the element count.
pub struct LinkedList<T> {
    nodes: Vec<LinkedListNode<T>>,
    size: usize,
    /// Handles of the elements, front to back.
    order: Ghost<Seq<usize>>,
}

/// The handle after position `j` of `o`, the back sentinel after the last.
pub open spec fn after(o: Seq<usize>, j: int) -> usize {
    if j + 1 < o.len() {
        o[j + 1]
    } else {
        TAIL
    }
}

/// The handle before position `j` of `o`, the front sentinel before the first.
pub open spec fn before(o: Seq<usize>, j: int) -> usize {
    if j > 0 {
        o[j - 1]
    } else {
        HEAD
    }
}

impl<T> LinkedList<T> {
    /// The list's invariant.
    pub closed spec fn wf(&self) -> bool {
        let o = self.order@;
        let ns = self.nodes@;
        &&& ns.len() >= 2
        &&& ns[HEAD as int].val is None
        &&& ns[TAIL as int].val is None
        &&& ns[HEAD as int].next == Some(after(o, -1))
        &&& ns[TAIL as int].pre == Some(before(o, o.len() as int))
        &&& o.no_duplicates()
        &&& self.size == o.len()
        &&& o.len() + 2 <= ns.len()
        &&& forall|j: int|
            #![trigger ns[o[j] as int]]
            0 <= j < o.len() ==> {
                &&& 2 <= o[j] < ns.len()
                &&& ns[o[j] as int].val is Some
                &&& ns[o[j] as int].next == Some(after(o, j))
                &&& ns[o[j] as int].pre == Some(before(o, j))
            }
    }

    /// The invariant's facts about the element at position `j`.
    proof fn lemma_at(&self, j: int)
        requires
            self.wf(),
            0 <= j < self.order@.len(),
        ensures
            2 <= self.order@[j] < self.nodes@.len(),
            self.nodes@[self.order@[j] as int].val is Some,
            self.nodes@[self.order@[j] as int].next == Some(after(self.order@, j)),
            self.nodes@[self.order@[j] as int].pre == Some(before(self.order@, j)),
    {
        assert(self.nodes@[self.order@[j] as int].val is Some);
    }

    /// Handles of the elements, front to back.
    pub closed spec fn handles(&self) -> Seq<usize> {
        self.order@
    }

    /// The values, front to back.
    pub closed spec fn values(&self) -> Seq<T> {
        self.order@.map_values(|h: usize| self.nodes@[h as int].val.unwrap())
    }

    /// Number of slots in the arena; a new node takes the next one.
    pub closed spec fn slots(&self) -> nat {
        self.nodes@.len()
    }

    /// An empty list: the two sentinels linked to each other.
    pub fn new() -> (r: Self)
        ensures
            r.wf(),
            r.handles() == Seq::<usize>::empty(),
            r.values() == Seq::<T>::empty(),
    {
        let mut head = LinkedListNode::new(None);
        let mut tail = LinkedListNode::new(None);
        head.next = Some(TAIL);
        tail.pre = Some(HEAD);
        let mut nodes: Vec<LinkedListNode<T>> = Vec::new();
        nodes.push(head);
        nodes.push(tail);
        let r = LinkedList { nodes, size: 0, order: Ghost(Seq::empty()) };
        assert(r.values() =~= Seq::<T>::empty());
        r
    }

    /// `new` is `old` with a node for `val` in the fresh slot `h`, linked in
    /// at position `idx` between `p` and `n`.
    spec fn linked(old: Self, new: Self, p: usize, n: usize, h: usize, idx: int, val: T) -> bool {
        &&& old.wf()
        &&& 0 <= idx <= old.order@.len()
        &&& p == before(old.order@, idx)
        &&& n == after(old.order@, idx - 1)
        &&& h == old.nodes@.len()
        &&& new.nodes@.len() == old.nodes@.len() + 1
        &&& new.nodes@[h as int] == LinkedListNode { val: Some(val), next: Some(n), pre: Some(p) }
        &&& new.nodes@[p as int] == LinkedListNode { next: Some(h), ..old.nodes@[p as int] }
        &&& new.nodes@[n as int] == LinkedListNode { pre: Some(h), ..old.nodes@[n as int] }
        &&& forall|x: int| 0 <= x < old.nodes@.len() && x != p && x != n ==> #[trigger] new.nodes@[x] == old.nodes@[x]
        &&& new.order@ == old.order@.insert(idx, h)
        &&& new.size == old.size + 1
    }

    #[verifier::rlimit(100)]
    proof fn lemma_linked(old: Self, new: Self, p: usize, n: usize, h: usize, idx: int, val: T)
        requires
            Self::linked(old, new, p, n, h, idx, val),
        ensures
            new.wf(),
            new.values() == old.values().insert(idx, val),
    {
        let o = old.order@;
        let o2 = new.order@;
        let ns = new.nodes@;
        let ns0 = old.nodes@;
        assert(p != n) by {
            if idx > 0 && idx < o.len() {
                assert(o[idx - 1] != o[idx]);
            }
        }
        assert forall|j: int| 0 <= j < o.len() implies #[trigger] o[j] != h by {
            old.lemma_at(j);
        }
        assert forall|j: int| #![trigger ns[o2[j] as int]] 0 <= j < o2.len() implies {
            &&& 2 <= o2[j] < ns.len()
            &&& ns[o2[j] as int].val is Some
            &&& ns[o2[j] as int].next == Some(after(o2, j))
            &&& ns[o2[j] as int].pre == Some(before(o2, j))
        } by {
            if j < idx {
                old.lemma_at(j);
                assert(o2[j] == o[j]);
                if j + 1 < idx {
                    assert(o2[j + 1] == o[j + 1]);
                }
                if j > 0 {
                    assert(o2[j - 1] == o[j - 1]);
                }
                if j == idx - 1 {
                    assert(o[j] == p);
                } else if o[j] == n {
                    assert(o[idx] == n);
                }
            } else if j == idx {
                assert(o2[j] == h);
                if j + 1 < o2.len() {
                    assert(o2[j + 1] == o[j]);
                }
                if j > 0 {
                    assert(o2[j - 1] == o[j - 1]);
                }
            } else {
                old.lemma_at(j - 1);
                assert(o2[j] == o[j - 1]);
                if j + 1 < o2.len() {
                    assert(o2[j + 1] == o[j]);
                }
                if j - 1 > idx {
                    assert(o2[j - 1] == o[j - 2]);
                }
                if j == idx + 1 {
                    assert(o[j - 1] == n);
                } else if o[j - 1] == p {
                    assert(o[idx - 1] == p);
                }
            }
        }
        assert(o2.no_duplicates()) by {
            assert forall|a: int, b: int| 0 <= a < b < o2.len() implies o2[a] != o2[b] by {
                if a != idx && b != idx {
                    let a1 = if a < idx {
                        a
                    } else {
                        a - 1
                    };
                    let b1 = if b < idx {
                        b
                    } else {
                        b - 1
                    };
                    assert(o2[a] == o[a1]);
                    assert(o2[b] == o[b1]);
                }
            }
        }
        if idx == 0 {
            if o2.len() > 1 {
                assert(o2[1] == o[0]);
            }
        } else {
            assert(o2[0] == o[0]);
        }
        if idx == o.len() {
            if o.len() > 0 {
                assert(o2[o.len() - 1] == o[o.len() - 1]);
            }
        } else {
            assert(o2[o2.len() - 1] == o[o.len() - 1]);
        }
        assert(new.wf());
        assert forall|j: int| 0 <= j < o2.len() implies #[trigger] new.values()[j] == old.values().insert(idx, val)[j] by {
            if j < idx {
                assert(o2[j] == o[j]);
            } else if j > idx {
                assert(o2[j] == o[j - 1]);
            }
        }
        assert(new.values() =~= old.values().insert(idx, val));
    }

    /// Puts `val` at position `idx` of the list, between handles `p` and `n`.
    fn link_between(&mut self, p: usize, n: usize, val: T, idx: Ghost<int>) -> (h: usize)
        requires
            old(self).wf(),
            old(self).nodes@.len() < usize::MAX,
            0 <= idx@ <= old(self).order@.len(),
            p == before(old(self).order@, idx@),
            n == after(old(self).order@, idx@ - 1),
        ensures
            final(self).wf(),
            h == old(self).nodes@.len(),
            final(self).slots() == old(self).slots() + 1,
            final(self).handles() == old(self).handles().insert(idx@, h),
            final(self).values() == old(self).values().insert(idx@, val),
    {
        let ghost pre = *self;
        let h = self.nodes.len();
        proof {
            if idx@ > 0 {
                pre.lemma_at(idx@ - 1);
            }
            if idx@ < pre.order@.len() {
                pre.lemma_at(idx@);
            }
        }
        let mut node = LinkedListNode::new(Some(val));
        node.pre = Some(p);
        node.next = Some(n);
        self.nodes.push(node);
        self.nodes[p].next = Some(h);
        self.nodes[n].pre = Some(h);
        self.size = self.size + 1;
        self.order = Ghost(pre.order@.insert(idx@, h));
        proof {
            Self::lemma_linked(pre, *self, p, n, h, idx@, val);
        }
        h
    }

    /// Position of handle `h` among the elements.
    proof fn lemma_index(&self, h: usize) -> (j: int)
        requires
            self.wf(),
            self.order@.contains(h),
        ensures
            0 <= j < self.order@.len(),
            self.order@[j] == h,
    {
        choose|j: int| 0 <= j < self.order@.len() && self.order@[j] == h
    }

    /// Inserts `val` just after the node `pos` (the front sentinel or an
    /// element) and returns the new node's handle.
    pub fn insert_back(&mut self, pos: usize, val: T) -> (h: usize)
        requires
            old(self).wf(),
            old(self).slots() < usize::MAX,
            pos == HEAD || old(self).handles().contains(pos),
        ensures
            final(self).wf(),
            h == old(self).slots(),
            final(self).slots() == old(self).slots() + 1,
            pos == HEAD ==> final(self).handles() == old(self).handles().insert(0, h) && final(self).values()
                == old(self).values().insert(0, val),
            pos != HEAD ==> exists|j: int|
                0 <= j < old(self).handles().len() && old(self).handles()[j] == pos && final(self).handles()
                    == old(self).handles().insert(j + 1, h) && final(self).values() == old(self).values().insert(
                    j + 1,
                    val,
                ),
    {
        let ghost j: int = if pos == HEAD {
            -1
        } else {
            self.lemma_index(pos)
        };
        proof {
            if pos != HEAD {
                assert(self.order@[j] == pos);
                self.lemma_at(j);
            }
        }
        let n = match self.nodes[pos].next {
            Some(n) => n,
            None => TAIL,
        };
        self.link_between(pos, n, val, Ghost(j + 1))
    }

    /// Inserts `val` just before the node `pos` (the back sentinel or an
    /// element) and returns the new node's handle.
    pub fn insert_front(&mut self, pos: usize, val: T) -> (h: usize)
        requires
            old(self).wf(),
            old(self).slots() < usize::MAX,
            pos == TAIL || old(self).handles().contains(pos),
        ensures
            final(self).wf(),
            h == old(self).slots(),
            final(self).slots() == old(self).slots() + 1,
            pos == TAIL ==> final(self).handles() == old(self).handles().push(h) && final(self).values()
                == old(self).values().push(val),
            pos != TAIL ==> exists|j: int|
                0 <= j < old(self).handles().len() && old(self).handles()[j] == pos && final(self).handles()
                    == old(self).handles().insert(j, h) && final(self).values() == old(self).values().insert(
                    j,
                    val,
                ),
    {
        let ghost j: int = if pos == TAIL {
            self.order@.len() as int
        } else {
            self.lemma_index(pos)
        };
        proof {
            if pos != TAIL {
                self.lemma_at(j);
            }
        }
        let p = match self.nodes[pos].pre {
            Some(p) => p,
            None => HEAD,
        };
        let h = self.link_between(p, pos, val, Ghost(j));
        proof {
            if pos == TAIL {
                assert(old(self).handles().insert(j, h) =~= old(self).handles().push(h));
                assert(old(self).values().insert(j, val) =~= old(self).values().push(val));
            }
        }
        h
    }

    /// Unlinks the element `pos`; its slot is not reused.
    #[verifier::rlimit(80)]
    pub fn earse(&mut self, pos: usize)
        requires
            old(self).wf(),
            old(self).handles().contains(pos),
        ensures
            final(self).wf(),
            final(self).slots() == old(self).slots(),
            exists|j: int|
                0 <= j < old(self).handles().len() && old(self).handles()[j] == pos && final(self).handles()
                    == old(self).handles().remove(j) && final(self).values() == old(self).values().remove(j),
    {
        let ghost o = self.order@;
        let ghost j = self.lemma_index(pos);
        proof {
            self.lemma_at(j);
            if j > 0 {
                self.lemma_at(j - 1);
            }
            if j + 1 < o.len() {
                self.lemma_at(j + 1);
            }
        }
        let p = match self.nodes[pos].pre {
            Some(p) => p,
            None => HEAD,
        };
        let n = match self.nodes[pos].next {
            Some(n) => n,
            None => TAIL,
        };
        self.nodes[p].next = Some(n);
        self.nodes[n].pre = Some(p);
        self.nodes[pos].val = None;
        self.size = self.size - 1;
        let ghost o2 = o.remove(j);
        self.order = Ghost(o2);
        proof {
            let ns = self.nodes@;
            assert(p == before(o, j));
            assert(n == after(o, j));
            assert forall|k: int| #![trigger ns[o2[k] as int]] 0 <= k < o2.len() implies {
                &&& 2 <= o2[k] < ns.len()
                &&& ns[o2[k] as int].val is Some
                &&& ns[o2[k] as int].next == Some(after(o2, k))
                &&& ns[o2[k] as int].pre == Some(before(o2, k))
            } by {
                let k1 = if k < j { k } else { k + 1 };
                old(self).lemma_at(k1);
                assert(o2[k] == o[k1]);
                assert(o[k1] != pos);
                if k + 1 < o2.len() {
                    let k2 = if k + 1 < j { k + 1 } else { k + 2 };
                    assert(o2[k + 1] == o[k2]);
                }
                if k > 0 {
                    let k0 = if k - 1 < j { k - 1 } else { k };
                    assert(o2[k - 1] == o[k0]);
                }
                if o[k1] == p {
                    assert(k1 == j - 1);
                }
                if o[k1] == n {
                    assert(k1 == j + 1);
                }
            }
            assert(o2.no_duplicates()) by {
                assert forall|a: int, b: int| 0 <= a < b < o2.len() implies o2[a] != o2[b] by {
                    let a1 = if a < j { a } else { a + 1 };
                    let b1 = if b < j { b } else { b + 1 };
                    assert(o2[a] == o[a1]);
                    assert(o2[b] == o[b1]);
                }
            }
            if j == 0 {
                if o2.len() > 0 {
                    assert(o2[0] == o[1]);
                }
            } else {
                assert(o2[0] == o[0]);
            }
            if j == o.len() - 1 {
                if o2.len() > 0 {
                    assert(o2[o2.len() - 1] == o[o.len() - 2]);
                }
            } else {
                assert(o2[o2.len() - 1] == o[o.len() - 1]);
            }
            assert(self.wf());
            assert(self.values() =~= old(self).values().remove(j)) by {
                assert forall|k: int| 0 <= k < o2.len() implies #[trigger] self.values()[k] == old(self).values().remove(j)[k] by {
                    let k1 = if k < j { k } else { k + 1 };
                    assert(o2[k] == o[k1]);
                }
            }
        }
    }

    /// Appends `val` and returns its handle.
    pub fn push_back(&mut self, val: T) -> (h: usize)
        requires
            old(self).wf(),
            old(self).slots() < usize::MAX,
        ensures
            final(self).wf(),
            h == old(self).slots(),
            final(self).slots() == old(self).slots() + 1,
            final(self).handles() == old(self).handles().push(h),
            final(self).values() == old(self).values().push(val),
    {
        self.insert_front(TAIL, val)
    }

    /// Prepends `val` and returns its handle.
    pub fn push_front(&mut self, val: T) -> (h: usize)
        requires
            old(self).wf(),
            old(self).slots() < usize::MAX,
        ensures
            final(self).wf(),
            h == old(self).slots(),
            final(self).slots() == old(self).slots() + 1,
            final(self).handles() == old(self).handles().insert(0, h),
            final(self).values() == old(self).values().insert(0, val),
    {
        self.insert_back(HEAD, val)
    }

    /// The element handles from front to back, by walking the links.
    pub fn iter(&self) -> (r: Vec<usize>)
        requires
            self.wf(),
        ensures
            r@ == self.handles(),
    {
        let ghost o = self.order@;
        let mut r: Vec<usize> = Vec::new();
        let mut cur: usize = match self.nodes[HEAD].next {
            Some(n) => n,
            None => TAIL,
        };
        let ghost mut j: int = 0;
        while cur != TAIL
            invariant
                self.wf(),
                o == self.order@,
                0 <= j <= o.len(),
                cur == after(o, j - 1),
                r@ == o.subrange(0, j),
            decreases o.len() - j,
        {
            proof {
                if j >= o.len() {
                    assert(cur == TAIL);
                }
                self.lemma_at(j);
            }
            r.push(cur);
            cur = match self.nodes[cur].next {
                Some(n) => n,
                None => TAIL,
            };
            proof {
                j = j + 1;
                assert(r@ =~= o.subrange(0, j));
            }
        }
        proof {
            if j < o.len() {
                self.lemma_at(j);
            }
        }
        assert(r@ =~= o);
        r
    }

    /// The value of element `h`, or `None` for a sentinel or an erased node.
    pub fn value(&self, h: usize) -> (r: Option<&T>)
        requires
            self.wf(),
        ensures
            forall|j: int| 0 <= j < self.handles().len() && self.handles()[j] == h ==> r == Some(&self.values()[j]),
            h == HEAD || h == TAIL ==> r is None,
    {
        proof {
            assert forall|j: int| 0 <= j < self.handles().len() && self.handles()[j] == h implies (h as int) < self.nodes@.len() && self.nodes@[h as int].val == Some(self.values()[j]) by {
                self.lemma_at(j);
            }
        }
        if h < self.nodes.len() {
            match &self.nodes[h].val {
                Some(v) => Some(v),
                None => None,
            }
        } else {
            None
        }
    }
}

impl<T> LinkedList<T> {
    /// Where a search from `start_pos` begins: the position of that element,
    /// or the front.
    pub open spec fn from_index(&self, start_pos: Option<usize>) -> int {
        match start_pos {
            None => 0,
            Some(s) => if s == HEAD {
                0
            } else {
                choose|j: int| 0 <= j < self.handles().len() && self.handles()[j] == s
            },
        }
    }
}

impl LinkedList<i32> {
    /// The first element from `start_pos` on (from the front when `None`)
    /// whose value equals `val`.
    pub fn find(&self, val: &i32, start_pos: Option<usize>) -> (r: Option<usize>)
        requires
            self.wf(),
            start_pos matches Some(s) ==> s == HEAD || self.handles().contains(s),
        ensures
            r is None ==> forall|j: int| self.from_index(start_pos) <= j < self.values().len() ==> self.values()[j] != *val,
            r matches Some(h) ==> exists|j: int|
                self.from_index(start_pos) <= j < self.values().len() && self.handles()[j] == h && self.values()[j]
                    == *val && forall|i: int| self.from_index(start_pos) <= i < j ==> self.values()[i] != *val,
    {
        let ghost o = self.order@;
        let ghost from: int = self.from_index(start_pos);
        let mut pos: usize = match start_pos {
            None => HEAD,
            Some(s) => s,
        };
        proof {
            if from < o.len() {
                self.lemma_at(from);
            }
        }
        if pos == HEAD {
            pos = match self.nodes[HEAD].next {
                Some(n) => n,
                None => TAIL,
            };
        }
        let ghost mut j: int = from;
        proof {
            if start_pos is Some && start_pos.unwrap() != HEAD {
                let s = start_pos.unwrap();
                assert(o.contains(s));
                assert(0 <= from < o.len() && o[from] == s);
            }
        }
        while pos != TAIL
            invariant
                self.wf(),
                o == self.order@,
                0 <= from <= j <= o.len(),
                from == self.from_index(start_pos),
                pos == (if j < o.len() { o[j] } else { TAIL }),
                forall|i: int| from <= i < j ==> self.values()[i] != *val,
            decreases o.len() - j,
        {
            proof {
                if j >= o.len() {
                    assert(pos == TAIL);
                }
                self.lemma_at(j);
                assert(self.values()[j] == self.nodes@[pos as int].val.unwrap());
            }
            let hit = match &self.nodes[pos].val {
                Some(v) => {
                    proof {
                        assert(*v == self.values()[j]);
                    }
                    *v == *val
                },
                None => false,
            };
            proof {
                assert(hit == (self.values()[j] == *val));
            }
            if hit {
                proof {
                    assert(self.values().len() == o.len());
                    assert(self.from_index(start_pos) <= j < self.values().len());
                    assert(self.handles()[j] == pos && self.values()[j] == *val);
                    assert(forall|i: int| self.from_index(start_pos) <= i < j ==> self.values()[i] != *val);
                }
                return Some(pos);
            }
            pos = match self.nodes[pos].next {
                Some(n) => n,
                None => TAIL,
            };
            proof {
                j = j + 1;
            }
        }
        None
    }
}

} // verus!
