//! A treap of `i32` keys: a binary search tree in which every node also
//! carries a random priority, and rotations keep smaller priorities nearer
//! the root. A key inserted again raises its node's count.

use crate::binary_search_tree::{above, least_from};
use crate::rng::draw_below;
use vstd::multiset::Multiset;
use vstd::prelude::*;

verus! {

broadcast use vstd::multiset::group_multiset_axioms;

/// A node: priority `val`, `key`, how many copies `cnt` of the key it
/// holds, the number `size` of copies in its subtree, and its subtrees.
pub struct Node {
    pub val: u32,
    pub key: i32,
    pub cnt: usize,
    pub size: usize,
    pub left: Option<Box<Node>>,
    pub right: Option<Box<Node>>,
}

/// Which subtree a node to be removed is rotated towards.
pub enum ChildState {
    No,
    Left,
    Right,
}

/// `c` copies of `k`.
pub open spec fn copies(k: i32, c: nat) -> Multiset<i32>
    decreases c,
{
    if c == 0 {
        Multiset::empty()
    } else {
        copies(k, (c - 1) as nat).insert(k)
    }
}

pub proof fn lemma_copies(k: i32, c: nat)
    ensures
        forall|x: i32| #[trigger] copies(k, c).count(x) == if x == k {
            c
        } else {
            0
        },
        copies(k, c).len() == c,
    decreases c,
{
    if c > 0 {
        lemma_copies(k, (c - 1) as nat);
    }
}

/// The keys held by an optional subtree, with multiplicities.
pub open spec fn keys_of(n: Option<Box<Node>>) -> Multiset<i32>
    decreases n,
{
    match n {
        None => Multiset::empty(),
        Some(b) => keys_of(b.left).add(keys_of(b.right)).add(copies(b.key, b.cnt as nat)),
    }
}

/// Search-tree order with distinct node keys, positive counts, and sizes
/// that count the copies below each node.
pub open spec fn treap_ok(n: Option<Box<Node>>) -> bool
    decreases n,
{
    match n {
        None => true,
        Some(b) => {
            &&& forall|x: i32| keys_of(b.left).contains(x) ==> x < b.key
            &&& forall|x: i32| keys_of(b.right).contains(x) ==> x > b.key
            &&& b.cnt >= 1
            &&& b.size == keys_of(n).len()
            &&& treap_ok(b.left)
            &&& treap_ok(b.right)
        },
    }
}

/// The size field of an optional subtree.
pub open spec fn size_of(n: Option<Box<Node>>) -> nat {
    match n {
        None => 0,
        Some(b) => b.size as nat,
    }
}

proof fn lemma_node_keys(b: Box<Node>)
    ensures
        keys_of(Some(b)) == keys_of(b.left).add(keys_of(b.right)).add(copies(b.key, b.cnt as nat)),
        keys_of(Some(b)).len() == keys_of(b.left).len() + keys_of(b.right).len() + b.cnt,
        forall|x: i32|
            #[trigger] keys_of(Some(b)).count(x) == keys_of(b.left).count(x) + keys_of(b.right).count(x) + if x
                == b.key {
                b.cnt as nat
            } else {
                0
            },
{
    lemma_copies(b.key, b.cnt as nat);
}

proof fn lemma_remove_len(m: Multiset<i32>, k: i32)
    ensures
        m.remove(k).len() <= m.len(),
{
    if m.contains(k) {
        assert(Multiset::singleton(k).subset_of(m));
    } else {
        assert(m.remove(k) =~= m);
    }
}

/// Where a key of a node's subtree sits.
proof fn lemma_key_parts(b: Box<Node>, x: i32)
    requires
        keys_of(Some(b)).contains(x),
    ensures
        keys_of(b.left).contains(x) || keys_of(b.right).contains(x) || x == b.key,
{
    lemma_node_keys(b);
}

/// What `treap_ok` says of a node, in one place.
proof fn lemma_ok(b: Box<Node>)
    ensures
        treap_ok(Some(b)) <==> {
            &&& forall|x: i32| keys_of(b.left).contains(x) ==> x < b.key
            &&& forall|x: i32| keys_of(b.right).contains(x) ==> x > b.key
            &&& b.cnt >= 1
            &&& b.size == keys_of(Some(b)).len()
            &&& treap_ok(b.left)
            &&& treap_ok(b.right)
        },
        treap_ok(b.left) ==> size_of(b.left) == keys_of(b.left).len(),
        treap_ok(b.right) ==> size_of(b.right) == keys_of(b.right).len(),
{
    if b.left is Some {
        assert(treap_ok(b.left) ==> size_of(b.left) == keys_of(b.left).len());
    }
    if b.right is Some {
        assert(treap_ok(b.right) ==> size_of(b.right) == keys_of(b.right).len());
    }
}

impl Node {
    /// A node holding one copy of `key`, with priority `val`.
    pub fn new(key: i32, val: u32) -> (r: Self)
        ensures
            r.key == key,
            r.val == val,
            r.cnt == 1,
            r.size == 1,
            r.left is None,
            r.right is None,
    {
        Node { val, key, cnt: 1, size: 1, left: None, right: None }
    }

    /// A node as [`Node::new`] builds it, on the heap.
    pub fn new_ptr(key: i32, val: u32) -> (r: Box<Self>)
        ensures
            r.key == key,
            r.val == val,
            r.cnt == 1,
            r.size == 1,
            r.left is None,
            r.right is None,
            treap_ok(Some(r)),
            keys_of(Some(r)) == Multiset::<i32>::empty().insert(key),
    {
        let r = Box::new(Self::new(key, val));
        proof {
            lemma_node_keys(r);
            lemma_ok(r);
            assert(keys_of(Some(r)) =~= Multiset::<i32>::empty().insert(key));
        }
        r
    }

    /// Recomputes `size` from the count and the subtrees' sizes.
    fn update_size(&mut self)
        requires
            old(self).cnt + size_of(old(self).left) + size_of(old(self).right) <= usize::MAX,
        ensures
            final(self).size == old(self).cnt + size_of(old(self).left) + size_of(old(self).right),
            final(self).key == old(self).key,
            final(self).val == old(self).val,
            final(self).cnt == old(self).cnt,
            final(self).left == old(self).left,
            final(self).right == old(self).right,
    {
        let mut res: usize = self.cnt;
        match &self.left {
            Some(l) => {
                res = res + l.size;
            },
            None => {},
        }
        match &self.right {
            Some(r) => {
                res = res + r.size;
            },
            None => {},
        }
        self.size = res;
    }

    /// Rotates the left child up to the root of this subtree.
    fn right_rotate(node: Box<Node>) -> (r: Box<Node>)
        requires
            treap_ok(Some(node)),
            node.left is Some,
        ensures
            treap_ok(Some(r)),
            keys_of(Some(r)) == keys_of(Some(node)),
            r.size == node.size,
            r.key == node.left.unwrap().key,
            r.right is Some,
            r.right.unwrap().key == node.key,
            r.right.unwrap().cnt == node.cnt,
            r.right.unwrap().right == node.right,
            r.left == node.left.unwrap().left,
    {
        let ghost n0 = node;
        let mut node = node;
        let mut left = match node.left.take() {
            Some(l) => l,
            None => {
                proof {
                    assert(false);
                }
                return node;
            },
        };
        let ghost l0 = left;
        proof {
            lemma_node_keys(n0);
            lemma_node_keys(l0);
            lemma_ok(n0);
            lemma_ok(l0);
        }
        node.left = left.right.take();
        proof {
            lemma_ok(node);
        }
        node.update_size();
        proof {
            let nb = node;
            lemma_node_keys(nb);
            lemma_ok(nb);
            assert forall|x: i32| keys_of(nb.left).contains(x) implies x < nb.key by {
                assert(keys_of(n0.left).count(x) > 0);
                assert(keys_of(n0.left).contains(x));
            }
            assert(keys_of(Some(nb)).len() == nb.size);
            assert(treap_ok(Some(nb)));
        }
        let ghost nb = node;
        left.right = Some(node);
        proof {
            lemma_ok(left);
        }
        left.update_size();
        proof {
            let lb = left;
            lemma_node_keys(lb);
            lemma_ok(lb);
            assert(keys_of(n0.left).contains(lb.key)) by {
                assert(keys_of(n0.left).count(lb.key) > 0);
            }
            assert forall|x: i32| keys_of(lb.right).contains(x) implies x > lb.key by {
                lemma_node_keys(nb);
                if x != nb.key {
                    if keys_of(nb.left).contains(x) {
                        assert(keys_of(l0.right).contains(x));
                    } else {
                        assert(keys_of(n0.right).contains(x));
                        assert(keys_of(n0.left).contains(lb.key));
                    }
                } else {
                    assert(keys_of(n0.left).contains(lb.key));
                }
            }
            assert(keys_of(Some(lb)) =~= keys_of(Some(n0)));
            assert(treap_ok(Some(lb)));
        }
        left
    }

    /// Rotates the right child up to the root of this subtree.
    fn left_rotate(node: Box<Node>) -> (r: Box<Node>)
        requires
            treap_ok(Some(node)),
            node.right is Some,
        ensures
            treap_ok(Some(r)),
            keys_of(Some(r)) == keys_of(Some(node)),
            r.size == node.size,
            r.key == node.right.unwrap().key,
            r.left is Some,
            r.left.unwrap().key == node.key,
            r.left.unwrap().cnt == node.cnt,
            r.left.unwrap().left == node.left,
            r.right == node.right.unwrap().right,
    {
        let ghost n0 = node;
        let mut node = node;
        let mut right = match node.right.take() {
            Some(r) => r,
            None => {
                proof {
                    assert(false);
                }
                return node;
            },
        };
        let ghost r0 = right;
        proof {
            lemma_node_keys(n0);
            lemma_node_keys(r0);
            lemma_ok(n0);
            lemma_ok(r0);
        }
        node.right = right.left.take();
        proof {
            lemma_ok(node);
        }
        node.update_size();
        proof {
            let nb = node;
            lemma_node_keys(nb);
            lemma_ok(nb);
            assert forall|x: i32| keys_of(nb.right).contains(x) implies x > nb.key by {
                assert(keys_of(n0.right).count(x) > 0);
                assert(keys_of(n0.right).contains(x));
            }
            assert(keys_of(Some(nb)).len() == nb.size);
            assert(treap_ok(Some(nb)));
        }
        let ghost nb = node;
        right.left = Some(node);
        proof {
            lemma_ok(right);
        }
        right.update_size();
        proof {
            let rb = right;
            lemma_node_keys(rb);
            lemma_ok(rb);
            assert(keys_of(n0.right).contains(rb.key)) by {
                assert(keys_of(n0.right).count(rb.key) > 0);
            }
            assert forall|x: i32| keys_of(rb.left).contains(x) implies x < rb.key by {
                lemma_node_keys(nb);
                if x != nb.key {
                    if keys_of(nb.right).contains(x) {
                        assert(keys_of(r0.left).contains(x));
                    } else {
                        assert(keys_of(n0.left).contains(x));
                        assert(keys_of(n0.right).contains(rb.key));
                    }
                } else {
                    assert(keys_of(n0.right).contains(rb.key));
                }
            }
            assert(keys_of(Some(rb)) =~= keys_of(Some(n0)));
            assert(treap_ok(Some(rb)));
        }
        right
    }

    /// For removal: `No` without subtrees, the only side with one, and with
    /// two the side whose root has the smaller priority.
    fn child_state(&self) -> (r: ChildState)
        ensures
            r is No <==> (self.left is None && self.right is None),
            r is Left ==> self.left is Some,
            r is Right ==> self.right is Some,
    {
        match (&self.left, &self.right) {
            (None, None) => ChildState::No,
            (Some(_), None) => ChildState::Left,
            (None, Some(_)) => ChildState::Right,
            (Some(l), Some(r)) => if l.val <= r.val {
                ChildState::Left
            } else {
                ChildState::Right
            },
        }
    }
}

/// Inserts one copy of `key` below `node`, drawing a priority for a new node.
fn insert_at(rng: &mut rand::rngs::ThreadRng, node: Option<Box<Node>>, key: i32) -> (r: Box<Node>)
    requires
        treap_ok(node),
        keys_of(node).len() < usize::MAX,
    ensures
        treap_ok(Some(r)),
        keys_of(Some(r)) == keys_of(node).insert(key),
    decreases node,
{
    match node {
        None => Node::new_ptr(key, draw_below(rng, u32::MAX)),
        Some(mut b) => {
            let ghost b0 = b;
            proof {
                lemma_ok(b0);
                lemma_node_keys(b0);
            }
            if b.key < key {
                let r = b.right.take();
                let nr = insert_at(rng, r, key);
                let pri = nr.val;
                b.right = Some(nr);
                proof {
                    lemma_ok(b);
                    lemma_node_keys(nr);
                    lemma_ok(nr);
                }
                b.update_size();
                proof {
                    lemma_node_keys(b);
                    lemma_ok(b);
                    assert forall|x: i32| keys_of(b.right).contains(x) implies x > b.key by {
                        if x != key {
                            assert(keys_of(b0.right).contains(x));
                        }
                    }
                    assert(keys_of(Some(b)) =~= keys_of(node).insert(key));
                }
                if pri < b.val {
                    Node::left_rotate(b)
                } else {
                    b
                }
            } else if b.key > key {
                let l = b.left.take();
                let nl = insert_at(rng, l, key);
                let pri = nl.val;
                b.left = Some(nl);
                proof {
                    lemma_ok(b);
                    lemma_node_keys(nl);
                    lemma_ok(nl);
                }
                b.update_size();
                proof {
                    lemma_node_keys(b);
                    lemma_ok(b);
                    assert forall|x: i32| keys_of(b.left).contains(x) implies x < b.key by {
                        if x != key {
                            assert(keys_of(b0.left).contains(x));
                        }
                    }
                    assert(keys_of(Some(b)) =~= keys_of(node).insert(key));
                }
                if pri < b.val {
                    Node::right_rotate(b)
                } else {
                    b
                }
            } else {
                b.cnt = b.cnt + 1;
                b.size = b.size + 1;
                proof {
                    lemma_node_keys(b);
                    lemma_ok(b);
                    assert(keys_of(Some(b)) =~= keys_of(node).insert(key));
                }
                b
            }
        },
    }
}

/// Removes one copy of `key` from below `node`, if there is one.
#[verifier::rlimit(100)]
fn remove_at(node: Option<Box<Node>>, key: i32) -> (r: Option<Box<Node>>)
    requires
        treap_ok(node),
    ensures
        treap_ok(r),
        keys_of(r) == keys_of(node).remove(key),
    decreases keys_of(node).len(),
{
    match node {
        None => {
            assert(keys_of(node) =~= keys_of(node).remove(key));
            None
        },
        Some(mut b) => {
            let ghost b0 = b;
            proof {
                lemma_ok(b0);
                lemma_node_keys(b0);
                if keys_of(b0.left).count(key) > 0 {
                    assert(keys_of(b0.left).contains(key));
                }
                if keys_of(b0.right).count(key) > 0 {
                    assert(keys_of(b0.right).contains(key));
                }
                lemma_remove_len(keys_of(b0.left), key);
                lemma_remove_len(keys_of(b0.right), key);
            }
            if b.key < key {
                let r = b.right.take();
                let nr = remove_at(r, key);
                b.right = nr;
                proof {
                    lemma_ok(b);
                }
                b.update_size();
                proof {
                    lemma_node_keys(b);
                    lemma_ok(b);
                    assert forall|x: i32| keys_of(b.right).contains(x) implies x > b.key by {
                        assert(keys_of(b0.right).contains(x));
                    }
                    assert(keys_of(b0.left).count(key) == 0);
                    assert(keys_of(Some(b)) =~= keys_of(node).remove(key));
                }
                Some(b)
            } else if b.key > key {
                let l = b.left.take();
                let nl = remove_at(l, key);
                b.left = nl;
                proof {
                    lemma_ok(b);
                }
                b.update_size();
                proof {
                    lemma_node_keys(b);
                    lemma_ok(b);
                    assert forall|x: i32| keys_of(b.left).contains(x) implies x < b.key by {
                        assert(keys_of(b0.left).contains(x));
                    }
                    assert(keys_of(b0.right).count(key) == 0);
                    assert(keys_of(Some(b)) =~= keys_of(node).remove(key));
                }
                Some(b)
            } else if b.cnt > 1 {
                b.cnt = b.cnt - 1;
                b.size = b.size - 1;
                proof {
                    lemma_node_keys(b);
                    lemma_ok(b);
                    assert(keys_of(b0.left).count(key) == 0);
                    assert(keys_of(b0.right).count(key) == 0);
                    assert(keys_of(Some(b)) =~= keys_of(node).remove(key));
                }
                Some(b)
            } else {
                proof {
                    assert(keys_of(b0.left).count(key) == 0);
                    assert(keys_of(b0.right).count(key) == 0);
                }
                match b.child_state() {
                    ChildState::No => {
                        proof {
                            assert(keys_of(b0.left) =~= Multiset::empty());
                            assert(keys_of(b0.right) =~= Multiset::empty());
                            assert(keys_of(None) =~= keys_of(node).remove(key));
                        }
                        None
                    },
                    ChildState::Left => {
                        let mut nn = Node::right_rotate(b);
                        let ghost n1 = nn;
                        proof {
                            lemma_ok(n1);
                            lemma_node_keys(n1);
                            let rb = n1.right.unwrap();
                            lemma_ok(rb);
                            lemma_node_keys(rb);
                        }
                        let rr = nn.right.take();
                        proof {
                            lemma_remove_len(keys_of(rr), key);
                        }
                        let nr = remove_at(rr, key);
                        nn.right = nr;
                        proof {
                            lemma_ok(nn);
                        }
                        nn.update_size();
                        proof {
                            lemma_node_keys(nn);
                            lemma_ok(nn);
                            assert forall|x: i32| keys_of(nn.right).contains(x) implies x > nn.key by {
                                assert(keys_of(n1.right).contains(x));
                            }
                            assert(keys_of(n1.left).count(key) == 0);
                            assert(keys_of(Some(nn)) =~= keys_of(node).remove(key));
                        }
                        Some(nn)
                    },
                    ChildState::Right => {
                        let mut nn = Node::left_rotate(b);
                        let ghost n1 = nn;
                        proof {
                            lemma_ok(n1);
                            lemma_node_keys(n1);
                            let lb = n1.left.unwrap();
                            lemma_ok(lb);
                            lemma_node_keys(lb);
                        }
                        let ll = nn.left.take();
                        proof {
                            lemma_remove_len(keys_of(ll), key);
                        }
                        let nl = remove_at(ll, key);
                        nn.left = nl;
                        proof {
                            lemma_ok(nn);
                        }
                        nn.update_size();
                        proof {
                            lemma_node_keys(nn);
                            lemma_ok(nn);
                            assert forall|x: i32| keys_of(nn.left).contains(x) implies x < nn.key by {
                                assert(keys_of(n1.left).contains(x));
                            }
                            assert(keys_of(n1.right).count(key) == 0);
                            assert(keys_of(Some(nn)) =~= keys_of(node).remove(key));
                        }
                        Some(nn)
                    },
                }
            }
        },
    }
}

fn bound_at(node: &Option<Box<Node>>, key: i32, strict: bool) -> (r: Option<i32>)
    requires
        treap_ok(*node),
    ensures
        r matches Some(k) ==> least_from(keys_of(*node), key, strict, k),
        r is None ==> forall|x: i32| keys_of(*node).contains(x) ==> !above(x, key, strict),
    decreases *node,
{
    match node {
        None => None,
        Some(b) => {
            proof {
                lemma_ok(*b);
                lemma_node_keys(*b);
            }
            let m = Ghost(keys_of(*node));
            let here = if strict {
                b.key > key
            } else {
                b.key >= key
            };
            if !here {
                let r = bound_at(&b.right, key, strict);
                proof {
                    assert forall|x: i32| m@.contains(x) && above(x, key, strict) implies keys_of(b.right).contains(x) by {
                        lemma_key_parts(*b, x);
                        if keys_of(b.left).contains(x) {
                            assert(x < b.key);
                        }
                    }
                    if r is Some {
                        assert(m@.contains(r.unwrap()));
                    }
                }
                r
            } else {
                let r = bound_at(&b.left, key, strict);
                proof {
                    assert(m@.contains(b.key));
                    if r is Some {
                        let k = r.unwrap();
                        assert(m@.contains(k));
                        assert(k < b.key);
                        assert forall|x: i32| m@.contains(x) && above(x, key, strict) implies k <= x by {
                            lemma_key_parts(*b, x);
                            if keys_of(b.right).contains(x) {
                                assert(b.key < x);
                            }
                        }
                    } else {
                        assert forall|x: i32| m@.contains(x) && above(x, key, strict) implies b.key <= x by {
                            lemma_key_parts(*b, x);
                            if keys_of(b.left).contains(x) {
                                assert(!above(x, key, strict));
                            }
                        }
                    }
                }
                match r {
                    Some(k) => Some(k),
                    None => Some(b.key),
                }
            }
        },
    }
}

/// A treap; its view is the multiset of keys.
pub struct Treap {
    head: Option<Box<Node>>,
    rand: rand::rngs::ThreadRng,
}

impl View for Treap {
    type V = Multiset<i32>;

    closed spec fn view(&self) -> Multiset<i32> {
        keys_of(self.head)
    }
}

impl Treap {
    /// The invariant.
    pub closed spec fn wf(&self) -> bool {
        treap_ok(self.head)
    }

    /// An empty treap.
    pub fn new() -> (r: Self)
        ensures
            r.wf(),
            r@ == Multiset::<i32>::empty(),
    {
        Treap { head: None, rand: rand::thread_rng() }
    }

    /// Adds one copy of `key`.
    pub fn insert(&mut self, key: i32)
        requires
            old(self).wf(),
            old(self)@.len() < usize::MAX,
        ensures
            final(self).wf(),
            final(self)@ == old(self)@.insert(key),
    {
        let h = self.head.take();
        let n = insert_at(&mut self.rand, h, key);
        self.head = Some(n);
    }

    /// Removes one copy of `key`, if there is one.
    pub fn remove(&mut self, key: i32)
        requires
            old(self).wf(),
        ensures
            final(self).wf(),
            final(self)@ == old(self)@.remove(key),
    {
        let h = self.head.take();
        self.head = remove_at(h, key);
    }

    /// Number of keys held, copies included.
    pub fn size(&self) -> (r: usize)
        requires
            self.wf(),
        ensures
            r == self@.len(),
    {
        match &self.head {
            Some(b) => {
                proof {
                    lemma_ok(*b);
                }
                b.size
            },
            None => 0,
        }
    }

    /// The least key at least `key`.
    pub fn lower_bound(&self, key: i32) -> (r: Option<i32>)
        requires
            self.wf(),
        ensures
            r matches Some(k) ==> least_from(self@, key, false, k),
            r is None ==> forall|x: i32| self@.contains(x) ==> x < key,
    {
        bound_at(&self.head, key, false)
    }

    /// The least key greater than `key`.
    pub fn upper_bound(&self, key: i32) -> (r: Option<i32>)
        requires
            self.wf(),
        ensures
            r matches Some(k) ==> least_from(self@, key, true, k),
            r is None ==> forall|x: i32| self@.contains(x) ==> x <= key,
    {
        bound_at(&self.head, key, true)
    }
}

} // verus!
