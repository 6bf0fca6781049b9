//! An unbalanced binary search tree of `i32` values; equal values go right.

use vstd::multiset::Multiset;
use vstd::prelude::*;

verus! {

broadcast use vstd::multiset::group_multiset_axioms;

/// A node with its value and optional subtrees.
pub struct TreeNode {
    pub val: i32,
    pub left: Option<Box<TreeNode>>,
    pub right: Option<Box<TreeNode>>,
}

/// The values held by an optional subtree.
pub open spec fn items_of(n: Option<Box<TreeNode>>) -> Multiset<i32>
    decreases n,
{
    match n {
        None => Multiset::empty(),
        Some(b) => items_of(b.left).add(items_of(b.right)).insert(b.val),
    }
}

/// Every left subtree holds smaller values and every right subtree values
/// at least as large as its node's.
pub open spec fn ordered(n: Option<Box<TreeNode>>) -> bool
    decreases n,
{
    match n {
        None => true,
        Some(b) => {
            &&& forall|x: i32| items_of(b.left).contains(x) ==> x < b.val
            &&& forall|x: i32| items_of(b.right).contains(x) ==> x >= b.val
            &&& ordered(b.left)
            &&& ordered(b.right)
        },
    }
}

impl TreeNode {
    /// A node with no subtrees.
    pub fn new(val: i32) -> (r: Self)
        ensures
            r.val == val,
            r.left is None,
            r.right is None,
    {
        TreeNode { val, left: None, right: None }
    }

    /// Whether the node has no subtrees.
    pub fn is_leaf(&self) -> (r: bool)
        ensures
            r == (self.left is None && self.right is None),
    {
        self.left.is_none() && self.right.is_none()
    }
}

/// `k` is the least value of `m` that is at least `v` (`strict`: greater than `v`).
pub open spec fn least_from(m: Multiset<i32>, v: i32, strict: bool, k: i32) -> bool {
    &&& m.contains(k)
    &&& above(k, v, strict)
    &&& forall|x: i32| m.contains(x) && above(x, v, strict) ==> k <= x
}

/// `x` is past `v`: greater (`strict`) or at least as large.
pub open spec fn above(x: i32, v: i32, strict: bool) -> bool {
    if strict {
        x > v
    } else {
        x >= v
    }
}

fn insert_node(node: Option<Box<TreeNode>>, val: i32) -> (r: Box<TreeNode>)
    requires
        ordered(node),
    ensures
        ordered(Some(r)),
        items_of(Some(r)) == items_of(node).insert(val),
    decreases node,
{
    match node {
        None => {
            let r = Box::new(TreeNode::new(val));
            assert(items_of(Some(r)) =~= Multiset::empty().insert(val));
            r
        },
        Some(mut b) => {
            let ghost l0 = b.left;
            let ghost r0 = b.right;
            if val < b.val {
                let l = b.left.take();
                let nl = insert_node(l, val);
                b.left = Some(nl);
                proof {
                    assert(items_of(Some(b)) =~= items_of(node).insert(val));
                    assert forall|x: i32| items_of(b.left).contains(x) implies x < b.val by {
                        if x != val {
                            assert(items_of(l0).contains(x));
                        }
                    }
                }
            } else {
                let r = b.right.take();
                let nr = insert_node(r, val);
                b.right = Some(nr);
                proof {
                    assert(items_of(Some(b)) =~= items_of(node).insert(val));
                    assert forall|x: i32| items_of(b.right).contains(x) implies x >= b.val by {
                        if x != val {
                            assert(items_of(r0).contains(x));
                        }
                    }
                }
            }
            b
        },
    }
}

fn contains_in(node: &Option<Box<TreeNode>>, val: i32) -> (r: bool)
    requires
        ordered(*node),
    ensures
        r == items_of(*node).contains(val),
    decreases *node,
{
    match node {
        None => false,
        Some(b) => {
            if val == b.val {
                true
            } else if val < b.val {
                let r = contains_in(&b.left, val);
                proof {
                    if items_of(b.right).contains(val) {
                        assert(val >= b.val);
                    }
                }
                r
            } else {
                let r = contains_in(&b.right, val);
                proof {
                    if items_of(b.left).contains(val) {
                        assert(val < b.val);
                    }
                }
                r
            }
        },
    }
}

fn bound_in(node: &Option<Box<TreeNode>>, val: i32, strict: bool) -> (r: Option<i32>)
    requires
        ordered(*node),
    ensures
        r matches Some(k) ==> least_from(items_of(*node), val, strict, k),
        r is None ==> forall|x: i32| items_of(*node).contains(x) ==> !above(x, val, strict),
    decreases *node,
{
    match node {
        None => None,
        Some(b) => {
            let here = if strict {
                b.val > val
            } else {
                b.val >= val
            };
            if !here {
                let r = bound_in(&b.right, val, strict);
                proof {
                    assert forall|x: i32| items_of(b.left).contains(x) implies !above(x, val, strict) by {
                        assert(x < b.val);
                    }
                    let m = items_of(*node);
                    assert(m == items_of(b.left).add(items_of(b.right)).insert(b.val));
                    assert forall|x: i32| m.contains(x) implies items_of(b.left).contains(x) || items_of(b.right).contains(x) || x == b.val by {}
                    if r is Some {
                        let k = r.unwrap();
                        assert(m.contains(k));
                        assert forall|x: i32| m.contains(x) && above(x, val, strict) implies k <= x by {
                            if items_of(b.left).contains(x) {
                                assert(x < b.val);
                            }
                        }
                    }
                }
                r
            } else {
                let r = bound_in(&b.left, val, strict);
                proof {
                    assert forall|x: i32| items_of(b.right).contains(x) implies b.val <= x by {}
                    let m = items_of(*node);
                    assert(m == items_of(b.left).add(items_of(b.right)).insert(b.val));
                    assert forall|x: i32| m.contains(x) implies items_of(b.left).contains(x) || items_of(b.right).contains(x) || x == b.val by {}
                    assert(m.contains(b.val));
                    if r is Some {
                        let k = r.unwrap();
                        assert(m.contains(k));
                        assert(k < b.val);
                        assert forall|x: i32| m.contains(x) && above(x, val, strict) implies k <= x by {
                            if items_of(b.right).contains(x) {
                                assert(b.val <= x);
                            }
                        }
                    } else {
                        assert forall|x: i32| m.contains(x) && above(x, val, strict) implies b.val <= x by {
                            if items_of(b.left).contains(x) {
                                assert(!above(x, val, strict));
                            }
                        }
                    }
                }
                match r {
                    Some(k) => {
                        proof {
                            assert(k < b.val);
                        }
                        Some(k)
                    },
                    None => Some(b.val),
                }
            }
        },
    }
}

proof fn lemma_parts(b: Box<TreeNode>, x: i32)
    ensures
        items_of(Some(b)).count(x) == items_of(b.left).count(x) + items_of(b.right).count(x) + if x == b.val {
            1nat
        } else {
            0nat
        },
{
}

/// Takes the least value out of a non-empty subtree.
fn remove_min(node: Box<TreeNode>) -> (res: (Option<Box<TreeNode>>, i32))
    requires
        ordered(Some(node)),
    ensures
        ordered(res.0),
        items_of(Some(node)).contains(res.1),
        items_of(res.0) == items_of(Some(node)).remove(res.1),
        forall|x: i32| items_of(Some(node)).contains(x) ==> res.1 <= x,
    decreases node,
{
    let ghost n0 = node;
    let mut n = node;
    match n.left.take() {
        None => {
            let r = n.right.take();
            proof {
                assert(items_of(n0.left) =~= Multiset::empty());
                assert(items_of(r) =~= items_of(Some(n0)).remove(n0.val));
                assert forall|x: i32| items_of(Some(n0)).contains(x) implies n0.val <= x by {
                    lemma_parts(n0, x);
                    if items_of(n0.right).contains(x) {
                        assert(x >= n0.val);
                    } else if x != n0.val {
                        assert(items_of(n0.left).count(x) == 0);
                    }
                }
            }
            (r, n.val)
        },
        Some(l) => {
            let ghost l0 = l;
            let (nl, m) = remove_min(l);
            n.left = nl;
            proof {
                lemma_parts(n0, m);
                assert(items_of(Some(n)) =~= items_of(Some(n0)).remove(m));
                assert forall|x: i32| items_of(n.left).contains(x) implies x < n.val by {
                    assert(items_of(Some(l0)).contains(x));
                }
                assert forall|x: i32| items_of(Some(n0)).contains(x) implies m <= x by {
                    lemma_parts(n0, x);
                    assert(m < n0.val);
                    if items_of(n0.right).contains(x) {
                        assert(n0.val <= x);
                    } else if items_of(n0.left).contains(x) {
                        assert(items_of(Some(l0)).contains(x));
                    }
                }
            }
            (Some(n), m)
        },
    }
}

fn delete_in(node: Option<Box<TreeNode>>, val: i32) -> (r: Option<Box<TreeNode>>)
    requires
        ordered(node),
    ensures
        ordered(r),
        items_of(r) == items_of(node).remove(val),
    decreases node,
{
    match node {
        None => {
            assert(items_of(node) =~= items_of(node).remove(val));
            None
        },
        Some(mut b) => {
            let ghost b0 = b;
            if val < b.val {
                let l = b.left.take();
                b.left = delete_in(l, val);
                proof {
                    lemma_parts(b0, val);
                    if items_of(b0.right).contains(val) {
                        assert(val >= b0.val);
                    }
                    assert(items_of(Some(b)) =~= items_of(node).remove(val));
                    assert forall|x: i32| items_of(b.left).contains(x) implies x < b.val by {
                        assert(items_of(b0.left).contains(x));
                    }
                }
                Some(b)
            } else if val > b.val {
                let r = b.right.take();
                b.right = delete_in(r, val);
                proof {
                    lemma_parts(b0, val);
                    if items_of(b0.left).contains(val) {
                        assert(val < b0.val);
                    }
                    assert(items_of(Some(b)) =~= items_of(node).remove(val));
                    assert forall|x: i32| items_of(b.right).contains(x) implies x >= b.val by {
                        assert(items_of(b0.right).contains(x));
                    }
                }
                Some(b)
            } else {
                match b.right.take() {
                    None => {
                        let l = b.left.take();
                        proof {
                            assert(items_of(b0.right) =~= Multiset::empty());
                            assert(items_of(l) =~= items_of(node).remove(val));
                        }
                        l
                    },
                    Some(rt) => {
                        let ghost r0 = rt;
                        let (nr, m) = remove_min(rt);
                        b.val = m;
                        b.right = nr;
                        proof {
                            assert(b0.val <= m);
                            assert(items_of(Some(b)) =~= items_of(node).remove(val));
                            assert forall|x: i32| items_of(b.left).contains(x) implies x < b.val by {
                                assert(x < b0.val);
                            }
                            assert forall|x: i32| items_of(b.right).contains(x) implies x >= b.val by {
                                assert(items_of(Some(r0)).contains(x));
                            }
                        }
                        Some(b)
                    },
                }
            }
        },
    }
}

/// A binary search tree; its view is the multiset of values.
pub struct BinarySearchTree {
    head: Option<Box<TreeNode>>,
}

impl View for BinarySearchTree {
    type V = Multiset<i32>;

    closed spec fn view(&self) -> Multiset<i32> {
        items_of(self.head)
    }
}

impl BinarySearchTree {
    /// The ordering invariant.
    pub closed spec fn wf(&self) -> bool {
        ordered(self.head)
    }

    /// An empty tree.
    pub fn new() -> (r: Self)
        ensures
            r.wf(),
            r@ == Multiset::<i32>::empty(),
    {
        BinarySearchTree { head: None }
    }

    /// The least value at least `val`.
    pub fn lower_bound(&self, val: i32) -> (r: Option<i32>)
        requires
            self.wf(),
        ensures
            r matches Some(k) ==> least_from(self@, val, false, k),
            r is None ==> forall|x: i32| self@.contains(x) ==> x < val,
    {
        bound_in(&self.head, val, false)
    }

    /// The least value greater than `val`.
    pub fn upper_bound(&self, val: i32) -> (r: Option<i32>)
        requires
            self.wf(),
        ensures
            r matches Some(k) ==> least_from(self@, val, true, k),
            r is None ==> forall|x: i32| self@.contains(x) ==> x <= val,
    {
        bound_in(&self.head, val, true)
    }

    /// Adds `val`; a value equal to one held goes into its right subtree.
    pub fn insert(&mut self, val: i32)
        requires
            old(self).wf(),
        ensures
            final(self).wf(),
            final(self)@ == old(self)@.insert(val),
    {
        let h = self.head.take();
        self.head = Some(insert_node(h, val));
    }

    /// Removes one copy of `target`, if there is one.
    pub fn delete(&mut self, target: i32)
        requires
            old(self).wf(),
        ensures
            final(self).wf(),
            final(self)@ == old(self)@.remove(target),
    {
        let h = self.head.take();
        self.head = delete_in(h, target);
    }

    /// Whether `val` is held.
    pub fn contain(&self, val: i32) -> (r: bool)
        requires
            self.wf(),
        ensures
            r == self@.contains(val),
    {
        contains_in(&self.head, val)
    }
}

} // verus!
