//! Binary trees: the two-child case of the threaded traversal, with its
//! three distinguishable yield points — before the left subtree
//! (pre-order), between the subtrees (in-order), and after both
//! (post-order).
//!
//! The walking itself is the one fixed-arity engine instantiated at
//! arity two; a binary [`Node`] names its sides instead of indexing an
//! array, and each of the three orders is specified directly by its own
//! recursive equation over those sides.

use vstd::prelude::*;

use crate::nary_tree;
use crate::nary_tree::ovals_kids;
use crate::order::{full_ord, pick};

verus! {

/// An owned binary node under construction: a value and two optional
/// subtrees.
pub struct Node<T> {
    pub val: T,
    pub left: Option<Box<Node<T>>>,
    pub right: Option<Box<Node<T>>>,
}

impl<T> Node<T> {
    /// The value sequence of this subtree with yield point `ra`:
    /// `0` lists a node before its subtrees, `1` between them, `2`
    /// after them.
    pub open spec fn bvals(self, ra: int) -> Seq<T>
        decreases self,
    {
        let l = match self.left {
            None => Seq::<T>::empty(),
            Some(c) => c.bvals(ra),
        };
        let r = match self.right {
            None => Seq::<T>::empty(),
            Some(c) => c.bvals(ra),
        };
        if ra <= 0 {
            seq![self.val] + l + r
        } else if ra == 1 {
            l + seq![self.val] + r
        } else {
            l + r + seq![self.val]
        }
    }

    /// Allocates one owned binary node.
    pub fn boxed(val: T, left: Option<Box<Node<T>>>, right: Option<Box<Node<T>>>) -> (r: Box<Node<T>>)
        ensures
            r.val == val,
            r.left == left,
            r.right == right,
    {
        Box::new(Node { val, left, right })
    }
}

/// Rebuilds a binary node as a fixed-arity-two node, side by side into
/// slot order; all three traversal orders carry over exactly.
fn to_nary<T>(n: Box<Node<T>>) -> (r: Box<nary_tree::Node<T, 2>>)
    ensures
        r.nwf(),
        forall|ra: int| 0 <= ra <= 2 ==> #[trigger] r.ovals(ra) == n.bvals(ra),
    decreases n,
{
    let ghost n0 = *n;
    let nb = *n;
    let val = nb.val;
    let left = nb.left;
    let right = nb.right;
    let lc: Option<Box<nary_tree::Node<T, 2>>> = match left {
        None => None,
        Some(lb) => {
            proof {
                assert(decreases_to!(n => n0.left));
                assert(n0.left == Some(lb));
                assert(decreases_to!(n0.left => lb));
            }
            Some(to_nary(lb))
        },
    };
    let rc: Option<Box<nary_tree::Node<T, 2>>> = match right {
        None => None,
        Some(rb) => {
            proof {
                assert(decreases_to!(n => n0.right));
                assert(n0.right == Some(rb));
                assert(decreases_to!(n0.right => rb));
            }
            Some(to_nary(rb))
        },
    };
    let ghost lcg = lc;
    let ghost rcg = rc;
    let mut children: Vec<Option<Box<nary_tree::Node<T, 2>>>> = Vec::new();
    children.push(lc);
    children.push(rc);
    let out = nary_tree::Node::boxed(val, children);
    proof {
        let ck = out.children@;
        assert(ck.len() == 2);
        assert(ck[0] == lcg);
        assert(ck[1] == rcg);
        assert(nary_tree::nwf_kids(ck, 2));
        assert(nary_tree::nwf_kids(ck, 1));
        assert(nary_tree::nwf_kids(ck, 0));
        assert forall|ra: int| 0 <= ra <= 2 implies #[trigger] out.ovals(ra) == n0.bvals(ra) by {
            let l = match n0.left {
                None => Seq::<T>::empty(),
                Some(c) => c.bvals(ra),
            };
            let r = match n0.right {
                None => Seq::<T>::empty(),
                Some(c) => c.bvals(ra),
            };
            assert(ovals_kids(ck, 2, 2, ra) =~= Seq::<T>::empty());
            assert(ovals_kids(ck, 1, 2, ra) == (match ck[1] {
                None => Seq::<T>::empty(),
                Some(c) => c.ovals(ra),
            }) + ovals_kids(ck, 2, 2, ra));
            assert(ovals_kids(ck, 0, 2, ra) == (match ck[0] {
                None => Seq::<T>::empty(),
                Some(c) => c.ovals(ra),
            }) + ovals_kids(ck, 1, 2, ra));
            assert(ovals_kids(ck, 0, 1, ra) == (match ck[0] {
                None => Seq::<T>::empty(),
                Some(c) => c.ovals(ra),
            }) + ovals_kids(ck, 1, 1, ra));
            assert(ovals_kids(ck, 1, 1, ra) =~= Seq::<T>::empty());
            assert(ovals_kids(ck, 0, 0, ra) =~= Seq::<T>::empty());
            let lv = match ck[0] {
                None => Seq::<T>::empty(),
                Some(c) => c.ovals(ra),
            };
            let rv = match ck[1] {
                None => Seq::<T>::empty(),
                Some(c) => c.ovals(ra),
            };
            assert(lv == l);
            assert(rv == r);
            if ra == 0 {
                assert(out.ovals(0) == ovals_kids(ck, 0, 0, 0) + seq![val] + ovals_kids(ck, 0, 2, 0));
                assert(ovals_kids(ck, 0, 0, 0) + seq![val] + (lv + (rv + Seq::<T>::empty()))
                    =~= seq![val] + lv + rv);
            } else if ra == 1 {
                assert(out.ovals(1) == ovals_kids(ck, 0, 1, 1) + seq![val] + ovals_kids(ck, 1, 2, 1));
                assert((lv + Seq::<T>::empty()) + seq![val] + (rv + Seq::<T>::empty())
                    =~= lv + seq![val] + rv);
            } else {
                assert(out.ovals(2) == ovals_kids(ck, 0, 2, 2) + seq![val] + ovals_kids(ck, 2, 2, 2));
                assert((lv + (rv + Seq::<T>::empty())) + seq![val] + Seq::<T>::empty()
                    =~= lv + rv + seq![val]);
            }
        }
    }
    out
}

/// A binary tree: the fixed-arity engine at arity two, built from
/// named-side nodes.
pub struct Tree<T> {
    inner: nary_tree::Tree<T, 2>,
}

impl<T> Tree<T> {
    /// The node values, by handle.
    pub closed spec fn val_seq(self) -> Seq<T> {
        self.inner.val_seq()
    }

    /// No traversal is in progress and the arena encodes a tree.
    pub closed spec fn at_rest(self) -> bool {
        self.inner.at_rest()
    }

    /// The handle sequence of the traversal with yield point `ra`.
    pub closed spec fn order(self, ra: int) -> Seq<int> {
        self.inner.order(ra)
    }

    /// The value sequence of the traversal with yield point `ra`.
    pub closed spec fn order_vals(self, ra: int) -> Seq<T> {
        self.inner.order_vals(ra)
    }

    /// The number of nodes.
    pub closed spec fn size(self) -> int {
        self.inner.size()
    }

    /// Do two trees share slots and root exactly — everything but the
    /// values?
    pub closed spec fn same_shape(self, other: Tree<T>) -> bool {
        self.inner.slot_seq() == other.inner.slot_seq()
            && self.inner.root_handle() == other.inner.root_handle()
    }

    /// Builds a binary tree from an owned root (or none). Its pre-,
    /// in- and post-order value sequences are exactly the three
    /// recursive orders of the given root.
    pub fn new(root: Option<Box<Node<T>>>) -> (t: Tree<T>)
        ensures
            t.at_rest(),
            forall|ra: int| 0 <= ra <= 2
                ==> #[trigger] t.order_vals(ra) == (match root {
                    None => Seq::<T>::empty(),
                    Some(n) => n.bvals(ra),
                }),
    {
        match root {
            None => {
                Tree { inner: nary_tree::Tree::new(None) }
            },
            Some(b) => {
                let nb = to_nary(b);
                Tree { inner: nary_tree::Tree::new(Some(nb)) }
            },
        }
    }

    /// Starts a traversal yielding at point `R`: `0` for pre-order,
    /// `1` for in-order, `2` for post-order.
    pub fn node_iter<const R: usize>(&self) -> (it: NodeIter<T, R>)
        requires
            R <= 2,
            self.at_rest(),
        ensures
            it.inv(*self),
            it.emitted() == 0,
            it.expected() == self.order(R as int),
            forall|ra: int| it.orig_order(ra) == self.order(ra),
    {
        NodeIter { inner: self.inner.node_iter::<R>() }
    }

    /// Starts a mutable pre-order traversal.
    pub fn dfs_iter_mut(&self) -> (it: DfsIterMut<T>)
        requires
            self.at_rest(),
        ensures
            it.inv(*self),
            it.emitted() == 0,
            it.expected() == self.order(0),
            forall|ra: int| it.orig_order(ra) == self.order(ra),
    {
        DfsIterMut { iter: NodeIter { inner: self.inner.node_iter::<0>() } }
    }

    /// The value of the node at `h`.
    pub fn value(&self, h: usize) -> (r: &T)
        requires
            (h as int) < self.size(),
        ensures
            *r == self.val_seq()[h as int],
    {
        self.inner.value(h)
    }

    /// Replaces the value of the node at `h`; the structure is
    /// untouched.
    pub fn set_value(&mut self, h: usize, v: T)
        requires
            (h as int) < old(self).size(),
        ensures
            final(self).val_seq() == old(self).val_seq().update(h as int, v),
            final(self).same_shape(*old(self)),
    {
        self.inner.set_value(h, v);
    }

    /// Tears the tree down leaf-first and returns every value in
    /// post-order: each node exactly once.
    pub fn destroy(self) -> (r: Vec<T>)
        requires
            self.at_rest(),
        ensures
            r@ == self.order_vals(2),
            r@.len() == self.size(),
    {
        self.inner.destroy()
    }
}

/// A traversal over a binary tree with a fixed yield point.
pub struct NodeIter<T, const RETURN_ON_VISIT: usize> {
    inner: nary_tree::NodeIter<T, 2, RETURN_ON_VISIT>,
}

impl<T, const RETURN_ON_VISIT: usize> NodeIter<T, RETURN_ON_VISIT> {
    /// The underlying traversal invariant.
    pub closed spec fn inv(self, tree: Tree<T>) -> bool {
        self.inner.inv(tree.inner) && RETURN_ON_VISIT <= 2
    }

    /// How many nodes have been yielded so far.
    pub closed spec fn emitted(self) -> int {
        self.inner.emitted()
    }

    /// The handle sequence this traversal yields.
    pub closed spec fn expected(self) -> Seq<int> {
        self.inner.expected()
    }

    /// The traversal orders of the tree as it stood when this traversal
    /// began — and as it stands again once the traversal is exhausted or
    /// released.
    pub closed spec fn orig_order(self, ra: int) -> Seq<int> {
        full_ord(self.inner.orig_kids(), self.inner.orig_root(), ra)
    }

    /// Advances to the next yield point; `None` once every node has
    /// been yielded, with the tree fully restored.
    pub fn next(&mut self, tree: &mut Tree<T>) -> (r: Option<usize>)
        requires
            old(self).inv(*old(tree)),
        ensures
            final(self).inv(*final(tree)),
            final(tree).val_seq() == old(tree).val_seq(),
            final(self).expected() == old(self).expected(),
            old(self).emitted() < old(self).expected().len()
                ==> (r matches Some(h) && h as int == old(self).expected()[old(self).emitted()]
                    && final(self).emitted() == old(self).emitted() + 1),
            old(self).emitted() >= old(self).expected().len()
                ==> r is None && final(self).emitted() == old(self).emitted(),
            forall|ra: int| final(self).orig_order(ra) == old(self).orig_order(ra),
            r is None ==> final(tree).at_rest()
                && (forall|ra: int| final(tree).order(ra) == final(self).orig_order(ra))
                && (forall|ra: int|
                    final(tree).order_vals(ra) == pick(old(tree).val_seq(), final(self).orig_order(ra))),
            r matches Some(h) ==> (h as int) < final(tree).size(),
    {
        self.inner.next(&mut tree.inner)
    }

    /// Releases the traversal early, restoring the tree's structure
    /// without visiting the remaining nodes.
    pub fn finish(self, tree: &mut Tree<T>)
        requires
            self.inv(*old(tree)),
        ensures
            final(tree).at_rest(),
            final(tree).val_seq() == old(tree).val_seq(),
            forall|ra: int| final(tree).order(ra) == self.orig_order(ra),
            forall|ra: int| final(tree).order_vals(ra) == pick(old(tree).val_seq(), self.orig_order(ra)),
            final(tree).order(RETURN_ON_VISIT as int) == self.expected(),
    {
        proof {
            assert(self.inner.inv(old(tree).inner));
        }
        self.inner.finish(&mut tree.inner);
    }
}

/// A mutable pre-order iterator over a binary tree.
pub struct DfsIterMut<T> {
    iter: NodeIter<T, 0>,
}

impl<T> DfsIterMut<T> {
    /// The underlying traversal invariant.
    pub closed spec fn inv(self, tree: Tree<T>) -> bool {
        self.iter.inv(tree)
    }

    /// How many nodes have been yielded so far.
    pub closed spec fn emitted(self) -> int {
        self.iter.emitted()
    }

    /// The handle sequence this iterator walks: the tree's pre-order.
    pub closed spec fn expected(self) -> Seq<int> {
        self.iter.expected()
    }

    /// The traversal orders of the tree as it was when iteration began.
    pub closed spec fn orig_order(self, ra: int) -> Seq<int> {
        self.iter.orig_order(ra)
    }

    /// Hands out the next node in pre-order, or `None` at the end,
    /// when the tree again stands exactly as built.
    pub fn next(&mut self, tree: &mut Tree<T>) -> (r: Option<usize>)
        requires
            old(self).inv(*old(tree)),
        ensures
            final(self).inv(*final(tree)),
            final(tree).val_seq() == old(tree).val_seq(),
            final(self).expected() == old(self).expected(),
            old(self).emitted() < old(self).expected().len()
                ==> (r matches Some(h) && h as int == old(self).expected()[old(self).emitted()]
                    && final(self).emitted() == old(self).emitted() + 1),
            old(self).emitted() >= old(self).expected().len()
                ==> r is None && final(self).emitted() == old(self).emitted(),
            forall|ra: int| final(self).orig_order(ra) == old(self).orig_order(ra),
            r is None ==> final(tree).at_rest()
                && (forall|ra: int| final(tree).order(ra) == final(self).orig_order(ra))
                && (forall|ra: int|
                    final(tree).order_vals(ra) == pick(old(tree).val_seq(), final(self).orig_order(ra))),
            r matches Some(h) ==> (h as int) < final(tree).size(),
    {
        self.iter.next(tree)
    }

    /// Releases the iterator early; the tree's structure is restored.
    pub fn finish(self, tree: &mut Tree<T>)
        requires
            self.inv(*old(tree)),
        ensures
            final(tree).at_rest(),
            final(tree).val_seq() == old(tree).val_seq(),
            forall|ra: int| final(tree).order(ra) == self.orig_order(ra),
            forall|ra: int| final(tree).order_vals(ra) == pick(old(tree).val_seq(), self.orig_order(ra)),
            final(tree).order(0) == self.expected(),
    {
        self.iter.finish(tree);
    }
}


/// The value sequence of a traversal reads the tree's values at the
/// order's handles — the glue between `order`, `val_seq` and
/// `order_vals`, for reasoning about values seen along a walk.
pub proof fn lemma_order_vals_pick<T>(t: Tree<T>, ra: int)
    ensures
        t.order_vals(ra) == pick(t.val_seq(), t.order(ra)),
{
}

/// A binary tree at rest orders each of its nodes exactly once per
/// traversal, at every yield point.
pub proof fn lemma_order_counts_nodes<T>(t: Tree<T>, ra: int)
    requires
        0 <= ra,
        t.at_rest(),
    ensures
        t.order(ra).len() == t.size(),
        t.order_vals(ra).len() == t.size(),
{
    crate::nary_tree::lemma_order_counts_nodes(t.inner, ra);
}

/// Replacing values does not disturb a live traversal of a binary
/// tree: the iterator's invariant never reads the values.
pub proof fn lemma_inv_after_set_value<T, const R: usize>(it: NodeIter<T, R>, t1: Tree<T>, t2: Tree<T>)
    requires
        it.inv(t1),
        t2.same_shape(t1),
        t2.val_seq().len() == t1.val_seq().len(),
    ensures
        it.inv(t2),
{
    crate::nary_tree::lemma_inv_after_set_value(it.inner, t1.inner, t2.inner);
}

/// The pre-order iterator's form of [`lemma_inv_after_set_value`].
pub proof fn lemma_dfs_inv_after_set_value<T>(it: DfsIterMut<T>, t1: Tree<T>, t2: Tree<T>)
    requires
        it.inv(t1),
        t2.same_shape(t1),
        t2.val_seq().len() == t1.val_seq().len(),
    ensures
        it.inv(t2),
{
    lemma_inv_after_set_value(it.iter, t1, t2);
}


} // verus!
