//! The binary search tree itself.
//!
//! `BST<T>` is specified through its view, the `Set<T>` of values it
//! holds. A type invariant keeps every node ordered: values in a node's
//! left subtree come strictly before the node's value, values in its
//! right subtree strictly after.

use crate::order::TotalOrder;
use core::cmp::Ordering;
use vstd::prelude::*;

verus! {

/// The two ways an operation can fail: inserting a value that is already
/// present, or deleting one that is absent.
#[derive(Debug, Clone, Copy, PartialEq, Eq, Structural)]
pub enum BstError {
    DuplicateInsert,
    ValueNotFound,
}

#[derive(Debug)]
struct Node<T: TotalOrder> {
    value: T,
    left: Option<Box<Node<T>>>,
    right: Option<Box<Node<T>>>,
}

/// An unbalanced binary search tree holding a set of distinct values.
#[derive(Debug)]
pub struct BST<T: TotalOrder> {
    root: Option<Box<Node<T>>>,
}

impl<T: TotalOrder> Node<T> {
    /// The set of values stored in an optional subtree.
    spec fn opt_set(opt: Option<Box<Node<T>>>) -> Set<T>
        decreases opt,
    {
        match opt {
            None => Set::empty(),
            Some(node) => node.values(),
        }
    }

    /// The set of values stored in the subtree rooted at `self`.
    spec fn values(self) -> Set<T>
        decreases self,
    {
        Node::<T>::opt_set(self.left).union(Node::<T>::opt_set(self.right)).insert(self.value)
    }

    /// The search-tree ordering: everything on the left comes strictly
    /// before the node's value, everything on the right strictly after,
    /// recursively.
    spec fn ordered(self) -> bool
        decreases self,
    {
        &&& (forall|e: T|
            #[trigger] Node::<T>::opt_set(self.left).contains(e) ==> e.lt(self.value))
        &&& (forall|e: T|
            #[trigger] Node::<T>::opt_set(self.right).contains(e) ==> self.value.lt(e))
        &&& (match self.left {
            Some(left_node) => left_node.ordered(),
            None => true,
        })
        &&& (match self.right {
            Some(right_node) => right_node.ordered(),
            None => true,
        })
    }

    /// The ordering condition on an optional subtree.
    spec fn opt_ordered(opt: Option<Box<Node<T>>>) -> bool {
        match opt {
            None => true,
            Some(node) => node.ordered(),
        }
    }

    /// Membership search: one descent, turning left or right as the
    /// comparison directs.
    fn search(opt: &Option<Box<Node<T>>>, value: &T) -> (found: bool)
        requires
            Node::<T>::opt_ordered(*opt),
        ensures
            found == Node::<T>::opt_set(*opt).contains(*value),
        decreases *opt,
    {
        match opt {
            None => false,
            Some(node) => match value.compare(&node.value) {
                Ordering::Equal => true,
                Ordering::Less => {
                    proof {
                        if Node::<T>::opt_set(node.right).contains(*value) {
                            T::lemma_asymmetric(*value, node.value);
                        }
                    }
                    Node::<T>::search(&node.left, value)
                },
                Ordering::Greater => {
                    proof {
                        if Node::<T>::opt_set(node.left).contains(*value) {
                            T::lemma_asymmetric(node.value, *value);
                        }
                    }
                    Node::<T>::search(&node.right, value)
                },
            },
        }
    }

    /// Descends to the first empty slot on the search path and attaches
    /// `value` there as a fresh leaf; an equal value already on the path
    /// fails the insertion and leaves the subtree untouched.
    fn insert_into(opt: &mut Option<Box<Node<T>>>, value: T) -> (r: Result<(), BstError>)
        requires
            Node::<T>::opt_ordered(*old(opt)),
        ensures
            Node::<T>::opt_ordered(*final(opt)),
            Node::<T>::opt_set(*old(opt)).contains(value) ==> r == Err::<(), BstError>(
                BstError::DuplicateInsert,
            ) && *final(opt) == *old(opt),
            !Node::<T>::opt_set(*old(opt)).contains(value) ==> r == Ok::<(), BstError>(())
                && Node::<T>::opt_set(*final(opt)) =~= Node::<T>::opt_set(*old(opt)).insert(value),
        decreases *old(opt),
    {
        match opt.take() {
            None => {
                *opt = Some(Box::new(Node::<T> { value, left: None, right: None }));
                Ok(())
            },
            Some(mut boxed) => {
                match value.compare(&boxed.value) {
                    Ordering::Equal => {
                        *opt = Some(boxed);
                        Err(BstError::DuplicateInsert)
                    },
                    Ordering::Less => {
                        proof {
                            if Node::<T>::opt_set(boxed.right).contains(value) {
                                T::lemma_asymmetric(value, boxed.value);
                            }
                        }
                        let r = Node::<T>::insert_into(&mut boxed.left, value);
                        *opt = Some(boxed);
                        r
                    },
                    Ordering::Greater => {
                        proof {
                            if Node::<T>::opt_set(boxed.left).contains(value) {
                                T::lemma_asymmetric(boxed.value, value);
                            }
                        }
                        let r = Node::<T>::insert_into(&mut boxed.right, value);
                        *opt = Some(boxed);
                        r
                    },
                }
            },
        }
    }

    /// Detaches the leftmost node of a non-empty subtree and returns its
    /// value, the minimum of the subtree. The detached node has no left
    /// child; its right subtree, if any, takes over its slot.
    fn pop_leftmost(opt: &mut Option<Box<Node<T>>>) -> (popped: T)
        requires
            old(opt).is_some(),
            Node::<T>::opt_ordered(*old(opt)),
        ensures
            Node::<T>::opt_ordered(*final(opt)),
            Node::<T>::opt_set(*old(opt)).contains(popped),
            Node::<T>::opt_set(*final(opt)) =~= Node::<T>::opt_set(*old(opt)).remove(popped),
            forall|e: T|
                Node::<T>::opt_set(*old(opt)).contains(e) && e != popped ==> #[trigger] popped.lt(
                    e,
                ),
        decreases *old(opt),
    {
        let mut boxed = opt.take().unwrap();
        let ghost top = *old(opt)->Some_0;
        if boxed.left.is_none() {
            proof {
                if Node::<T>::opt_set(boxed.right).contains(boxed.value) {
                    T::lemma_asymmetric(boxed.value, boxed.value);
                }
                assert(Node::<T>::opt_set(boxed.left) =~= Set::<T>::empty());
                assert(Node::<T>::opt_set(boxed.right) =~= Node::<T>::opt_set(*old(opt)).remove(
                    boxed.value,
                ));
                assert forall|e: T|
                    Node::<T>::opt_set(*old(opt)).contains(e) && e != boxed.value implies
                    boxed.value.lt(e) by {
                    assert(Node::<T>::opt_set(top.right).contains(e));
                }
            }
            *opt = boxed.right;
            boxed.value
        } else {
            let popped = Node::<T>::pop_leftmost(&mut boxed.left);
            proof {
                if Node::<T>::opt_set(boxed.right).contains(popped) {
                    T::lemma_asymmetric(popped, boxed.value);
                }
                if popped == boxed.value {
                    T::lemma_asymmetric(boxed.value, boxed.value);
                }
                assert(Node::<T>::opt_set(Some(boxed)) =~= Node::<T>::opt_set(*old(opt)).remove(
                    popped,
                ));
                assert forall|e: T|
                    Node::<T>::opt_set(*old(opt)).contains(e) && e != popped implies popped.lt(
                    e,
                ) by {
                    if Node::<T>::opt_set(top.left).contains(e) {
                    } else if e == top.value {
                    } else {
                        assert(Node::<T>::opt_set(top.right).contains(e));
                        T::lemma_transitive(popped, top.value, e);
                    }
                }
            }
            *opt = Some(boxed);
            popped
        }
    }

    /// Removes the node holding a value equal to `value`, splicing its
    /// subtrees back together: a missing child's sibling takes the slot
    /// wholesale, and a node with two children instead receives the value
    /// of its in-order successor, whose structurally simpler node is the
    /// one detached.
    fn delete_from(opt: &mut Option<Box<Node<T>>>, value: &T) -> (r: Result<T, BstError>)
        requires
            Node::<T>::opt_ordered(*old(opt)),
        ensures
            Node::<T>::opt_ordered(*final(opt)),
            Node::<T>::opt_set(*old(opt)).contains(*value) ==> r == Ok::<T, BstError>(*value)
                && Node::<T>::opt_set(*final(opt)) =~= Node::<T>::opt_set(*old(opt)).remove(
                *value,
            ),
            !Node::<T>::opt_set(*old(opt)).contains(*value) ==> r == Err::<T, BstError>(
                BstError::ValueNotFound,
            ) && *final(opt) == *old(opt),
        decreases *old(opt),
    {
        match opt.take() {
            None => Err(BstError::ValueNotFound),
            Some(mut boxed) => {
                match value.compare(&boxed.value) {
                    Ordering::Less => {
                        proof {
                            if Node::<T>::opt_set(boxed.right).contains(*value) {
                                T::lemma_asymmetric(*value, boxed.value);
                            }
                        }
                        let r = Node::<T>::delete_from(&mut boxed.left, value);
                        *opt = Some(boxed);
                        r
                    },
                    Ordering::Greater => {
                        proof {
                            if Node::<T>::opt_set(boxed.left).contains(*value) {
                                T::lemma_asymmetric(boxed.value, *value);
                            }
                        }
                        let r = Node::<T>::delete_from(&mut boxed.right, value);
                        *opt = Some(boxed);
                        r
                    },
                    Ordering::Equal => {
                        proof {
                            if Node::<T>::opt_set(boxed.left).contains(boxed.value) {
                                T::lemma_asymmetric(boxed.value, boxed.value);
                            }
                            if Node::<T>::opt_set(boxed.right).contains(boxed.value) {
                                T::lemma_asymmetric(boxed.value, boxed.value);
                            }
                        }
                        if boxed.left.is_none() {
                            *opt = boxed.right;
                            Ok(boxed.value)
                        } else if boxed.right.is_none() {
                            *opt = boxed.left;
                            Ok(boxed.value)
                        } else {
                            let popped = Node::<T>::pop_leftmost(&mut boxed.right);
                            proof {
                                if popped == boxed.value {
                                    T::lemma_asymmetric(boxed.value, boxed.value);
                                }
                                if Node::<T>::opt_set(boxed.left).contains(popped) {
                                    T::lemma_asymmetric(popped, boxed.value);
                                }
                                assert forall|e: T|
                                    Node::<T>::opt_set(boxed.left).contains(e) implies e.lt(
                                    popped,
                                ) by {
                                    T::lemma_transitive(e, boxed.value, popped);
                                }
                            }
                            let mut out = popped;
                            core::mem::swap(&mut boxed.value, &mut out);
                            *opt = Some(boxed);
                            Ok(out)
                        }
                    },
                }
            },
        }
    }

    /// The in-order listing of a subtree: left subtree first, then the
    /// node's value, then the right subtree.
    spec fn in_order(opt: Option<Box<Node<T>>>) -> Seq<T>
        decreases opt,
    {
        match opt {
            None => Seq::empty(),
            Some(node) => Node::<T>::in_order(node.left) + seq![node.value] + Node::<T>::in_order(
                node.right,
            ),
        }
    }

    /// The in-order listing holds exactly the values of the subtree.
    proof fn lemma_in_order_elems(opt: Option<Box<Node<T>>>)
        ensures
            forall|e: T|
                #[trigger] Node::<T>::in_order(opt).contains(e) <==> Node::<T>::opt_set(
                    opt,
                ).contains(e),
        decreases opt,
    {
        match opt {
            None => {},
            Some(node) => {
                Node::<T>::lemma_in_order_elems(node.left);
                Node::<T>::lemma_in_order_elems(node.right);
                let io = Node::<T>::in_order(opt);
                let left = Node::<T>::in_order(node.left);
                let right = Node::<T>::in_order(node.right);
                assert forall|e: T| #[trigger] io.contains(e) implies Node::<T>::opt_set(
                    opt,
                ).contains(e) by {
                    let i = choose|i: int| 0 <= i < io.len() && io[i] == e;
                    if i < left.len() {
                        assert(left[i] == e);
                        assert(left.contains(e));
                    } else if i > left.len() {
                        assert(right[i - left.len() - 1] == e);
                        assert(right.contains(e));
                    }
                }
                assert forall|e: T| Node::<T>::opt_set(opt).contains(e) implies #[trigger] io
                    .contains(e) by {
                    if Node::<T>::opt_set(node.left).contains(e) {
                        assert(left.contains(e));
                        let i = choose|i: int| 0 <= i < left.len() && left[i] == e;
                        assert(io[i] == e);
                    } else if Node::<T>::opt_set(node.right).contains(e) {
                        assert(right.contains(e));
                        let i = choose|i: int| 0 <= i < right.len() && right[i] == e;
                        assert(io[left.len() + 1 + i] == e);
                    } else {
                        assert(io[left.len() as int] == e);
                    }
                }
            },
        }
    }

    /// In an ordered subtree the in-order listing is strictly ascending.
    proof fn lemma_in_order_sorted(opt: Option<Box<Node<T>>>)
        requires
            Node::<T>::opt_ordered(opt),
        ensures
            forall|i: int, j: int|
                0 <= i < j < Node::<T>::in_order(opt).len() ==> #[trigger] Node::<T>::in_order(
                    opt,
                )[i].lt(#[trigger] Node::<T>::in_order(opt)[j]),
        decreases opt,
    {
        match opt {
            None => {},
            Some(node) => {
                Node::<T>::lemma_in_order_elems(node.left);
                Node::<T>::lemma_in_order_elems(node.right);
                Node::<T>::lemma_in_order_sorted(node.left);
                Node::<T>::lemma_in_order_sorted(node.right);
                let io = Node::<T>::in_order(opt);
                let left = Node::<T>::in_order(node.left);
                let right = Node::<T>::in_order(node.right);
                assert forall|i: int, j: int| 0 <= i < j < io.len() implies #[trigger] io[i].lt(
                    #[trigger] io[j],
                ) by {
                    if i < left.len() {
                        assert(left.contains(left[i]));
                    }
                    if j > left.len() {
                        assert(right.contains(right[j - left.len() - 1]));
                    }
                    if i < left.len() && j > left.len() {
                        T::lemma_transitive(io[i], node.value, io[j]);
                    }
                }
            },
        }
    }

    /// In an ordered subtree the in-order listing is as long as the
    /// value set: each value appears exactly once.
    proof fn lemma_in_order_len(opt: Option<Box<Node<T>>>)
        requires
            Node::<T>::opt_ordered(opt),
        ensures
            Node::<T>::in_order(opt).len() == Node::<T>::opt_set(opt).len(),
        decreases opt,
    {
        match opt {
            None => {
                assert(Node::<T>::opt_set(opt) =~= Set::<T>::empty());
            },
            Some(node) => {
                Node::<T>::lemma_in_order_len(node.left);
                Node::<T>::lemma_in_order_len(node.right);
                Node::<T>::lemma_opt_set_finite(node.left);
                Node::<T>::lemma_opt_set_finite(node.right);
                let ls = Node::<T>::opt_set(node.left);
                let rs = Node::<T>::opt_set(node.right);
                assert forall|e: T| ls.contains(e) implies !rs.contains(e) by {
                    if rs.contains(e) {
                        T::lemma_asymmetric(e, node.value);
                    }
                }
                if ls.contains(node.value) {
                    T::lemma_asymmetric(node.value, node.value);
                }
                if rs.contains(node.value) {
                    T::lemma_asymmetric(node.value, node.value);
                }
                vstd::set_lib::lemma_set_disjoint_lens(ls, rs);
                assert(ls + rs =~= ls.union(rs));
                vstd::set::axiom_set_insert_len(ls.union(rs), node.value);
            },
        }
    }

    /// Every subtree stores a finite set of values.
    proof fn lemma_opt_set_finite(opt: Option<Box<Node<T>>>)
        ensures
            Node::<T>::opt_set(opt).finite(),
        decreases opt,
    {
        match opt {
            None => {},
            Some(node) => {
                Node::<T>::lemma_opt_set_finite(node.left);
                Node::<T>::lemma_opt_set_finite(node.right);
            },
        }
    }
}

impl<T: TotalOrder + Copy> Node<T> {
    /// Appends the in-order listing of a subtree to `out`.
    fn traverse(opt: &Option<Box<Node<T>>>, out: &mut Vec<T>)
        ensures
            final(out)@ =~= old(out)@ + Node::<T>::in_order(*opt),
        decreases *opt,
    {
        match opt {
            None => {},
            Some(node) => {
                Node::<T>::traverse(&node.left, out);
                out.push(node.value);
                Node::<T>::traverse(&node.right, out);
            },
        }
    }
}

impl<T: TotalOrder> View for BST<T> {
    type V = Set<T>;

    closed spec fn view(&self) -> Set<T> {
        Node::<T>::opt_set(self.root)
    }
}

impl<T: TotalOrder> BST<T> {
    #[verifier::type_invariant]
    spec fn well_formed(self) -> bool {
        Node::<T>::opt_ordered(self.root)
    }

    /// Builds the empty tree.
    pub fn new() -> (tree: Self)
        ensures
            tree@ == Set::<T>::empty(),
    {
        BST::<T> { root: None }
    }

    /// Reports whether `value` is in the tree, without changing it.
    pub fn contains(&mut self, value: &T) -> (found: bool)
        ensures
            *final(self) == *old(self),
            found == old(self)@.contains(*value),
    {
        proof {
            use_type_invariant(&*self);
        }
        Node::<T>::search(&self.root, value)
    }

    /// Inserts `value`. A value not yet present is attached as a leaf at
    /// the position the search determined; one already present fails with
    /// `DuplicateInsert` and leaves the tree unchanged.
    pub fn insert(&mut self, value: T) -> (r: Result<(), BstError>)
        ensures
            old(self)@.contains(value) ==> r == Err::<(), BstError>(BstError::DuplicateInsert)
                && *final(self) == *old(self),
            !old(self)@.contains(value) ==> r == Ok::<(), BstError>(()) && final(self)@ == old(
                self,
            )@.insert(value),
            final(self)@.len() == old(self)@.len() + (if old(self)@.contains(value) {
                0int
            } else {
                1int
            }),
    {
        proof {
            use_type_invariant(&*self);
        }
        let mut root = None;
        core::mem::swap(&mut root, &mut self.root);
        let r = Node::<T>::insert_into(&mut root, value);
        self.root = root;
        proof {
            Node::<T>::lemma_opt_set_finite(old(self).root);
            vstd::set::axiom_set_insert_len(old(self)@, value);
        }
        r
    }

    /// Deletes the value equal to `*value` and returns it. A value that
    /// is absent — in particular from the empty tree — fails with
    /// `ValueNotFound` and leaves the tree unchanged.
    pub fn delete(&mut self, value: &T) -> (r: Result<T, BstError>)
        ensures
            old(self)@.contains(*value) ==> r == Ok::<T, BstError>(*value) && final(self)@ == old(
                self,
            )@.remove(*value),
            !old(self)@.contains(*value) ==> r == Err::<T, BstError>(BstError::ValueNotFound)
                && *final(self) == *old(self),
            final(self)@.len() == old(self)@.len() - (if old(self)@.contains(*value) {
                1int
            } else {
                0int
            }),
    {
        proof {
            use_type_invariant(&*self);
        }
        let mut root = None;
        core::mem::swap(&mut root, &mut self.root);
        let r = Node::<T>::delete_from(&mut root, value);
        self.root = root;
        proof {
            Node::<T>::lemma_opt_set_finite(old(self).root);
            vstd::set::axiom_set_remove_len(old(self)@, *value);
        }
        r
    }

    /// The tree always holds finitely many values.
    pub proof fn lemma_view_finite(&self)
        ensures
            self@.finite(),
    {
        Node::<T>::lemma_opt_set_finite(self.root);
    }
}

impl<T: TotalOrder + Copy> BST<T> {
    /// The in-order traversal: returns every value in the tree, in
    /// strictly ascending order, each exactly once.
    pub fn check(&self) -> (out: Vec<T>)
        ensures
            forall|i: int, j: int|
                0 <= i < j < out@.len() ==> #[trigger] out@[i].lt(#[trigger] out@[j]),
            forall|e: T| #[trigger] out@.contains(e) <==> self@.contains(e),
            out@.len() == self@.len(),
    {
        proof {
            use_type_invariant(&*self);
            Node::<T>::lemma_in_order_elems(self.root);
            Node::<T>::lemma_in_order_sorted(self.root);
            Node::<T>::lemma_in_order_len(self.root);
        }
        let mut out = Vec::new();
        Node::<T>::traverse(&self.root, &mut out);
        proof {
            assert(out@ =~= Node::<T>::in_order(self.root));
        }
        out
    }
}

} // verus!
