//! Laws relating the tree's operations.
//!
//! The contracts of `BST::insert`, `BST::delete` and `BST::contains`
//! describe each call through the tree's view, a `Set<T>`: a successful
//! insert turns view `s` into `s.insert(v)`, a successful delete into
//! `s.remove(v)`, a failed call leaves the tree unchanged, and `contains`
//! returns exactly membership in the view. The proof functions here state
//! once, for every tree and value, how those outcomes combine across
//! several calls.

use crate::order::TotalOrder;
use vstd::prelude::*;

verus! {

/// Inserting a value makes it present, and a repeated insert changes
/// nothing: after `insert(v)` succeeds on a tree with view `s`, the view
/// `s.insert(v)` contains `v`, so by the contract of `insert` a second
/// `insert(v)` fails with `DuplicateInsert` and leaves the view as it is
/// — the tree still holds exactly one instance of `v`.
pub proof fn lemma_duplicate_insert<T: TotalOrder>(s: Set<T>, v: T)
    ensures
        s.insert(v).contains(v),
        s.insert(v).insert(v) =~= s.insert(v),
{
}

/// Deleting makes absent: after `delete(v)` succeeds on a tree with view
/// `s`, the view `s.remove(v)` does not contain `v`, so by the contracts
/// `contains(v)` returns false and a second `delete(v)` fails with
/// `ValueNotFound`, leaving the view as it is.
pub proof fn lemma_delete_then_absent<T: TotalOrder>(s: Set<T>, v: T)
    ensures
        !s.remove(v).contains(v),
        s.remove(v).remove(v) =~= s.remove(v),
{
}

/// Round trip: on a tree whose view `s` does not contain `v`, `insert(v)`
/// succeeds, the following `delete(&v)` returns `Ok(v)` by the contract
/// of `delete` (the view `s.insert(v)` contains `v`), and the tree is
/// left exactly as it was — the same set of values, hence the same
/// ascending traversal.
pub proof fn lemma_round_trip<T: TotalOrder>(s: Set<T>, v: T)
    requires
        !s.contains(v),
    ensures
        s.insert(v).contains(v),
        s.insert(v).remove(v) =~= s,
{
}

/// Size correctness: a successful insert grows the view by exactly one
/// value and a successful delete shrinks it by exactly one, while failed
/// calls change nothing; `contains` returns true for exactly the members
/// of the view. So the number of values for which `contains` returns
/// true equals the number of successful inserts minus the number of
/// successful deletes. The view of a tree is always finite
/// (`BST::lemma_view_finite`), so the premise below holds of every tree.
pub proof fn lemma_size_change<T: TotalOrder>(s: Set<T>, v: T)
    requires
        s.finite(),
    ensures
        !s.contains(v) ==> s.insert(v).len() == s.len() + 1,
        s.contains(v) ==> s.remove(v).len() == s.len() - 1,
{
    vstd::set::axiom_set_insert_len(s, v);
    vstd::set::axiom_set_remove_len(s, v);
}

} // verus!
