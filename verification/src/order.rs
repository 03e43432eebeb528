//! A strict total order that the tree compares its elements by.
//!
//! The trait couples a specification-level ordering relation with an
//! executable three-way comparison, and demands proofs that the relation
//! really is a strict total order respecting specification equality.

use core::cmp::Ordering;
use vstd::prelude::*;

verus! {

/// A strict total order on `Self`.
///
/// `lt` is the specification-level "strictly less than" relation; the
/// three proof obligations make it asymmetric, transitive and connected,
/// so exactly one of `lt(x, y)`, `lt(y, x)` and `x == y` holds for any
/// two values. `compare` is the executable comparison the tree calls,
/// pinned to `lt` by its postcondition.
pub trait TotalOrder: Sized {
    /// The ordering relation: `x` comes strictly before `y`.
    spec fn lt(self, other: Self) -> bool;

    /// No two values come strictly before each other.
    proof fn lemma_asymmetric(x: Self, y: Self)
        requires
            Self::lt(x, y),
        ensures
            !Self::lt(y, x),
    ;

    /// The relation is transitive.
    proof fn lemma_transitive(x: Self, y: Self, z: Self)
        requires
            Self::lt(x, y),
            Self::lt(y, z),
        ensures
            Self::lt(x, z),
    ;

    /// Any two distinct values are ordered one way or the other.
    proof fn lemma_connected(x: Self, y: Self)
        requires
            x != y,
        ensures
            Self::lt(x, y) || Self::lt(y, x),
    ;

    /// Executable three-way comparison agreeing with `lt`.
    fn compare(&self, other: &Self) -> (c: Ordering)
        ensures
            c == Ordering::Less <==> Self::lt(*self, *other),
            c == Ordering::Greater <==> Self::lt(*other, *self),
            c == Ordering::Equal <==> *self == *other,
    ;
}

impl TotalOrder for i64 {
    open spec fn lt(self, other: Self) -> bool {
        self < other
    }

    proof fn lemma_asymmetric(x: Self, y: Self) {
    }

    proof fn lemma_transitive(x: Self, y: Self, z: Self) {
    }

    proof fn lemma_connected(x: Self, y: Self) {
    }

    fn compare(&self, other: &Self) -> (c: Ordering) {
        if *self < *other {
            Ordering::Less
        } else if *other < *self {
            Ordering::Greater
        } else {
            Ordering::Equal
        }
    }
}

impl TotalOrder for i32 {
    open spec fn lt(self, other: Self) -> bool {
        self < other
    }

    proof fn lemma_asymmetric(x: Self, y: Self) {
    }

    proof fn lemma_transitive(x: Self, y: Self, z: Self) {
    }

    proof fn lemma_connected(x: Self, y: Self) {
    }

    fn compare(&self, other: &Self) -> (c: Ordering) {
        if *self < *other {
            Ordering::Less
        } else if *other < *self {
            Ordering::Greater
        } else {
            Ordering::Equal
        }
    }
}

impl TotalOrder for u32 {
    open spec fn lt(self, other: Self) -> bool {
        self < other
    }

    proof fn lemma_asymmetric(x: Self, y: Self) {
    }

    proof fn lemma_transitive(x: Self, y: Self, z: Self) {
    }

    proof fn lemma_connected(x: Self, y: Self) {
    }

    fn compare(&self, other: &Self) -> (c: Ordering) {
        if *self < *other {
            Ordering::Less
        } else if *other < *self {
            Ordering::Greater
        } else {
            Ordering::Equal
        }
    }
}

impl TotalOrder for u64 {
    open spec fn lt(self, other: Self) -> bool {
        self < other
    }

    proof fn lemma_asymmetric(x: Self, y: Self) {
    }

    proof fn lemma_transitive(x: Self, y: Self, z: Self) {
    }

    proof fn lemma_connected(x: Self, y: Self) {
    }

    fn compare(&self, other: &Self) -> (c: Ordering) {
        if *self < *other {
            Ordering::Less
        } else if *other < *self {
            Ordering::Greater
        } else {
            Ordering::Equal
        }
    }
}

} // verus!
