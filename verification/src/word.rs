//! Byte strings the tree can order.
//!
//! A `Word` is a sequence of bytes held as a cons list, so that two
//! words built from the same bytes are equal as values — which the
//! tree's comparison relies on. Words are ordered lexicographically by
//! their bytes, which for ASCII text is the usual string order.

use crate::order::TotalOrder;
use core::cmp::Ordering;
use vstd::prelude::*;

verus! {

/// A byte string with structural equality, ordered lexicographically.
#[derive(Debug)]
pub enum Word {
    Nil,
    Cons(u8, Box<Word>),
}

/// Lexicographic order: a proper prefix comes first; otherwise the
/// first differing byte decides.
pub open spec fn word_lt(a: Word, b: Word) -> bool
    decreases a,
{
    match b {
        Word::Nil => false,
        Word::Cons(hb, tb) => match a {
            Word::Nil => true,
            Word::Cons(ha, ta) => ha < hb || (ha == hb && word_lt(*ta, *tb)),
        },
    }
}

/// The bytes of a word, in order.
pub open spec fn word_bytes(w: Word) -> Seq<u8>
    decreases w,
{
    match w {
        Word::Nil => Seq::empty(),
        Word::Cons(h, t) => seq![h] + word_bytes(*t),
    }
}

impl View for Word {
    type V = Seq<u8>;

    open spec fn view(&self) -> Seq<u8> {
        word_bytes(*self)
    }
}

/// Lexicographic order is asymmetric.
proof fn lemma_word_lt_asymmetric(x: Word, y: Word)
    requires
        word_lt(x, y),
    ensures
        !word_lt(y, x),
    decreases x,
{
    match (x, y) {
        (Word::Cons(hx, tx), Word::Cons(hy, ty)) => {
            if hx == hy {
                lemma_word_lt_asymmetric(*tx, *ty);
            }
        },
        _ => {},
    }
}

/// Lexicographic order is transitive.
proof fn lemma_word_lt_transitive(x: Word, y: Word, z: Word)
    requires
        word_lt(x, y),
        word_lt(y, z),
    ensures
        word_lt(x, z),
    decreases x,
{
    match (x, y, z) {
        (Word::Cons(hx, tx), Word::Cons(hy, ty), Word::Cons(hz, tz)) => {
            if hx == hy && hy == hz {
                lemma_word_lt_transitive(*tx, *ty, *tz);
            }
        },
        _ => {},
    }
}

/// Distinct words are ordered one way or the other.
proof fn lemma_word_lt_connected(x: Word, y: Word)
    requires
        x != y,
    ensures
        word_lt(x, y) || word_lt(y, x),
    decreases x,
{
    match (x, y) {
        (Word::Cons(hx, tx), Word::Cons(hy, ty)) => {
            if hx == hy {
                lemma_word_lt_connected(*tx, *ty);
            }
        },
        _ => {},
    }
}

impl Word {
    /// Three-way lexicographic comparison of two words.
    fn compare_words(a: &Word, b: &Word) -> (c: Ordering)
        ensures
            c == Ordering::Less <==> word_lt(*a, *b),
            c == Ordering::Greater <==> word_lt(*b, *a),
            c == Ordering::Equal <==> *a == *b,
        decreases *a,
    {
        match (a, b) {
            (Word::Nil, Word::Nil) => Ordering::Equal,
            (Word::Nil, Word::Cons(_, _)) => Ordering::Less,
            (Word::Cons(_, _), Word::Nil) => Ordering::Greater,
            (Word::Cons(ha, ta), Word::Cons(hb, tb)) => {
                if *ha < *hb {
                    Ordering::Less
                } else if *hb < *ha {
                    Ordering::Greater
                } else {
                    Word::compare_words(ta, tb)
                }
            },
        }
    }

    /// Builds the word holding a copy of the given bytes.
    pub fn from_bytes(bytes: &[u8]) -> (w: Word)
        ensures
            w@ == bytes@,
    {
        let w = Word::from_suffix(bytes, 0);
        proof {
            assert(bytes@.subrange(0, bytes@.len() as int) =~= bytes@);
        }
        w
    }

    /// Builds the word holding the bytes from `start` on.
    fn from_suffix(bytes: &[u8], start: usize) -> (w: Word)
        requires
            start <= bytes@.len(),
        ensures
            w@ == bytes@.subrange(start as int, bytes@.len() as int),
        decreases bytes@.len() - start,
    {
        if start == bytes.len() {
            proof {
                assert(bytes@.subrange(start as int, bytes@.len() as int) =~= Seq::<u8>::empty());
            }
            Word::Nil
        } else {
            let tail = Word::from_suffix(bytes, start + 1);
            proof {
                assert(bytes@.subrange(start as int, bytes@.len() as int) =~= seq![bytes@[start as int]]
                    + bytes@.subrange(start as int + 1, bytes@.len() as int));
            }
            Word::Cons(bytes[start], Box::new(tail))
        }
    }
}

/// A word is determined by its bytes: two words with the same view are
/// equal as values. With this, `Word::from_bytes` pins its result: any
/// two words built from the same bytes are interchangeable.
pub proof fn lemma_word_view_injective(x: Word, y: Word)
    requires
        x@ == y@,
    ensures
        x == y,
    decreases x,
{
    match (x, y) {
        (Word::Nil, Word::Nil) => {},
        (Word::Cons(hx, tx), Word::Cons(hy, ty)) => {
            assert(x@[0] == hx);
            assert(y@[0] == hy);
            assert(x@.len() == 1 + word_bytes(*tx).len());
            assert(y@.len() == 1 + word_bytes(*ty).len());
            assert(word_bytes(*tx) =~= word_bytes(*ty)) by {
                assert forall|i: int| 0 <= i < word_bytes(*tx).len() implies word_bytes(*tx)[i]
                    == word_bytes(*ty)[i] by {
                    assert(x@[i + 1] == word_bytes(*tx)[i]);
                    assert(y@[i + 1] == word_bytes(*ty)[i]);
                }
            }
            lemma_word_view_injective(*tx, *ty);
        },
        (Word::Nil, Word::Cons(_, _)) => {
            assert(y@.len() > 0);
        },
        (Word::Cons(_, _), Word::Nil) => {
            assert(x@.len() > 0);
        },
    }
}

impl TotalOrder for Word {
    open spec fn lt(self, other: Self) -> bool {
        word_lt(self, other)
    }

    proof fn lemma_asymmetric(x: Self, y: Self) {
        lemma_word_lt_asymmetric(x, y);
    }

    proof fn lemma_transitive(x: Self, y: Self, z: Self) {
        lemma_word_lt_transitive(x, y, z);
    }

    proof fn lemma_connected(x: Self, y: Self) {
        lemma_word_lt_connected(x, y);
    }

    fn compare(&self, other: &Self) -> (c: Ordering) {
        Word::compare_words(self, other)
    }
}

} // verus!
