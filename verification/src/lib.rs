//! A deductive verifier for a small annotated imperative language.
//!
//! A source function carries `pre!`, `post!` and `invariant!` annotation
//! markers. The library builds a control-flow graph from the function body,
//! enumerates the basic paths between cut points (preconditions,
//! postconditions, invariants and synthetic cutoffs), walks each path in
//! reverse to compute a weakest-precondition formula, and lowers each formula
//! to solver terms whose validity implies the correctness of the path.

use vstd::prelude::*;

pub mod ast;
pub mod print;
pub mod cfg;
pub mod cleanup;
pub mod contracts;
pub mod lex;
pub mod parse;
pub mod source;
pub mod builder;
pub mod paths;
pub mod wp;
pub mod lower;
pub mod subst;

verus! {

/// A byte-for-byte comparison of two byte slices.
pub fn bytes_eq(a: &[u8], b: &[u8]) -> (r: bool)
    ensures
        r == (a@ == b@),
{
    if a.len() != b.len() {
        assert(a@ != b@) by {
            assert(a@.len() != b@.len());
        }
        return false;
    }
    let mut i: usize = 0;
    while i < a.len()
        invariant
            0 <= i <= a.len(),
            a.len() == b.len(),
            forall|j: int| 0 <= j < i ==> a@[j] == b@[j],
        decreases a.len() - i,
    {
        if a[i] != b[i] {
            return false;
        }
        i += 1;
    }
    assert(a@ =~= b@);
    true
}

} // verus!
