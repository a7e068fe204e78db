//! Interactive word-guessing assistant core.
//!
//! Given a pool of candidate answer words and a vocabulary of allowed
//! guesses, the library suggests informative guesses, turns per-position
//! feedback into constraints, and narrows the candidate pool until a unique
//! answer remains or the pool is exhausted.

use vstd::prelude::*;

pub mod filter;
pub mod restriction;
pub mod selector;
pub mod session;
pub mod words;

verus! {

/// Every word handled by the constraint logic has exactly this many letters.
pub const WORD_LEN: usize = 5;

} // verus!
