//! A solver library for fixed-length word-guessing puzzles.
//!
//! The library keeps track of which dictionary words are still consistent
//! with the per-letter feedback observed so far, and scores candidate
//! guesses by the size of their worst-case outcome bucket.

pub mod feedback;
pub mod filter;
pub mod letters;
pub mod ranking;
pub mod scorer;
pub mod session;

use vstd::prelude::*;

verus! {

/// Every word handled by the solver has exactly this many letters.
pub const WORD_LENGTH: usize = 5;

/// Letters are numbered 0 to 25; a word is a sequence of such numbers.
pub const ALPHABET_SIZE: u8 = 26;

} // verus!
