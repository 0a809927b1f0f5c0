//! A multi-word anagram solver: finds combinations of dictionary words whose
//! combined letters exactly match the letters of an input phrase, then ranks
//! and deduplicates the combinations for presentation.

pub mod dict;
pub mod letters;
pub mod score;
pub mod search;
pub mod signature;
pub mod solve;
pub mod words;

pub use solve::{solve_anagrams, AnagramResults, SolveError};
