//! Solver for monoalphabetic substitution cryptograms.
//!
//! Ciphertext words are matched against a dictionary by their letter
//! pattern, and a breadth-first search over injective partial keys finds
//! every substitution that maps each ciphertext word onto a dictionary word.

pub mod candidates;
pub mod key;
pub mod pattern;
pub mod search;
pub mod solve;
pub mod text;

pub use candidates::{cipher_words_of, compute_matches, find_candidates, prepare_dictionary};
pub use key::{compare_to_partial, compute_partial, compute_partial_key, PartialKey};
pub use pattern::compute_pattern;
pub use search::{find_keys, order_by_ambiguity, search_in_order};
pub use solve::{apply_key, solve, SolveError};
