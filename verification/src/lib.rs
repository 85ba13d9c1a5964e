//! A plagiarism-scoring library: Unicode tokenization, term-frequency
//! vectorization, cosine similarity, verbatim n-gram phrase matching,
//! and the aggregation policy that turns per-comparison scores into a
//! single verdict.
//!
//! Scores are kept as exact integer data: the cosine similarity of two
//! term-frequency vectors equals the cosine similarity of the raw
//! term-count vectors (the total-count denominators cancel), so every
//! threshold test and every comparison of two scores is decided with
//! integer arithmetic alone, with no rounding anywhere.

use vstd::prelude::*;

pub mod analysis;
pub mod phrases;
pub mod similarity;
pub mod text;
pub mod tfidf;

verus! {

/// Largest number of word tokens a single text may contribute to a
/// similarity computation.  The bound keeps every intermediate product
/// of the exact score arithmetic inside `u128`.
pub const MAX_TOKENS: u64 = 2_000_000;

} // verus!
