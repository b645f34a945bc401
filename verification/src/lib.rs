//! Word-level n-gram frequency profiles and a multiset Dice similarity score.
//!
//! A text is tokenized by splitting on the single space character; a window of
//! a fixed number of consecutive tokens slides across the token stream one
//! token at a time, and each window, joined back with single spaces, is one
//! n-gram occurrence. An [`NgramSet`](ngram::NgramSet) records how often each
//! distinct n-gram occurred; two profiles with the same window size are scored
//! by the Dice coefficient generalized to weighted multisets (per-key minimum
//! counts).

pub mod counts;
pub mod laws;
pub mod ngram;
pub mod text;

pub use ngram::NgramSet;
