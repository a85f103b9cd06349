//! Pearson correlation over a two-column numeric dataset.
//!
//! The crate parses rows of decimal text fields into exact integer samples
//! (each column is brought to a common power-of-ten scale) and computes the
//! sufficient statistics of the classical two-pass Pearson formula exactly.
//! The final floating-point division and square root are left to the caller;
//! everything up to that point is verified.

pub mod sums;
pub mod dataset;
pub mod stats;
pub mod laws;
pub mod parse;
pub mod load;
