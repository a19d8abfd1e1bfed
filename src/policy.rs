//! The tuning constants of drop-merge sort.
use vstd::prelude::*;

verus! {

/// Catch a single out-of-order element early, by also comparing against the second-to-last kept one.
pub const DOUBLE_COMPARISONS: bool = true;

/// How many elements may be dropped in a row before the last kept element is taken back.
/// Low values are faster on well-ordered input; high values are more resilient to long noise.
pub const RECENCY: usize = 8;

/// Take back several kept elements at once when a clump of them was out of order.
pub const FAST_BACKTRACKING: bool = true;

/// Give up on the heuristic, and sort everything, when the input is too disordered.
pub const EARLY_OUT: bool = true;

/// The disorder test runs once `len / EARLY_OUT_TEST_AT` iterations of the scan have passed.
pub const EARLY_OUT_TEST_AT: usize = 4;

/// Numerator of the fraction of the elements seen that may be dropped before giving up.
pub const EARLY_OUT_DISORDER_NUM: usize = 3;

/// Denominator of the fraction of the elements seen that may be dropped before giving up.
pub const EARLY_OUT_DISORDER_DEN: usize = 5;

} // verus!
