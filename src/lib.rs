//! Drop-merge sort: an adaptive, unstable sort for sequences that are already mostly in order.
//!
//! A single pass keeps a long non-decreasing run of the input in place and drops the elements
//! that do not fit it; the dropped elements are sorted on their own and merged back. On input
//! where `K` elements are out of order it makes `O(N + K log K)` comparisons; on badly disordered
//! input it gives up early and sorts everything.
pub mod order;
pub mod policy;
pub mod runs;
pub mod merge;
pub mod dmsort;
pub mod reference;
pub mod laws;
mod slice_ops;

pub use dmsort::{sort, sort_by, sort_by_key};
pub use reference::{sort_copy, sort_copy_by};

use vstd::prelude::*;

verus! {

} // verus!
