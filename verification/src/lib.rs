//! Exact solver for the 0/1 knapsack problem by exhaustive search.
//!
//! Candidate subsets of the item list are encoded as bitmasks of a `u64`
//! (bit `i` set means item `i` is packed). Every mask in the search space is
//! scored by the evaluator in [`eval`], and the reducer in [`search`] selects
//! the feasible subset of maximal value, breaking value ties toward the
//! lowest mask. [`parse`] reads a problem instance out of its textual form:
//! a capacity line followed by one `weight value` line per item.

pub mod eval;
pub mod parse;
pub mod search;
