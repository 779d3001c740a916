//! The algorithms.
pub mod acyclicity;
pub mod exact_sum_sweep;
pub mod hyperball;
pub mod hyperball_levels;
pub mod sccs;
pub mod top_sort;
pub mod visits;
