//! Visits of graphs.
pub mod breadth_first;
pub mod depth_first;
pub mod frontier;
pub mod nesting;
pub mod parallel_fast_cb;
pub mod traits;
