//! Helpers of the algorithms.
pub mod argmax;
pub mod argmin;
pub mod atomic_bits;
pub mod bit_tables;
pub mod cumulative_outdegree;
pub mod hyper_log_log;
pub mod marks;
pub mod successors;
