//! Strongly connected components.
pub mod basic;
pub mod forest;
pub mod kosaraju;
pub mod symm_seq;
pub mod tarjan;
pub mod tarjan_walks;
