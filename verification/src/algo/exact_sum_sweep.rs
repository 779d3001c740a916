//! The exact radius, diameter and eccentricities of a directed graph.
pub mod computer;
pub mod scc_graph;
pub mod soundness;
pub mod pivots;
