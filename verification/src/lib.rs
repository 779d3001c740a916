//! Large-scale analytics on immutable directed graphs: breadth-first and
//! depth-first visits, strongly connected components, the exact radius and
//! diameter, and approximate neighbourhood sizes on HyperLogLog counters.
//!
//! Every executable function carries a contract that the verifier proves.
//! The few functions that call into other crates are belief, not proof:
//! each of them says which function it calls and what it takes for granted
//! of it.
pub mod algo;
pub mod distance;
pub mod graph;
pub mod utils;
