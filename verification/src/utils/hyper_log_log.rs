//! Arrays of HyperLogLog counters in bit-packed storage.
pub mod alignment;
pub mod bit_fields;
pub mod broadword;
pub mod counter_array;
pub mod laws;
