//! A reproducible micro-benchmark harness: seeded random input, a handful of
//! workloads over ordered, hashed and concurrent sets, a data-parallel map, a
//! document parser and a message round trip, each with a contract that says
//! which work it performs.

pub mod actor;
pub mod command;
pub mod json;
pub mod parallel;
pub mod sets;
pub mod skiplist;
pub mod stream;
