//! Queue data structures.

pub mod priority_queue;
pub mod queue;
