//! A scalar computation graph: leaves and binary composites held in an arena,
//! a deduplicating depth-first collector, and a DOT rendering of the result.

pub mod graph;
pub mod collect;
pub mod render;
pub mod shared;
