//! Free-distance scoring kernel: the best path of `legs` legs through a
//! recorded flight, under the rule that the finish may lie at most 1000
//! altitude units below the start.
//!
//! Distances are whole meters, held in a triangular table: row `i` lists the
//! planar distances from fix `i` to fixes `i, i + 1, ..., n - 1`.
pub mod cache;
pub mod free;
pub mod graph;
pub mod point;
pub mod result;
