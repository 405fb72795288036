//! Flow maps of a road network: the shortest-path forest of one source
//! vertex, how many shortest paths run over each edge of it, and the strokes
//! that draw those edges, the busiest last.
//!
//! Coordinates are fixed-point degrees and weights are unsigned integers, so
//! that every comparison the algorithms make is exact.

pub mod bounds;
pub mod error;
pub mod flow;
pub mod forest;
pub mod graph;
mod labels;
pub mod paths;
pub mod queue;
pub mod render;
pub mod search;
pub mod totals;
pub mod usage;
