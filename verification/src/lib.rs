//! Random mazes over hyper-rectangular grids of any dimension.
//!
//! A maze is a spanning tree of the grid graph, built by merging cells through
//! candidate edges in order of random priority, and queried one axis at a time.

pub mod forest;
pub mod generation;
pub mod graph;
pub mod grid;
pub mod level;
pub mod maze;
pub mod queue;
pub mod random;
