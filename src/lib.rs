//! Multi-metric routing on road networks: a compact graph store with forward and
//! backward views, a Dijkstra kernel over weighted sums of integer metrics with a
//! binary-heap queue, shortcut unfolding, exploration of alternative routes along
//! the convex hull of their cost vectors, the FMI-text reader, and the workload
//! accounting of the balancing loop.

pub mod metrics;
pub mod view;
pub mod graph;
pub mod builder;
pub mod paths;
pub mod dijkstra;
pub mod flatten;
pub mod laws;
pub mod balancing;
pub mod configs;
pub mod units;
pub mod writing;
pub mod parsing;
pub mod explorating;
pub mod heap;
