//! Analysis of a scheduler's dependency graph and its layered layout.
//!
//! The crate orders the nodes of a dependency graph and detects cycles
//! (`graph_utils`), finds which node reaches which and which edges are
//! redundant (`graph_utils`), folds groups with a single member into that
//! member (`simplify`), builds the graph over the top-level nodes and lays
//! its nodes into layers (`layering`), and puts all of it together into a
//! layer graph (`schedule_graph`, `layer_graph`). `laws` holds what is
//! proved of these steps for every graph.

pub mod node;
pub mod reach;
pub mod order;
pub mod digraph;
pub mod bits;
pub mod tables;
pub mod graph_utils;
pub mod simplify;
pub mod layering;
pub mod layer_graph;
pub mod shorten_type;
pub mod schedule_graph;
pub mod laws;
