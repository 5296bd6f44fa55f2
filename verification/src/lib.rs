//! A parallel compute-graph evaluation engine.
//!
//! A graph is a set of nodes, each an instance of a named node definition whose inputs are
//! constants or wires to the outputs of other nodes. Preparing a graph validates it and layers
//! it into waves of nodes that can run side by side; executing it runs the waves in order and
//! returns the values of every produced output.

pub mod node_value;
pub mod node_def;
pub mod node_def_registry;
pub mod result_store;
pub mod node;
pub mod layering;
pub mod analyzer;
pub mod graph_model;
pub mod compute_graph;
pub mod evaluation;
pub mod threadrunner;
