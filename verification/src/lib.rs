//! Execution-graph model of the ComfyUI prompt format: JSON prompt values,
//! the dynamic prompt with ephemeral nodes, a dependency tracker that dissolves
//! the graph in topological order, and a builder for API-format graphs.

pub mod json;
pub mod keyed;
pub mod strings;
pub mod collections;
pub mod graph_utils;
pub mod graph;
pub mod blocking;

pub use graph::{DynamicPrompt, GraphError, NodeDefResolver, NoopResolver, TopologicalSort};
pub use graph_utils::{add_graph_prefix, is_link, ExecutionBlocker, GraphBuilder, Link, Node};
