//! Belief propagation on a bipartite graph of variable nodes and check nodes.
//!
//! The graph stores the nodes, their edges and the message matrices (each
//! node's inbox); the arithmetic on messages is supplied by the user through
//! [`NodeFunction`] and [`Msg`].

pub mod bpgraph;
pub mod error;
pub mod laws;
pub mod node;
pub mod node_function;

pub use bpgraph::{BPGraph, GraphView};
pub use error::{BPError, BPResult};
pub use node::{Node, NodeView};
pub use node_function::{Behaviour, Msg, NodeFunction, NodeIndex};
