//! Undirected graphs over text labels, and shortest paths between two labels.
//!
//! A graph is anything that can say whether it knows a label and which labels
//! are its neighbours ([`PathableGraph`]). [`build_graph`] makes one from a
//! list of edges, [`find_path`] searches one breadth first, and
//! [`stringify_path`] renders what was found.
//!
//! Contracts speak of a label as its characters (`Seq<char>`), of a graph as a
//! map from labels to sets of labels, and of a path as a sequence of labels.

pub mod adjacency;
pub mod builder;
pub mod format;
pub mod graph;
pub mod node_set;
pub mod search;
mod search_tree;
pub mod walk;

pub use adjacency::AdjacencyMap;
pub use builder::build_graph;
pub use format::stringify_path;
pub use graph::PathableGraph;
pub use node_set::NodeSet;
pub use search::{find_path, search_path, SearchOutcome};
