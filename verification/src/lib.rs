//! Directed graphs held in an id-indexed arena, and their decomposition into
//! connex factors (maximal sets of mutually reachable nodes).

pub mod graph;
pub mod ingest;
pub mod laws;
pub mod model;
pub mod neighbors;
pub mod node;
pub mod parse;
pub mod partition;
pub mod reach;
pub mod render;
pub mod search;
pub mod sets;
mod sorted;
pub mod validate;
pub mod walk;

pub use graph::Graph;
pub use ingest::read_graph;
pub use node::{Arrow, Node, NodeId, NodeView};
pub use parse::{add_line, parse_line, Line};
pub use render::{decimal_text, output_graph_rudimentary};
pub use sets::NodeSet;
