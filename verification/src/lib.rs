//! Dynamic connectivity on undirected graphs with an ID-Tree: a spanning
//! forest kept balanced around centroids, answering connectivity queries by
//! comparing the roots of the two endpoints.

pub mod smallvec_spec;
pub mod hash_spec;
pub mod forest;
pub mod graph;
pub mod node;
pub mod bitset_spec;
pub mod idtree;
pub mod search;
pub mod setup;
pub mod distance;
pub mod paths;
pub mod counting;
pub mod centrality;
pub mod sizes;

pub use crate::idtree::IDTree;
pub use crate::node::Node;
