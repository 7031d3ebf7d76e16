//! Verified core of a PageRank pipeline over a directed graph.
//!
//! The crate derives, from a raw edge collection, the out-degree of every
//! source node, the highest node identifier, and the sparse column-stochastic
//! transition structure that damped power iteration runs on.  Every weight of
//! that matrix is `1/d` for the out-degree `d` of its source, so the matrix is
//! stored exactly, as the map from destination to source to denominator `d`;
//! the floating-point solver that consumes it lives outside this crate.

pub mod graph;
pub mod matrix;
pub mod parse;

pub use crate::graph::dict_of_edges_from_lines;
pub use crate::graph::max_node;
pub use crate::graph::out_degrees;
pub use crate::graph::CountMap;
pub use crate::graph::Edge;
pub use crate::graph::EdgeMatrix;
pub use crate::matrix::m_sparse;
pub use crate::matrix::r_vec_support;
pub use crate::matrix::SparseMatrix;
pub use crate::parse::split_from_to;
pub use crate::parse::try_split_from_to;
