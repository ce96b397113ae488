//! A directed graph whose adjacency and edge weights are packed as bit
//! fields into 64-bit words, one growable row of words per vertex.
//!
//! `scheme` fixes the slot width, `codec` the bit layout of slots in words
//! and rows, `model` the abstract graph and the laws its operations obey,
//! and `bit_graph` the executable graph proved against that model.
pub mod bit_graph;
pub mod codec;
pub mod error;
pub mod model;
pub mod scheme;

pub use bit_graph::{BitGraph, Vertex, check_bounds, find_src_dest_idx};
pub use error::GraphError;
pub use scheme::{EdgeScale, verify_partition_size, WORD_BITS};
