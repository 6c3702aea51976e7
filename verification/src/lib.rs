//! Compressed adjacency store for large directed graphs.
//!
//! Edges are held in a Compressed-Sparse-Row layout whose per-vertex
//! neighbour lists are byte-run-length encoded.  The codec, the builder,
//! the container operations and the neighbourhood sampler are verified;
//! their contracts are stated over sequence and set models of the data.

pub mod builder;
pub mod codec;
pub mod csr;
pub mod decoder;
pub mod edge;
pub mod encoder;
pub mod error;
pub mod graph_sage_sampler;
pub mod io;
pub mod iter;
pub mod reorder;
pub mod slice;

pub use csr::CSR;
pub use edge::Edge;
