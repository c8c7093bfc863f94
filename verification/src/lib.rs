//! A hypergraph library: a compact offset/member (CSR-style) hypergraph
//! store with a textual interchange format, multi-source breadth-first
//! distances, hyperedge-weighted shortest paths, a partition-quality
//! evaluator, and a deterministic weight-balancing heuristic partitioner.

pub mod codec;
pub mod errors;
pub mod hypergraph;
pub mod metapartitioner;
pub mod store;
pub mod traverse;

pub use errors::ErrorKind;
