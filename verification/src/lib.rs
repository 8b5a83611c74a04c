//! AstraeaDB's graph-database core as a verified library: identifier types,
//! temporal validity and graph paths; the in-memory graph store with node
//! and edge CRUD, endpoint checks and cascading deletes; breadth-first,
//! depth-first and shortest-path traversals; CSR topology with BFS levels;
//! connected and strongly connected components; degree counts and
//! neighbour sampling; shard routing; demonstration searchable encryption;
//! the decisions and text helpers of the command-line front end (import,
//! export, shell); JSON property merging; community relabelling.

pub mod decimal;
pub mod types;
pub mod error;
pub mod partition;
pub mod shard;
pub mod coordinator;
pub mod keys;
pub mod encrypted;
pub mod engine;
pub mod cli;
pub mod cpu;
pub mod gnn;
pub mod graph;
pub mod reach;
pub mod csr;
pub mod traversal;
pub mod components;
pub mod centrality;
pub mod scc;
pub mod sampling;
pub mod transfer;
pub mod shell;
pub mod json;
pub mod community;
