//! The crate-wide error type.

use vstd::prelude::*;

use crate::types::{EdgeId, NodeId, PageId};

verus! {

/// `std::io::Error`, carried opaquely by [`AstraeaError::StorageIo`].
#[verifier::external_type_specification]
#[verifier::external_body]
pub struct ExIoError(std::io::Error);

/// Top-level error type for AstraeaDB.
#[derive(Debug)]
pub enum AstraeaError {
    // --- Storage errors ---
    PageNotFound(PageId),
    PageCorrupted(PageId, String),
    BufferPoolFull(PageId),
    StorageIo(std::io::Error),
    // --- Graph errors ---
    NodeNotFound(NodeId),
    EdgeNotFound(EdgeId),
    DuplicateNode(NodeId),
    DuplicateEdge(EdgeId),
    // --- Transaction errors ---
    WriteConflict(u64),
    TransactionNotActive,
    // --- Query errors ---
    ParseError { position: usize, message: String },
    QueryExecution(String),
    UnknownLabel(String),
    UnknownEdgeType(String),
    // --- Vector errors ---
    DimensionMismatch { expected: usize, got: usize },
    NoEmbedding(NodeId),
    IndexNotBuilt,
    // --- Serialization errors ---
    Serialization(String),
    Deserialization(String),
    // --- Configuration errors ---
    Config(String),
    // --- Authentication errors ---
    AuthenticationRequired,
    InvalidCredentials,
    AccessDenied(String),
}

impl From<std::io::Error> for AstraeaError {
    fn from(e: std::io::Error) -> (r: Self) {
        AstraeaError::StorageIo(e)
    }
}

impl vstd::std_specs::convert::FromSpecImpl<std::io::Error> for AstraeaError {
    open spec fn obeys_from_spec() -> bool {
        true
    }

    open spec fn from_spec(v: std::io::Error) -> Self {
        AstraeaError::StorageIo(v)
    }
}

} // verus!
