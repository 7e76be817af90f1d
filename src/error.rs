//! Error kinds surfaced by every layer of the database.
use vstd::prelude::*;

verus! {

/// The error value returned by fallible operations.
#[derive(Debug, Clone, PartialEq, Eq)]
pub enum DeepGraphError {
    NodeNotFound(u128),
    EdgeNotFound(u128),
    NotFound(String),
    PropertyNotFound(String),
    InvalidNodeId(String),
    InvalidEdgeId(String),
    StorageError(String),
    TransactionError(String),
    ParserError(String),
    InvalidOperation(String),
    InvalidPropertyType { expected: String, actual: String },
    IoError(String),
    SerializationError(String),
    Unknown(String),
}

/// Result type used throughout the crate.
pub type Result<T> = core::result::Result<T, DeepGraphError>;

} // verus!
