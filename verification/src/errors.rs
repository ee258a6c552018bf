//! The error type of the crate.

use vstd::prelude::*;

verus! {

/// Why a document operation failed.
#[derive(Debug)]
pub enum OsunbitDBError {
    /// A document could not be written as JSON text, or stored bytes could
    /// not be read as a document.
    Serialization(serde_json::Error),
    /// An argument has the wrong shape; the message says which.
    InvalidUpdate(String),
    /// The store reported a failure; this is its message.
    Store(String),
}

/// An error as a mathematical value: its kind and, where it has one, its
/// message.
pub enum ErrorModel {
    Serialization,
    InvalidUpdate(Seq<char>),
    Store(Seq<char>),
}

impl View for OsunbitDBError {
    type V = ErrorModel;

    open spec fn view(&self) -> ErrorModel {
        match self {
            OsunbitDBError::Serialization(_) => ErrorModel::Serialization,
            OsunbitDBError::InvalidUpdate(message) => ErrorModel::InvalidUpdate(message@),
            OsunbitDBError::Store(message) => ErrorModel::Store(message@),
        }
    }
}

} // verus!
