//! Error taxonomy of the indexer and of its query surface.

use vstd::prelude::*;

verus! {

/// Errors surfaced by the read-only query layer.
pub enum ApiError {
    Database(String),
    InvalidQuery(String),
    NotFound(String),
    TokenError(String),
    Internal(String),
    SerializationError(String),
}

/// A general indexer error carrying a message.
pub struct IndexerError {
    pub message: String,
}

/// Wraps a message into an indexer error.
pub fn create_error(message: &str) -> (r: IndexerError)
    ensures
        r.message@ == message@,
{
    IndexerError { message: message.to_owned() }
}

/// Maps a failure message into an internal query error.
pub fn map_error(msg: &str) -> (r: ApiError)
    ensures
        r matches ApiError::Internal(m) && m@ == msg@,
{
    ApiError::Internal(msg.to_owned())
}

/// Maps a store failure message into a database query error.
pub fn map_db_error(msg: &str) -> (r: ApiError)
    ensures
        r matches ApiError::Database(m) && m@ == msg@,
{
    ApiError::Database(msg.to_owned())
}

} // verus!
