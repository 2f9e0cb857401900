//! The store's closed set of failures.
use vstd::prelude::*;

verus! {

/// What can go wrong in the store.
#[derive(Debug, Clone, PartialEq, Eq)]
pub enum KvsError {
    /// A filesystem operation failed; the text describes it.
    IoError(String),
    /// Bytes decoded as a key or a value are not valid UTF-8.
    SerializationError,
    /// A read ran past the end of a segment.
    EofError,
    /// `remove` was asked for a key that is not in the store.
    KeyNotFound(String),
}

/// The store's result type.
pub type Result<T> = core::result::Result<T, KvsError>;

} // verus!
