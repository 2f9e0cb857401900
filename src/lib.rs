//! An embedded key-value store kept in a segmented write-ahead log.
pub mod disk;
pub mod error;
pub mod index;
pub mod kvstore;
pub mod log;
pub mod names;
pub mod record;
pub mod replay;

pub use error::Result;
pub use kvstore::KvStore;
