//! Errors of the storage.

use vstd::prelude::*;

verus! {

/// What went wrong in the storage.
#[derive(Debug, PartialEq, Eq)]
pub enum StorageError {
    /// Data could not be written.
    WriteFailed(String),
    /// Data could not be read.
    ReadFailed(String),
}

/// Result of a storage operation.
pub type StorageResult<T> = Result<T, StorageError>;

} // verus!
