//! The distinguishable error kinds of the store.

use vstd::prelude::*;

verus! {

/// Everything that can go wrong in the store, by kind.
#[derive(Clone, Copy, Debug, PartialEq, Eq, Structural)]
pub enum StoreError {
    /// A key or value contains the separator or the newline byte and so
    /// cannot be written as one log record.
    EncodingError,
    /// A log record could not be decoded during startup replay.
    CorruptRecordError,
    /// An update request did not carry exactly one key/value pair.
    MalformedRequest,
    /// A file operation failed; raised only by the unverified shell, which
    /// treats it as fatal.
    IoError,
}

} // verus!
