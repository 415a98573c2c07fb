//! The store seam: the error taxonomy every persistence backend
//! surfaces to the engine. Backends themselves (filesystem, browser
//! storage) live outside the verified core and report through these
//! kinds; nothing here retries.

use vstd::prelude::*;

verus! {

/// An error that can occur in a store.
#[derive(Clone, Debug, PartialEq, Eq)]
pub enum StoreError {
    /// Attempted to read binary data as a string.
    ReadBinaryAsString,
    /// Attempted to read string data as binary.
    ReadStringAsBinary,
    /// Found unrecognized data in the storage medium.
    UnrecognizedData,
    /// Another, backend-specific failure, carried as its message.
    Other(String),
}

} // verus!
