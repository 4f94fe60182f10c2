//! Error kinds of the directory engine.
use vstd::prelude::*;

verus! {

#[derive(Debug, Eq, PartialEq, Structural, Copy, Clone)]
pub enum Error {
    /// Bytes that do not decode to the expected entity.
    Parse,
    /// A path that is not absolute, or lacks a component it needs.
    PathInvalid,
    /// A path lookup that misses a component.
    DirectoryNotFound,
    /// A sibling under the same parent already bears the name.
    EntryAlreadyExists,
    /// A cryptographic check or operation failed.
    CryptoFailure,
    /// The store could not complete the request.
    StorageFailure,
}

} // verus!
