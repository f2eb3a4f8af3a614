//! Error kinds surfaced by the storage layer.

use vstd::prelude::*;

verus! {

/// Every recoverable failure of the storage layer.
///
/// A missing key is never an error: lookups model absence as `None`.
#[derive(Clone, Copy, PartialEq, Eq, Structural, Debug)]
pub enum Error {
    /// A filesystem-level failure while resolving or opening a path.
    Io,
    /// A value could not be serialized by the chosen codec.
    Encoding,
    /// Stored bytes could not be deserialized by the chosen codec.
    Decoding,
    /// The environment at this path is being closed and cannot be reopened yet.
    DatabaseClosing,
    /// The path is already open with a different configuration.
    BadOpenOptions,
    /// The table was first opened with a different key/value codec pair.
    InvalidDatabaseTyping,
    /// A failure reported by the storage engine itself, such as an append of
    /// a key that does not sort after every present key.
    Engine,
}

/// The result type used by every fallible operation of this crate.
pub type Result<T> = core::result::Result<T, Error>;

} // verus!
