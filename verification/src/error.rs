//! Error taxonomy of the tree engine.
//!
//! All "key absent" outcomes of the public API are `None`, not errors;
//! `KeyNotFound` is reserved for callers layering stricter semantics.

use vstd::prelude::*;

verus! {

/// Errors surfaced by the tree engine and its persistence codec.
#[derive(Debug, Clone, Copy, PartialEq, Eq, Structural)]
pub enum Error {
    /// An underlying file-system failure, surfaced by the I/O layer.
    Io,
    /// A failure decoding a page, metadata, or node body.
    Serde,
    /// Reserved: the engine itself reports absent keys as `None`.
    KeyNotFound,
    /// Internal guard for a missing file handle; a programming error.
    InvalidFileHandle,
    /// A variant tag outside {0, 1}, or a magic mismatch on metadata.
    InvalidFileFormat,
}

impl Error {
    /// True exactly on the `KeyNotFound` variant.
    pub fn is_key_not_found(&self) -> (r: bool)
        ensures
            r == (*self == Error::KeyNotFound),
    {
        match *self {
            Error::KeyNotFound => true,
            _ => false,
        }
    }
}

/// Shorthand for results whose error side is the engine's [`Error`].
pub type TreeResult<T> = core::result::Result<T, Error>;

} // verus!
