//! Errors reported while analysing a firmware image.

use vstd::prelude::*;

verus! {

/// The standard library's I/O error, carried through unchanged.
#[verifier::external_type_specification]
#[verifier::external_body]
pub struct ExIoError(std::io::Error);

/// Errors that can occur while analysing a firmware image.
#[derive(Debug)]
pub enum BinbloomError {
    /// The firmware file could not be opened or read.
    FileAccess { path: String, source: std::io::Error },
    /// The image is smaller than a single pointer of the target architecture.
    FileTooSmall { required: usize, actual: usize },
    /// Endianness could not be inferred from the firmware content.
    EndiannessUndetectable,
    /// No point of interest was found, so no loading address can be deduced.
    NoPointsOfInterest,
    /// An architecture other than `32` or `64` was requested.
    InvalidArch(String),
    /// An endianness other than `le` or `be` was requested.
    InvalidEndianness(String),
    /// A generic I/O error.
    Io(std::io::Error),
}

/// Results produced by this crate.
pub type Result<T> = std::result::Result<T, BinbloomError>;

} // verus!
