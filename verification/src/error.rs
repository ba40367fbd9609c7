//! Errors of the compressors.

use vstd::prelude::*;

verus! {

/// `std::io::Error`, carried through the library as an opaque value.
#[verifier::external_type_specification]
#[verifier::external_body]
pub struct ExIoError(std::io::Error);

/// An input/output failure.
#[derive(Debug)]
pub enum IoError {
    /// The error exactly as the destination or the record encoder reported it.
    Direct(std::io::Error),
    /// An error of kind "other" that wraps the `LasZipError` around the reported error.
    Other(std::io::Error),
}

/// A failure of the library.
#[derive(Debug)]
pub enum LasZipError {
    /// Input or output failed.
    IoError(IoError),
}

} // verus!
