//! The error kinds of the tool.

use vstd::prelude::*;

verus! {

/// `std::io::Error`, carried through without being looked into.
#[verifier::external_type_specification]
#[verifier::external_body]
pub struct ExIoError(std::io::Error);

/// What can go wrong while installing a DLL.
#[derive(Debug)]
pub enum DllError {
    /// A request failed.
    Network(String),
    /// A page or archive could not be read.
    Parse(String),
    /// A file operation failed.
    Io(std::io::Error),
    /// Something looked for was not found.
    NotFound(String),
    /// A downloaded file is no valid DLL.
    InvalidDll(String),
}

} // verus!
