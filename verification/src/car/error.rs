//! Failures of the archive reader and writer.

use vstd::prelude::*;

verus! {

use crate::stream::IoError;

/// Car utility error.
#[derive(Debug, Clone, PartialEq, Eq)]
pub enum Error {
    /// Failed to parse CAR file.
    Parsing(String),
    /// Invalid CAR file.
    InvalidFile(String),
    /// Io error, propagated from the underlying stream.
    Io(IoError),
    /// A frame declared a length over the cap; carries the declared length.
    LdReadTooLarge(usize),
}

} // verus!
