//! The error taxonomy of the storage core. I/O failures pass through the
//! caller's own error type; a corrupted durable structure is reported here
//! and never silently ignored.

use vstd::prelude::*;

verus! {

/// Why a durable structure could not be read back.
#[derive(Clone, Copy, Debug, PartialEq, Eq, Structural)]
pub enum Error {
    /// A malformed length prefix, a truncated payload, or unparsable
    /// current-pointer content.
    Corrupted,
    /// A file that should be present could not be read.
    Io,
}

impl Error {
    /// A short description, for callers that report errors as text.
    pub fn message(&self) -> (r: &'static str)
        ensures
            self is Corrupted ==> r@ == "corrupted"@,
            self is Io ==> r@ == "io"@,
    {
        match self {
            Error::Corrupted => "corrupted",
            Error::Io => "io",
        }
    }
}

} // verus!
