//! What can go wrong opening a stream or reading bytes out of it.

use vstd::prelude::*;

use crate::text;

verus! {

/// One error type for the stream layer.
#[derive(Debug, PartialEq, Eq)]
pub enum Error {
    /// A share could not be opened, or its catalog could not be read.
    Core(String),
    /// The drive failed: network, refusal, or decryption.
    Drive(String),
    /// The block cache's filesystem failed.
    Io(String),
    /// The caller asked for something that does not exist.
    NotFound(String),
    /// A failure that happened in *another* task.
    ///
    /// Block fetches are deduplicated: when several readers want the same block
    /// only one of them fetches it, and the rest wait. The waiters get the
    /// leader's message; the leader itself always sees the real error.
    Shared(String),
}

impl Error {
    /// The error as it is printed.
    pub open spec fn text(self) -> Seq<char> {
        match self {
            Error::Core(m) => m@,
            Error::Drive(m) => m@,
            Error::Io(m) => "block cache: "@ + m@,
            Error::NotFound(m) => m@,
            Error::Shared(m) => m@,
        }
    }

    /// The error as it is printed.
    pub fn message(&self) -> (r: String)
        ensures
            r@ == self.text(),
    {
        match self {
            Error::Core(m) => m.clone(),
            Error::Drive(m) => m.clone(),
            Error::Io(m) => {
                let mut r = text::owned("block cache: ");
                r.push_str(m.as_str());
                r
            },
            Error::NotFound(m) => m.clone(),
            Error::Shared(m) => m.clone(),
        }
    }
}

} // verus!
