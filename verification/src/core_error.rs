//! What can go wrong opening a share, crawling it, or keeping what was found.

use vstd::prelude::*;

use crate::text;

verus! {

/// One error type for shares, the catalog and the settings.
#[derive(Debug, PartialEq, Eq)]
pub enum Error {
    /// The drive failed: a network error, a refusal, or a decryption.
    Drive(String),
    /// The catalog database failed.
    Db(String),
    /// The system's credential store failed.
    Keyring(String),
    /// A config file could not be read, written or parsed.
    Config(String),
    /// A filesystem failure outside of config handling.
    Io(String),
    /// The caller asked for something that does not exist or does not apply.
    NotFound(String),
}

impl Error {
    /// The error as it is printed.
    pub open spec fn text(self) -> Seq<char> {
        match self {
            Error::Drive(m) => m@,
            Error::Db(m) => "catalog database: "@ + m@,
            Error::Keyring(m) => "credential store: "@ + m@,
            Error::Config(m) => "config: "@ + m@,
            Error::Io(m) => "io: "@ + m@,
            Error::NotFound(m) => m@,
        }
    }

    /// The error as it is printed.
    pub fn message(&self) -> (r: String)
        ensures
            r@ == self.text(),
    {
        match self {
            Error::Drive(m) => m.clone(),
            Error::Db(m) => text::joined("catalog database: ", m.as_str()),
            Error::Keyring(m) => text::joined("credential store: ", m.as_str()),
            Error::Config(m) => text::joined("config: ", m.as_str()),
            Error::Io(m) => text::joined("io: ", m.as_str()),
            Error::NotFound(m) => m.clone(),
        }
    }
}

} // verus!
