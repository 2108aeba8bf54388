//! The error taxonomy shared by every component.

use vstd::prelude::*;

verus! {

/// Why an operation did not succeed.
#[derive(Debug, Clone, Copy, PartialEq, Eq, Structural)]
pub enum Error {
    /// The key is absent, or hidden by a tombstone.
    NotFound,
    /// Stored bytes do not follow their format.
    Corruption,
    /// A capability this implementation does not offer.
    NotSupported,
    /// The caller broke a stated constraint.
    InvalidArgument,
    /// The underlying file system failed.
    IOError,
}

impl Error {
    /// The stable numeric code of the error.
    pub open spec fn spec_code(self) -> u8 {
        match self {
            Error::NotFound => 1,
            Error::Corruption => 2,
            Error::NotSupported => 3,
            Error::InvalidArgument => 4,
            Error::IOError => 5,
        }
    }

    /// The stable numeric code of the error.
    #[verifier::when_used_as_spec(spec_code)]
    pub fn code(self) -> (c: u8)
        ensures
            c == self.spec_code(),
    {
        match self {
            Error::NotFound => 1,
            Error::Corruption => 2,
            Error::NotSupported => 3,
            Error::InvalidArgument => 4,
            Error::IOError => 5,
        }
    }

    /// A short human-readable description.
    pub fn message(self) -> (s: &'static str)
        ensures
            s@ == Self::spec_message(self),
    {
        match self {
            Error::NotFound => "object not found error",
            Error::Corruption => "file corrupted",
            Error::NotSupported => "not support",
            Error::InvalidArgument => "invalid argument",
            Error::IOError => "io error",
        }
    }

    /// The text of `message`.
    pub open spec fn spec_message(self) -> Seq<char> {
        match self {
            Error::NotFound => "object not found error"@,
            Error::Corruption => "file corrupted"@,
            Error::NotSupported => "not support"@,
            Error::InvalidArgument => "invalid argument"@,
            Error::IOError => "io error"@,
        }
    }
}

} // verus!
