//! Constants of the write-ahead log's on-disk format.

use vstd::prelude::*;

verus! {

/// The log is a sequence of blocks of this many bytes.
pub const BLOCK_SIZE: usize = 32768;

/// Header is checksum (4 bytes), length (2 bytes), type (1 byte).
pub const HEADER_SIZE: usize = 7;

/// The largest type tag in use.
pub const MAX_RECORD_TYPE: u8 = 4;

/// The tag of a record of type zero.
pub const ZERO: u8 = 0;

/// The tag of a whole logical record.
pub const FULL: u8 = 1;

/// The tag of the first fragment of a logical record.
pub const FIRST: u8 = 2;

/// The tag of a fragment that is neither first nor last.
pub const MIDDLE: u8 = 3;

/// The tag of the last fragment of a logical record.
pub const LAST: u8 = 4;

/// What a physical record is to the logical record it carries.
#[derive(Debug, Clone, Copy, PartialEq, Eq, Structural)]
pub enum RecordType {
    /// Reserved for preallocated, zero-filled regions.
    Zero,
    /// A whole logical record.
    Full,
    /// The first fragment of a logical record.
    First,
    /// A fragment that is neither first nor last.
    Middle,
    /// The last fragment of a logical record.
    Last,
}

impl RecordType {
    /// The tag stored in a record's header.
    pub open spec fn spec_tag(self) -> u8 {
        match self {
            RecordType::Zero => ZERO,
            RecordType::Full => FULL,
            RecordType::First => FIRST,
            RecordType::Middle => MIDDLE,
            RecordType::Last => LAST,
        }
    }

    /// The tag stored in a record's header.
    #[verifier::when_used_as_spec(spec_tag)]
    pub fn tag(self) -> (t: u8)
        ensures
            t == self.spec_tag(),
    {
        match self {
            RecordType::Zero => ZERO,
            RecordType::Full => FULL,
            RecordType::First => FIRST,
            RecordType::Middle => MIDDLE,
            RecordType::Last => LAST,
        }
    }

    /// The type that a fragment gets: by whether it begins and whether it
    /// ends its logical record.
    pub open spec fn spec_of_fragment(begin: bool, end: bool) -> RecordType {
        if begin && end {
            RecordType::Full
        } else if begin {
            RecordType::First
        } else if end {
            RecordType::Last
        } else {
            RecordType::Middle
        }
    }

    /// The type that a fragment gets: by whether it begins and whether it
    /// ends its logical record.
    #[verifier::when_used_as_spec(spec_of_fragment)]
    pub fn of_fragment(begin: bool, end: bool) -> (t: RecordType)
        ensures
            t == Self::spec_of_fragment(begin, end),
    {
        if begin && end {
            RecordType::Full
        } else if begin {
            RecordType::First
        } else if end {
            RecordType::Last
        } else {
            RecordType::Middle
        }
    }
}

} // verus!
