//! What a caller can choose when it opens a database, reads or writes.

use vstd::prelude::*;
use crate::comparator::Comparator;

verus! {

/// What a database is opened with.
pub struct Options<C: Comparator> {
    /// The order of the user keys.
    pub comparator: C,
}

/// What a read is made with.
pub struct ReadOptions {
    /// Whether the checksums of what is read are verified.
    pub verify_checksums: bool,
}

/// What a write is made with.
pub struct WriteOptions {
    /// Whether the write is forced to stable storage before it is
    /// acknowledged.
    pub sync: bool,
}

impl ReadOptions {
    /// Reads that verify nothing.
    pub fn new() -> (o: Self)
        ensures
            !o.verify_checksums,
    {
        ReadOptions { verify_checksums: false }
    }
}

impl WriteOptions {
    /// Writes that are not forced to stable storage.
    pub fn new() -> (o: Self)
        ensures
            !o.sync,
    {
        WriteOptions { sync: false }
    }
}

} // verus!
