//! A borrowed view of a byte string.

use vstd::prelude::*;
use vstd::string::StringSliceAdditionalSpecFns;

verus! {

/// A borrowed run of bytes: a user key, a value, or an encoded record.
#[derive(Debug, Clone, Copy, PartialEq, Eq, PartialOrd, Ord)]
pub struct Slice<'a> {
    data: &'a [u8],
}

impl<'a> View for Slice<'a> {
    type V = Seq<u8>;

    closed spec fn view(&self) -> Seq<u8> {
        self.data@
    }
}

impl<'a> Slice<'a> {
    /// The empty byte string.
    pub fn from_empty() -> (s: Self)
        ensures
            s@ == Seq::<u8>::empty(),
    {
        let empty: &'static [u8] = &[];
        Slice { data: empty }
    }

    /// Borrows `d` as a slice.
    pub fn from_bytes(d: &'a [u8]) -> (s: Self)
        ensures
            s@ == d@,
    {
        Slice { data: d }
    }

    /// Borrows the UTF-8 bytes of `s`.
    pub fn from_str(s: &'a str) -> (r: Self)
        ensures
            r@ == s.spec_bytes(),
    {
        Slice { data: s.as_bytes() }
    }

    /// The number of bytes.
    pub fn size(&self) -> (n: usize)
        ensures
            n == self@.len(),
    {
        self.data.len()
    }

    /// The bytes themselves.
    pub fn data(&self) -> (d: &'a [u8])
        ensures
            d@ == self@,
    {
        self.data
    }

    /// Whether the slice holds no byte.
    pub fn empty(&self) -> (b: bool)
        ensures
            b == (self@.len() == 0),
    {
        self.data.len() == 0
    }

    /// Drops the first `n` bytes.
    pub fn remove_prefix(&mut self, n: usize)
        requires
            n <= old(self)@.len(),
        ensures
            final(self)@ == old(self)@.skip(n as int),
    {
        let d = self.data;
        self.data = vstd::slice::slice_subrange(d, n, d.len());
    }
}

} // verus!
