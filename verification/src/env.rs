//! The file capabilities that the engine consumes, and their in-memory
//! forms.

use vstd::prelude::*;
use std::rc::Rc;
use crate::error::Error;
use crate::slice::Slice;

verus! {

/// Up to `want` bytes of `contents` from `offset` on: fewer where the
/// bytes end first, none where `offset` lies behind them.
pub open spec fn bytes_at(contents: Seq<u8>, offset: int, want: int) -> Seq<u8> {
    if 0 <= offset < contents.len() && 0 <= want {
        if offset + want <= contents.len() {
            contents.subrange(offset, offset + want)
        } else {
            contents.skip(offset)
        }
    } else {
        Seq::empty()
    }
}

/// An append-only file.
pub trait WritableFile {
    /// Every byte appended so far, in order. An implementation that does
    /// not say what it holds is taken to hold anything.
    open spec fn contents(&self) -> Seq<u8> {
        arbitrary()
    }

    /// Whether no operation on this file ever fails. An implementation
    /// that does not say so is taken to be able to fail.
    open spec fn infallible(&self) -> bool {
        false
    }

    /// How many of the bytes are known to be on stable storage. An
    /// implementation that does not say so is taken to vouch for any
    /// number.
    open spec fn synced(&self) -> nat {
        arbitrary()
    }

    /// Adds `data` to the end of the file.
    fn append(&mut self, data: &Slice) -> (r: Result<(), Error>)
        ensures
            final(self).infallible() == old(self).infallible(),
            old(self).infallible() ==> r is Ok,
            r is Ok ==> final(self).contents() == old(self).contents() + data@,
            r is Ok ==> final(self).synced() >= old(self).synced(),
    ;

    /// Hands what is buffered to the operating system.
    fn flush(&mut self) -> (r: Result<(), Error>)
        ensures
            final(self).infallible() == old(self).infallible(),
            old(self).infallible() ==> r is Ok,
            r is Ok ==> final(self).contents() == old(self).contents(),
            r is Ok ==> final(self).synced() >= old(self).synced(),
    ;

    /// Flushes and releases the file.
    fn close(&mut self) -> (r: Result<(), Error>)
        ensures
            final(self).infallible() == old(self).infallible(),
            old(self).infallible() ==> r is Ok,
            r is Ok ==> final(self).contents() == old(self).contents(),
            r is Ok ==> final(self).synced() >= old(self).synced(),
    ;

    /// Flushes, then forces the bytes to stable storage.
    fn sync(&mut self) -> (r: Result<(), Error>)
        ensures
            final(self).infallible() == old(self).infallible(),
            old(self).infallible() ==> r is Ok,
            r is Ok ==> final(self).contents() == old(self).contents(),
            r is Ok ==> final(self).synced() == final(self).contents().len(),
    ;
}

/// A file that is read from front to back.
pub trait SequentialFile {
    /// The bytes that have not been read yet. An implementation that does
    /// not say what it holds is taken to hold anything.
    open spec fn remaining(&self) -> Seq<u8> {
        arbitrary()
    }

    /// Whether no operation on this file ever fails. An implementation
    /// that does not say so is taken to be able to fail.
    open spec fn infallible(&self) -> bool {
        false
    }

    /// Reads up to `scratch.len()` bytes into the front of `scratch` and
    /// returns how many were read. Fewer than asked for means that the file
    /// has ended.
    fn read(&mut self, scratch: &mut [u8]) -> (r: Result<usize, Error>)
        ensures
            final(self).infallible() == old(self).infallible(),
            old(self).infallible() ==> r is Ok,
            final(scratch)@.len() == old(scratch)@.len(),
            match r {
                Ok(n) => {
                    &&& n <= old(scratch)@.len()
                    &&& n <= old(self).remaining().len()
                    &&& n == old(scratch)@.len() || n == old(self).remaining().len()
                    &&& final(scratch)@.take(n as int) == old(self).remaining().take(n as int)
                    &&& final(self).remaining() == old(self).remaining().skip(n as int)
                },
                Err(_) => true,
            },
    ;

    /// Moves `n` bytes ahead without reading them, or to the end of the
    /// file where fewer are left.
    fn skip(&mut self, n: u64) -> (r: Result<(), Error>)
        ensures
            final(self).infallible() == old(self).infallible(),
            old(self).infallible() ==> r is Ok,
            r is Ok ==> final(self).remaining() == if n <= old(self).remaining().len() {
                old(self).remaining().skip(n as int)
            } else {
                Seq::empty()
            },
    ;
}

/// A file that is read at any offset.
pub trait RandomAccessFile {
    /// The bytes of the file. An implementation that does not say what
    /// it holds is taken to hold anything.
    open spec fn contents(&self) -> Seq<u8> {
        arbitrary()
    }

    /// Whether no operation on this file ever fails. An implementation
    /// that does not say so is taken to be able to fail.
    open spec fn infallible(&self) -> bool {
        false
    }

    /// Reads up to `scratch.len()` bytes from `offset` on into the front of
    /// `scratch` and returns how many were read.
    fn read(&self, offset: u64, scratch: &mut [u8]) -> (r: Result<usize, Error>)
        ensures
            self.infallible() ==> r is Ok,
            final(scratch)@.len() == old(scratch)@.len(),
            match r {
                Ok(n) => {
                    &&& n == bytes_at(self.contents(), offset as int, old(scratch)@.len() as int).len()
                    &&& final(scratch)@.take(n as int) == bytes_at(
                        self.contents(),
                        offset as int,
                        old(scratch)@.len() as int,
                    )
                },
                Err(_) => true,
            },
    ;
}

/// A held lock on a file; releasing it is dropping it.
pub trait FileLock {

}

/// A writable file that lives in memory.
pub struct MemoryWritableFile {
    memory: Vec<u8>,
    /// How many bytes the file held when it was last synced.
    synced: usize,
}

impl MemoryWritableFile {
    /// A file that starts out holding `memory`, none of it synced.
    pub fn new(memory: Vec<u8>) -> (f: Self)
        ensures
            f.contents() == memory@,
            f.synced() == 0,
    {
        MemoryWritableFile { memory, synced: 0 }
    }

    /// How many bytes the file held when it was last synced.
    pub fn synced_len(&self) -> (n: usize)
        ensures
            n == self.synced(),
    {
        self.synced
    }

    /// The bytes of the file.
    pub fn data(&self) -> (d: &Vec<u8>)
        ensures
            d@ == self.contents(),
    {
        &self.memory
    }

    /// Gives up the file for its bytes.
    pub fn into_inner(self) -> (d: Vec<u8>)
        ensures
            d@ == self.contents(),
    {
        self.memory
    }
}

impl WritableFile for MemoryWritableFile {
    closed spec fn contents(&self) -> Seq<u8> {
        self.memory@
    }

    open spec fn infallible(&self) -> bool {
        true
    }

    closed spec fn synced(&self) -> nat {
        self.synced as nat
    }

    fn append(&mut self, data: &Slice) -> (r: Result<(), Error>) {
        self.memory.extend_from_slice(data.data());
        assert(self.memory@ =~= old(self).memory@ + data@);
        Ok(())
    }

    fn flush(&mut self) -> (r: Result<(), Error>) {
        Ok(())
    }

    fn close(&mut self) -> (r: Result<(), Error>) {
        Ok(())
    }

    fn sync(&mut self) -> (r: Result<(), Error>) {
        self.synced = self.memory.len();
        Ok(())
    }
}

/// Copies `src[from..from + n]` to the front of `dst`.
fn copy_to_front(dst: &mut [u8], src: &[u8], from: usize, n: usize)
    requires
        n <= old(dst)@.len(),
        from + n <= src@.len(),
    ensures
        final(dst)@.len() == old(dst)@.len(),
        final(dst)@.take(n as int) == src@.subrange(from as int, from + n),
        final(dst)@.skip(n as int) == old(dst)@.skip(n as int),
{
    let len = src.len();
    let mut i: usize = 0;
    while i < n
        invariant
            i <= n <= dst@.len(),
            from + n <= src@.len() == len,
            dst@.len() == old(dst)@.len(),
            dst@.take(i as int) == src@.subrange(from as int, from + i),
            dst@.skip(n as int) == old(dst)@.skip(n as int),
        decreases n - i,
    {
        let ghost before = dst@;
        dst[i] = src[from + i];
        proof {
            assert(dst@.take(i + 1) =~= before.take(i as int).push(src@[from + i]));
            assert(src@.subrange(from as int, from + i + 1) =~= src@.subrange(
                from as int,
                from + i,
            ).push(src@[from + i]));
            assert(dst@.skip(n as int) =~= before.skip(n as int));
        }
        i += 1;
    }
}

/// A sequential file that lives in memory.
pub struct MemorySequentialFile {
    memory: Rc<Vec<u8>>,
    offset: usize,
}

impl MemorySequentialFile {
    /// A file over `memory`, positioned at its first byte.
    pub fn new(memory: Rc<Vec<u8>>) -> (f: Self)
        ensures
            f.remaining() == memory@,
    {
        MemorySequentialFile { memory, offset: 0 }
    }
}

impl SequentialFile for MemorySequentialFile {
    closed spec fn remaining(&self) -> Seq<u8> {
        if self.offset <= self.memory@.len() {
            self.memory@.skip(self.offset as int)
        } else {
            Seq::empty()
        }
    }

    open spec fn infallible(&self) -> bool {
        true
    }

    fn read(&mut self, scratch: &mut [u8]) -> (r: Result<usize, Error>) {
        let total = self.memory.len();
        let start = if self.offset < total {
            self.offset
        } else {
            total
        };
        let left = total - start;
        let n = if scratch.len() < left {
            scratch.len()
        } else {
            left
        };
        copy_to_front(scratch, self.memory.as_slice(), start, n);
        self.offset = start + n;
        proof {
            assert(old(self).remaining().take(n as int) =~= self.memory@.subrange(
                start as int,
                start + n,
            ));
            assert(self.remaining() =~= old(self).remaining().skip(n as int));
        }
        Ok(n)
    }

    fn skip(&mut self, n: u64) -> (r: Result<(), Error>) {
        let total = self.memory.len();
        let start = if self.offset < total {
            self.offset
        } else {
            total
        };
        let left = total - start;
        if n <= left as u64 {
            self.offset = start + n as usize;
            assert(self.remaining() =~= old(self).remaining().skip(n as int));
        } else {
            self.offset = total;
            assert(self.remaining() =~= Seq::<u8>::empty());
        }
        Ok(())
    }
}

/// A random-access file that lives in memory.
pub struct MemoryRandomAccessFile {
    memory: Rc<Vec<u8>>,
}

impl MemoryRandomAccessFile {
    /// A file over `memory`.
    pub fn new(memory: Rc<Vec<u8>>) -> (f: Self)
        ensures
            f.contents() == memory@,
    {
        MemoryRandomAccessFile { memory }
    }
}

impl RandomAccessFile for MemoryRandomAccessFile {
    closed spec fn contents(&self) -> Seq<u8> {
        self.memory@
    }

    open spec fn infallible(&self) -> bool {
        true
    }

    fn read(&self, offset: u64, scratch: &mut [u8]) -> (r: Result<usize, Error>) {
        let total = self.memory.len();
        let start = if offset < total as u64 {
            offset as usize
        } else {
            total
        };
        let left = total - start;
        let n = if scratch.len() < left {
            scratch.len()
        } else {
            left
        };
        copy_to_front(scratch, self.memory.as_slice(), start, n);
        proof {
            assert(self.memory@.subrange(start as int, start + n) =~= bytes_at(
                self.contents(),
                offset as int,
                old(scratch)@.len() as int,
            ));
        }
        Ok(n)
    }
}

} // verus!
