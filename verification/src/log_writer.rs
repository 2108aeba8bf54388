//! The log writer: cuts logical records into checksummed fragments that
//! never cross a block boundary.

use vstd::prelude::*;
use crate::coding::{encode_fixed32, fixed32_bytes, overwrite};
use crate::env::WritableFile;
use crate::error::Error;
use crate::log_format::{RecordType, BLOCK_SIZE, HEADER_SIZE, MAX_RECORD_TYPE};
use crate::slice::Slice;
use crate::util::crc;
use crate::util::crc::{crc_extend, crc_value, mask_spec};

verus! {

/// `n` zero bytes.
pub open spec fn zeros(n: nat) -> Seq<u8> {
    Seq::new(n, |i: int| 0u8)
}

/// One physical record: the masked checksum of type and payload, the
/// payload's length in two little-endian bytes, the type, the payload.
#[verifier::opaque]
pub open spec fn record_bytes(kind: RecordType, payload: Seq<u8>) -> Seq<u8> {
    fixed32_bytes(mask_spec(crc_extend(crc_value(seq![kind.tag()]), payload))) + seq![
        (payload.len() % 256) as u8,
        (payload.len() / 256 % 256) as u8,
        kind.tag(),
    ] + payload
}

/// What fills the rest of a block that is too short for a header.
pub open spec fn padding(off: nat) -> Seq<u8> {
    if off + HEADER_SIZE > BLOCK_SIZE && off <= BLOCK_SIZE {
        zeros((BLOCK_SIZE - off) as nat)
    } else {
        Seq::empty()
    }
}

/// The block offset at which the next fragment's header goes.
pub open spec fn fragment_start(off: nat) -> nat {
    if off + HEADER_SIZE > BLOCK_SIZE {
        0
    } else {
        off
    }
}

/// How much of a payload of `left` bytes the next fragment takes.
pub open spec fn fragment_len(off: nat, left: nat) -> nat {
    let avail = (BLOCK_SIZE - fragment_start(off) - HEADER_SIZE) as nat;
    if left < avail {
        left
    } else {
        avail
    }
}

/// The bytes that writing `payload` adds to a log whose current block
/// holds `off` bytes; `begin` says whether the payload is a whole record or
/// what is left of one.
#[verifier::opaque]
pub open spec fn log_bytes(off: nat, payload: Seq<u8>, begin: bool) -> Seq<u8>
    decreases payload.len(), (if fragment_start(off) + HEADER_SIZE == BLOCK_SIZE {
        1nat
    } else {
        0nat
    }),
{
    let n = fragment_len(off, payload.len());
    let end = n == payload.len();
    let head = padding(off) + record_bytes(RecordType::of_fragment(begin, end), payload.take(n as int));
    if end {
        head
    } else {
        head + log_bytes((fragment_start(off) + HEADER_SIZE + n) as nat, payload.skip(n as int), false)
    }
}

/// How many bytes the current block holds after `payload` was written to a
/// log whose current block held `off` bytes.
#[verifier::opaque]
pub open spec fn log_end_offset(off: nat, payload: Seq<u8>) -> nat
    decreases payload.len(), (if fragment_start(off) + HEADER_SIZE == BLOCK_SIZE {
        1nat
    } else {
        0nat
    }),
{
    let n = fragment_len(off, payload.len());
    let next = (fragment_start(off) + HEADER_SIZE + n) as nat;
    if n == payload.len() {
        next
    } else {
        log_end_offset(next, payload.skip(n as int))
    }
}

/// One step of `log_bytes` and `log_end_offset`, written out.
pub proof fn lemma_log_bytes_unfold(off: nat, payload: Seq<u8>, begin: bool)
    ensures
        ({
            let n = fragment_len(off, payload.len());
            let end = n == payload.len();
            let next = (fragment_start(off) + HEADER_SIZE + n) as nat;
            let record = record_bytes(RecordType::of_fragment(begin, end), payload.take(n as int));
            &&& log_bytes(off, payload, begin) == padding(off) + record + if end {
                Seq::<u8>::empty()
            } else {
                log_bytes(next, payload.skip(n as int), false)
            }
            &&& log_end_offset(off, payload) == if end {
                next
            } else {
                log_end_offset(next, payload.skip(n as int))
            }
        }),
{
    reveal(log_bytes);
    reveal(log_end_offset);
    let n = fragment_len(off, payload.len());
    let end = n == payload.len();
    let record = record_bytes(RecordType::of_fragment(begin, end), payload.take(n as int));
    assert(padding(off) + record + Seq::<u8>::empty() =~= padding(off) + record);
}

/// The bytes of a log to which `payloads` were written one after another,
/// starting in a block that held `off` bytes.
pub open spec fn log_of(off: nat, payloads: Seq<Seq<u8>>) -> Seq<u8>
    decreases payloads.len(),
{
    if payloads.len() == 0 {
        Seq::empty()
    } else {
        log_bytes(off, payloads[0], true) + log_of(
            log_end_offset(off, payloads[0]),
            payloads.skip(1),
        )
    }
}

/// A physical record is its payload behind seven bytes of header.
pub proof fn lemma_record_bytes_len(kind: RecordType, payload: Seq<u8>)
    ensures
        record_bytes(kind, payload).len() == HEADER_SIZE + payload.len(),
{
    reveal(record_bytes);
}

/// Whether `table` holds, for each record type, the checksum of its tag.
pub open spec fn is_type_crc(table: Seq<u32>) -> bool {
    &&& table.len() > MAX_RECORD_TYPE
    &&& forall|t: int| 0 <= t <= MAX_RECORD_TYPE ==> table[t] == crc_value(seq![t as u8])
}

/// Fills `type_crc` with the checksum of each record type's tag, so that a
/// record's checksum can start from there.
pub fn init_type_crc(type_crc: &mut [u32])
    requires
        old(type_crc)@.len() > MAX_RECORD_TYPE,
    ensures
        final(type_crc)@.len() == old(type_crc)@.len(),
        is_type_crc(final(type_crc)@),
        forall|i: int|
            MAX_RECORD_TYPE < i < old(type_crc)@.len() ==> final(type_crc)@[i] == old(type_crc)@[i],
{
    let mut i: u8 = 0;
    while i <= MAX_RECORD_TYPE
        invariant
            i <= MAX_RECORD_TYPE + 1,
            type_crc@.len() == old(type_crc)@.len() > MAX_RECORD_TYPE,
            forall|t: int| 0 <= t < i ==> type_crc@[t] == crc_value(seq![t as u8]),
            forall|j: int| MAX_RECORD_TYPE < j < type_crc@.len() ==> type_crc@[j] == old(type_crc)@[j],
        decreases MAX_RECORD_TYPE + 1 - i,
    {
        let tag: [u8; 1] = [i];
        assert(tag@ =~= seq![i]);
        type_crc[i as usize] = crc::value(tag.as_slice());
        i += 1;
    }
}

/// Appends records to a log file.
pub struct Writer<W: WritableFile> {
    dest: W,
    block_offset: usize,
    type_crc: Vec<u32>,
}

impl<W: WritableFile> Writer<W> {
    /// The invariant of a writer: its block offset lies within a block and
    /// its checksum table is filled.
    pub closed spec fn wf(&self) -> bool {
        &&& self.block_offset <= BLOCK_SIZE
        &&& is_type_crc(self.type_crc@)
    }

    /// The bytes of the file written to.
    pub closed spec fn contents(&self) -> Seq<u8> {
        self.dest.contents()
    }

    /// Whether the file written to never fails.
    pub closed spec fn infallible(&self) -> bool {
        self.dest.infallible()
    }

    /// How many bytes the current block holds.
    pub closed spec fn block_offset(&self) -> nat {
        self.block_offset as nat
    }

    /// How many bytes of the file are known to be on stable storage.
    pub closed spec fn synced(&self) -> nat {
        self.dest.synced()
    }

    /// A writer that appends to `dest`, which must be empty or end on a
    /// block boundary.
    pub fn new(dest: W) -> (w: Self)
        ensures
            w.wf(),
            w.contents() == dest.contents(),
            w.infallible() == dest.infallible(),
            w.synced() == dest.synced(),
            w.block_offset() == 0,
    {
        Self::new_with_block_offset(dest, 0)
    }

    /// A writer that appends to `dest`, whose last block already holds
    /// `block_offset` bytes.
    pub fn new_with_block_offset(dest: W, block_offset: usize) -> (w: Self)
        requires
            block_offset <= BLOCK_SIZE,
        ensures
            w.wf(),
            w.contents() == dest.contents(),
            w.infallible() == dest.infallible(),
            w.synced() == dest.synced(),
            w.block_offset() == block_offset,
    {
        let mut type_crc: Vec<u32> = vec![0u32; 5];
        init_type_crc(type_crc.as_mut_slice());
        Writer { dest, block_offset, type_crc }
    }

    /// The file written to.
    pub fn dest(&self) -> (d: &W)
        ensures
            d.contents() == self.contents(),
            d.infallible() == self.infallible(),
            d.synced() == self.synced(),
    {
        &self.dest
    }

    /// Forces what was written to stable storage.
    pub fn sync(&mut self) -> (r: Result<(), Error>)
        requires
            old(self).wf(),
        ensures
            final(self).wf(),
            final(self).infallible() == old(self).infallible(),
            final(self).block_offset() == old(self).block_offset(),
            old(self).infallible() ==> r is Ok,
            r is Ok ==> final(self).contents() == old(self).contents(),
            r is Ok ==> final(self).synced() == final(self).contents().len(),
    {
        self.dest.sync()
    }

    /// Writes `slice` as one logical record: in as many fragments as the
    /// blocks call for, an empty one where `slice` is empty. On an error
    /// the file may hold a part of the record.
    #[verifier::rlimit(30)]
    pub fn add_record(&mut self, slice: &Slice) -> (r: Result<(), Error>)
        requires
            old(self).wf(),
        ensures
            final(self).wf(),
            final(self).infallible() == old(self).infallible(),
            old(self).infallible() ==> r is Ok,
            r is Ok ==> final(self).contents() == old(self).contents() + log_bytes(
                old(self).block_offset(),
                slice@,
                true,
            ),
            r is Ok ==> final(self).block_offset() == log_end_offset(
                old(self).block_offset(),
                slice@,
            ),
            r is Ok ==> final(self).synced() >= old(self).synced(),
    {
        let data = slice.data();
        let mut left: usize = slice.size();
        let mut offset: usize = 0;
        let mut begin = true;
        assert(data@.skip(0) =~= data@);
        loop
            invariant
                data@ == slice@,
                offset + left == data@.len() <= usize::MAX,
                self.wf(),
                self.infallible() == old(self).infallible(),
                self.synced() >= old(self).synced(),
                self.contents() + log_bytes(self.block_offset(), data@.skip(offset as int), begin)
                    == old(self).contents() + log_bytes(old(self).block_offset(), slice@, true),
                log_end_offset(self.block_offset(), data@.skip(offset as int)) == log_end_offset(
                    old(self).block_offset(),
                    slice@,
                ),
            decreases left, (if fragment_start(self.block_offset()) + HEADER_SIZE == BLOCK_SIZE {
                1nat
            } else {
                0nat
            }),
        {
            let ghost rest = data@.skip(offset as int);
            let ghost before = self.contents();
            let ghost off = self.block_offset();
            let ghost was_begin = begin;
            self.start_fragment()?;
            let avail = BLOCK_SIZE - self.block_offset - HEADER_SIZE;
            let fragment_length = if left < avail {
                left
            } else {
                avail
            };
            let end = left == fragment_length;
            let record_type = RecordType::of_fragment(begin, end);
            let piece = vstd::slice::slice_subrange(data, offset, offset + fragment_length);
            assert(piece@ =~= rest.take(fragment_length as int));
            self.emit_physical_record(record_type, piece)?;
            offset += fragment_length;
            left -= fragment_length;
            begin = false;
            proof {
                let record = record_bytes(record_type, piece@);
                let tail = if end {
                    Seq::<u8>::empty()
                } else {
                    log_bytes(self.block_offset(), data@.skip(offset as int), false)
                };
                assert(rest.skip(fragment_length as int) =~= data@.skip(offset as int));
                lemma_log_bytes_unfold(off, rest, was_begin);
                assert(log_bytes(off, rest, was_begin) == padding(off) + record + tail);
                assert(before + (padding(off) + record + tail) =~= ((before + padding(off))
                    + record) + tail);
                assert(self.contents() + Seq::<u8>::empty() =~= self.contents());
            }
            if end {
                return Ok(());
            }
        }
    }

    /// Where the current block has no room left for a header, fills it with
    /// zeros and moves to the next block.
    fn start_fragment(&mut self) -> (r: Result<(), Error>)
        requires
            old(self).wf(),
        ensures
            final(self).wf(),
            final(self).infallible() == old(self).infallible(),
            old(self).infallible() ==> r is Ok,
            r is Ok ==> final(self).contents() == old(self).contents() + padding(
                old(self).block_offset(),
            ),
            r is Ok ==> final(self).block_offset() == fragment_start(old(self).block_offset()),
            r is Ok ==> final(self).synced() >= old(self).synced(),
    {
        let leftover = BLOCK_SIZE - self.block_offset;
        if leftover < HEADER_SIZE {
            if leftover > 0 {
                let fill: Vec<u8> = vec![0u8; leftover];
                assert(fill@ =~= zeros(leftover as nat));
                self.dest.append(&Slice::from_bytes(fill.as_slice()))?;
            }
            self.block_offset = 0;
        }
        assert(self.contents() =~= old(self).contents() + padding(old(self).block_offset()));
        Ok(())
    }

    /// Writes one physical record, header and payload, and flushes the
    /// file.
    fn emit_physical_record(&mut self, record_type: RecordType, data: &[u8]) -> (r: Result<
        (),
        Error,
    >)
        requires
            old(self).wf(),
            old(self).block_offset + HEADER_SIZE + data@.len() <= BLOCK_SIZE,
        ensures
            final(self).wf(),
            final(self).infallible() == old(self).infallible(),
            old(self).infallible() ==> r is Ok,
            r is Ok ==> final(self).contents() == old(self).contents() + record_bytes(
                record_type,
                data@,
            ),
            r is Ok ==> final(self).block_offset == old(self).block_offset + HEADER_SIZE
                + data@.len(),
            r is Ok ==> final(self).synced() >= old(self).synced(),
    {
        let length = data.len();
        let tag = record_type.tag();
        let mut buf: Vec<u8> = vec![0u8; HEADER_SIZE];
        buf[4] = (length % 256) as u8;
        buf[5] = (length / 256) as u8;
        buf[6] = tag;
        // The checksum covers the record type and the payload.
        let checksum = crc::mask(crc::extend(self.type_crc[tag as usize], data));
        encode_fixed32(buf.as_mut_slice(), checksum, 0);
        let ghost before = self.contents();
        proof {
            assert(buf@ =~= fixed32_bytes(checksum) + seq![
                (length % 256) as u8,
                (length / 256 % 256) as u8,
                tag,
            ]);
        }
        self.dest.append(&Slice::from_bytes(buf.as_slice()))?;
        self.dest.append(&Slice::from_bytes(data))?;
        self.dest.flush()?;
        assert(self.contents() =~= before + record_bytes(record_type, data@)) by {
            reveal(record_bytes);
        }
        self.block_offset += HEADER_SIZE + length;
        Ok(())
    }
}

} // verus!
