//! The log reader: checks physical records block by block and puts the
//! fragments of each logical record back together.

use vstd::prelude::*;
use crate::coding::{decode_fix32, fixed32_bytes, fixed32_value, lemma_fixed32_round_trip};
use crate::env::SequentialFile;
use crate::error::Error;
use crate::log_format::{
    RecordType, BLOCK_SIZE, FIRST, FULL, HEADER_SIZE, LAST, MIDDLE, ZERO,
};
use crate::log_writer::{
    fragment_len, fragment_start, lemma_log_bytes_unfold, log_bytes, log_end_offset, log_of,
    padding, record_bytes,
};
use crate::util::crc;
use crate::util::crc::{
    crc_extend, crc_extend_law, crc_value, mask_involution, mask_spec, unmask_spec,
};

verus! {

/// What is found where a physical record is looked for.
pub enum Physical {
    /// A record that passed every check: its type tag, its payload, the
    /// offset of its header, and the offset behind its payload.
    Record { tag: u8, payload: Seq<u8>, start: nat, next: nat },
    /// The log ends here, cleanly or inside a record.
    End,
    /// No valid record; reading goes on at `next`.
    Bad { next: nat },
}

/// What one call of the reader comes to.
pub enum Outcome {
    /// A whole logical record.
    Record(Seq<u8>),
    /// The log has ended.
    End,
    /// A record failed a check, or fragments came in the wrong order.
    Corrupt,
}

/// The outcome of a read and the state it leaves the reader in.
pub struct Step {
    pub outcome: Outcome,
    pub pos: nat,
    pub resyncing: bool,
}

/// The offset at which the block that holds `pos` ends.
pub open spec fn block_end(pos: nat) -> nat {
    ((pos / BLOCK_SIZE as nat + 1) * BLOCK_SIZE) as nat
}

/// The payload length that the header at `pos` states.
pub open spec fn header_length(log: Seq<u8>, pos: nat) -> nat {
    (log[pos as int + 4] as nat) + 256 * (log[pos as int + 5] as nat)
}

/// Whether the stored checksum of the record at `pos` is that of its type
/// and payload.
pub open spec fn checksum_matches(log: Seq<u8>, pos: nat) -> bool {
    unmask_spec(fixed32_value(log.skip(pos as int))) == crc_value(
        log.subrange(pos as int + 6, pos as int + HEADER_SIZE as int + header_length(log, pos) as int),
    )
}

/// The physical record at or after `pos`. The rest of a block that is too
/// short for a header is passed over. A record must lie within its block,
/// must not be of type zero with no payload, and, where `checksum` is set,
/// must carry the checksum of its type and payload; what fails is dropped
/// together with the rest of its block. Where the log ends inside a
/// header or a payload, it just ends.
pub open spec fn physical_at(log: Seq<u8>, pos: nat, checksum: bool) -> Physical
    decreases log.len() - pos,
{
    let limit = block_end(pos);
    let end = if limit < log.len() {
        limit
    } else {
        log.len()
    };
    if pos + HEADER_SIZE > end {
        if log.len() < limit {
            Physical::End
        } else {
            physical_at(log, limit, checksum)
        }
    } else {
        let length = header_length(log, pos);
        if pos + HEADER_SIZE + length > end {
            if log.len() < limit {
                Physical::End
            } else {
                Physical::Bad { next: end }
            }
        } else if log[pos as int + 6] == ZERO && length == 0 {
            Physical::Bad { next: end }
        } else if checksum && !checksum_matches(log, pos) {
            Physical::Bad { next: end }
        } else {
            Physical::Record {
                tag: log[pos as int + 6],
                payload: log.subrange(pos as int + HEADER_SIZE as int, pos as int + HEADER_SIZE as int + length as int),
                start: pos,
                next: (pos + HEADER_SIZE + length) as nat,
            }
        }
    }
}

/// A physical record lies within the log and behind the place where it was
/// looked for.
pub proof fn lemma_physical_bounds(log: Seq<u8>, pos: nat, checksum: bool)
    ensures
        match physical_at(log, pos, checksum) {
            Physical::Record { tag, payload, start, next } => {
                &&& pos <= start
                &&& start + HEADER_SIZE + payload.len() == next
                &&& next <= log.len()
                &&& next <= block_end(start)
                &&& payload.len() <= BLOCK_SIZE - HEADER_SIZE
            },
            Physical::End => true,
            Physical::Bad { next } => pos < next <= log.len(),
        },
    decreases log.len() - pos,
{
    let limit = block_end(pos);
    let end = if limit < log.len() {
        limit
    } else {
        log.len()
    };
    assert(pos < limit <= pos + BLOCK_SIZE) by {
        lemma_block_end(pos);
    }
    if pos + HEADER_SIZE > end {
        if log.len() >= limit {
            lemma_physical_bounds(log, limit, checksum);
        }
    }
}

/// The end of a block lies behind every offset in it, at most a block
/// away, on a block boundary.
pub proof fn lemma_block_end(pos: nat)
    ensures
        pos < block_end(pos) <= pos + BLOCK_SIZE,
        block_end(pos) % (BLOCK_SIZE as nat) == 0,
        pos % (BLOCK_SIZE as nat) == 0 ==> block_end(pos) == pos + BLOCK_SIZE,
{
    let q = pos / BLOCK_SIZE as nat;
    assert(pos == q * 32768 + pos % 32768);
    assert(((q + 1) * 32768) % 32768 == 0) by (nonlinear_arith);
}

/// Every offset of a block but its end has the same block end.
pub proof fn lemma_block_end_within(base: nat, pos: nat)
    requires
        base % (BLOCK_SIZE as nat) == 0,
        base <= pos < base + BLOCK_SIZE,
    ensures
        block_end(pos) == base + BLOCK_SIZE,
{
    let q = base / BLOCK_SIZE as nat;
    assert(base == q * 32768);
    assert(pos / 32768 == q) by (nonlinear_arith)
        requires
            q * 32768 <= pos < q * 32768 + 32768,
    ;
}

/// The logical record at or after `pos`. Physical records that start
/// before `initial_offset` are passed over. While `resyncing`, fragments
/// of type middle or last are dropped, until a record of type full or
/// first ends the resynchronisation. `partial` holds the fragments read so
/// far of a record that was begun. A fragment out of order, or a physical
/// record that fails its checks, is a corruption; a log that ends inside a
/// fragmented record just ends.
pub open spec fn read_at(
    log: Seq<u8>,
    pos: nat,
    resyncing: bool,
    checksum: bool,
    initial_offset: nat,
    partial: Option<Seq<u8>>,
) -> Step
    decreases log.len() - pos,
{
    match physical_at(log, pos, checksum) {
        Physical::End => Step {
            outcome: Outcome::End,
            pos: if pos < log.len() {
                log.len()
            } else {
                pos
            },
            resyncing,
        },
        Physical::Bad { next } => Step { outcome: Outcome::Corrupt, pos: next, resyncing },
        Physical::Record { tag, payload, start, next } => {
            if !(pos <= start < next <= log.len()) {
                Step { outcome: Outcome::Corrupt, pos: next, resyncing }
            } else if start < initial_offset {
                read_at(log, next, resyncing, checksum, initial_offset, partial)
            } else if resyncing && (tag == MIDDLE || tag == LAST) {
                read_at(log, next, true, checksum, initial_offset, partial)
            } else if tag == FULL {
                Step {
                    outcome: if partial is Some {
                        Outcome::Corrupt
                    } else {
                        Outcome::Record(payload)
                    },
                    pos: next,
                    resyncing: false,
                }
            } else if tag == FIRST {
                if partial is Some {
                    Step { outcome: Outcome::Corrupt, pos: next, resyncing: false }
                } else {
                    read_at(log, next, false, checksum, initial_offset, Some(payload))
                }
            } else if tag == MIDDLE {
                match partial {
                    Some(p) => read_at(log, next, false, checksum, initial_offset, Some(p + payload)),
                    None => Step { outcome: Outcome::Corrupt, pos: next, resyncing: false },
                }
            } else if tag == LAST {
                Step {
                    outcome: match partial {
                        Some(p) => Outcome::Record(p + payload),
                        None => Outcome::Corrupt,
                    },
                    pos: next,
                    resyncing: false,
                }
            } else {
                Step { outcome: Outcome::Corrupt, pos: next, resyncing: false }
            }
        },
    }
}

/// The offset of the block in which reading starts, for a reader that is
/// to skip everything before `initial_offset`: the block that holds that
/// offset, or the next one where the offset lies in the last six bytes of
/// its block, which can hold no header.
pub open spec fn initial_block_start(initial_offset: nat) -> nat {
    let in_block = initial_offset % (BLOCK_SIZE as nat);
    let start = (initial_offset - in_block) as nat;
    if in_block > BLOCK_SIZE - 6 {
        start + BLOCK_SIZE as nat
    } else {
        start
    }
}


/// What `read_physical_record` found.
enum Fragment {
    /// A record that passed every check: its tag, where its payload lies in
    /// the buffer, and the offset of its header in the log.
    Data { tag: u8, start: usize, len: usize, offset: u64 },
    /// The log has ended.
    Eof,
    /// A record failed a check and was dropped with the rest of its block.
    Bad,
}

/// Reads logical records from a log file.
pub struct Reader<F: SequentialFile> {
    file: F,
    checksum: bool,
    /// One block; the bytes from `buffer_pos` up to `buffer_len` are unread.
    buffer: Vec<u8>,
    buffer_pos: usize,
    buffer_len: usize,
    /// Whether the last read returned less than a block.
    eof: bool,
    /// The log offset just behind the bytes that the buffer holds.
    end_of_buffer_offset: u64,
    initial_offset: u64,
    resyncing: bool,
    /// Whether the reader has moved to the block of `initial_offset`.
    started: bool,
    log: Ghost<Seq<u8>>,
    intact: Ghost<bool>,
}

impl<F: SequentialFile> Reader<F> {
    /// The whole log, from its first byte.
    pub closed spec fn log(&self) -> Seq<u8> {
        self.log@
    }

    /// The log offset of the next byte to be looked at.
    pub closed spec fn position(&self) -> nat {
        if self.started {
            (self.end_of_buffer_offset - (self.buffer_len - self.buffer_pos)) as nat
        } else {
            initial_block_start(self.initial_offset as nat)
        }
    }

    /// Whether fragments are being dropped until a record starts.
    pub closed spec fn resyncing(&self) -> bool {
        self.resyncing
    }

    /// Whether checksums are verified.
    pub closed spec fn checksum(&self) -> bool {
        self.checksum
    }

    /// The offset before which no record is handed out.
    pub closed spec fn initial_offset(&self) -> nat {
        self.initial_offset as nat
    }

    /// Whether the file has answered every call so far.
    pub closed spec fn intact(&self) -> bool {
        self.intact@
    }

    /// Whether the file read from never fails.
    pub closed spec fn infallible(&self) -> bool {
        self.file.infallible()
    }

    /// The invariant of a reader: its buffer holds the part of the log just
    /// before the file's position, and starts on a block boundary.
    pub closed spec fn wf(&self) -> bool {
        let base = self.end_of_buffer_offset - self.buffer_len;
        &&& self.buffer@.len() == BLOCK_SIZE
        &&& self.buffer_pos <= self.buffer_len <= BLOCK_SIZE
        &&& self.buffer_len <= self.end_of_buffer_offset
        &&& self.log@.len() <= u64::MAX
        &&& self.initial_offset + BLOCK_SIZE <= u64::MAX
        &&& !self.intact@ ==> self.eof
        &&& !self.started ==> {
            &&& self.intact@
            &&& !self.eof
            &&& self.end_of_buffer_offset == 0
            &&& self.buffer_len == 0
        }
        &&& self.intact@ ==> {
            &&& base % (BLOCK_SIZE as int) == 0
            &&& self.buffer_len > 0 ==> {
                &&& self.end_of_buffer_offset <= self.log@.len()
                &&& self.buffer@.take(self.buffer_len as int) == self.log@.subrange(
                    base,
                    self.end_of_buffer_offset as int,
                )
            }
            &&& self.file.remaining() == if self.end_of_buffer_offset <= self.log@.len() {
                self.log@.skip(self.end_of_buffer_offset as int)
            } else {
                Seq::empty()
            }
            &&& self.eof ==> self.buffer_len < BLOCK_SIZE && self.end_of_buffer_offset
                >= self.log@.len()
            &&& !self.eof ==> self.buffer_len == 0 || self.buffer_len == BLOCK_SIZE
        }
    }

    /// Zero once the file has ended, one before.
    closed spec fn rank(&self) -> nat {
        if self.eof {
            0
        } else {
            1
        }
    }

    /// How many bytes the buffer still holds.
    closed spec fn buffered(&self) -> nat {
        (self.buffer_len - self.buffer_pos) as nat
    }

    /// A bound on what is left to read: it falls with every record that
    /// is read.
    pub closed spec fn budget(&self) -> nat {
        (if self.eof {
            0nat
        } else {
            (BLOCK_SIZE + 1) as nat
        }) + self.file.remaining().len() + self.buffered()
    }

    /// Whether `self` is nearer to the end of the log than `before`.
    closed spec fn nearer_than(&self, before: &Self) -> bool {
        ||| self.rank() < before.rank()
        ||| self.rank() == before.rank() && self.file.remaining().len()
            < before.file.remaining().len()
        ||| self.rank() == before.rank() && self.file.remaining().len()
            == before.file.remaining().len() && self.buffered() < before.buffered()
    }

    /// Whether `self` reads the same log in the same way as `before`.
    closed spec fn same_log(&self, before: &Self) -> bool {
        &&& self.log@ == before.log@
        &&& self.checksum == before.checksum
        &&& self.initial_offset == before.initial_offset
        &&& self.file.infallible() == before.file.infallible()
    }

    /// A reader of `file`, which is at its first byte. No record that
    /// starts before `initial_offset` will be handed out.
    pub fn new(file: F, checksum: bool, initial_offset: u64) -> (reader: Self)
        requires
            file.remaining().len() <= u64::MAX,
            initial_offset + BLOCK_SIZE <= u64::MAX,
        ensures
            reader.wf(),
            reader.intact(),
            reader.log() == file.remaining(),
            reader.infallible() == file.infallible(),
            reader.checksum() == checksum,
            reader.initial_offset() == initial_offset,
            reader.position() == initial_block_start(initial_offset as nat),
            reader.resyncing() == (initial_offset > 0),
    {
        let ghost log = file.remaining();
        let reader = Reader {
            file,
            checksum,
            buffer: vec![0u8; BLOCK_SIZE],
            buffer_pos: 0,
            buffer_len: 0,
            eof: false,
            end_of_buffer_offset: 0,
            initial_offset,
            resyncing: initial_offset > 0,
            started: false,
            log: Ghost(log),
            intact: Ghost(true),
        };
        assert(log.skip(0) =~= log);
        reader
    }

    /// Moves the file to the block in which reading is to start.
    fn skip_to_initial_block(&mut self) -> (r: Result<(), Error>)
        requires
            old(self).wf(),
            !old(self).started,
        ensures
            final(self).wf(),
            final(self).started,
            final(self).same_log(old(self)),
            final(self).resyncing == old(self).resyncing,
            final(self).position() == old(self).position(),
            final(self).intact() <==> r is Ok,
            old(self).infallible() ==> r is Ok,
            r is Ok ==> final(self).budget() <= old(self).budget(),
    {
        let block: u64 = BLOCK_SIZE as u64;
        let offset_in_block: u64 = self.initial_offset % block;
        let mut block_start: u64 = self.initial_offset - offset_in_block;
        if offset_in_block > block - 6 {
            block_start += block;
        }
        assert(block_start % 32768 == 0);
        self.end_of_buffer_offset = block_start;
        self.started = true;
        if block_start > 0 {
            match self.file.skip(block_start) {
                Ok(()) => {
                    assert(self.log@.skip(0) =~= self.log@);
                },
                Err(e) => {
                    self.eof = true;
                    self.intact = Ghost(false);
                    return Err(e);
                },
            }
        } else {
            assert(self.log@.skip(0) =~= self.log@);
        }
        Ok(())
    }

    /// Loads the next block into the buffer; what the buffer still held is
    /// dropped.
    fn fill_buffer(&mut self) -> (r: Result<(), Error>)
        requires
            old(self).wf(),
            old(self).started,
            !old(self).eof,
            old(self).buffered() < HEADER_SIZE,
        ensures
            final(self).wf(),
            final(self).started,
            final(self).same_log(old(self)),
            final(self).resyncing == old(self).resyncing,
            final(self).intact() <==> r is Ok,
            old(self).infallible() ==> r is Ok,
            r is Ok ==> {
                ||| final(self).rank() < old(self).rank()
                ||| final(self).rank() == old(self).rank() && final(self).file.remaining().len()
                    < old(self).file.remaining().len()
            },
            r is Ok ==> final(self).position() == old(self).end_of_buffer_offset,
            r is Ok ==> final(self).buffer_pos == 0,
            r is Ok ==> final(self).budget() <= old(self).budget(),
    {
        let ghost base = self.end_of_buffer_offset as int;
        let ghost left = self.file.remaining();
        match self.file.read(self.buffer.as_mut_slice()) {
            Ok(n) => {
                self.buffer_pos = 0;
                self.buffer_len = n;
                self.end_of_buffer_offset = self.end_of_buffer_offset + n as u64;
                if n < BLOCK_SIZE {
                    self.eof = true;
                }
                proof {
                    if n > 0 {
                        assert(left.take(n as int) =~= self.log@.subrange(base, base + n));
                        assert(left.skip(n as int) =~= self.log@.skip(base + n));
                    } else {
                        assert(left.skip(0) =~= left);
                    }
                }
                Ok(())
            },
            Err(e) => {
                self.buffer_pos = 0;
                self.buffer_len = 0;
                self.eof = true;
                self.intact = Ghost(false);
                Err(e)
            },
        }
    }

    /// Looks for the next physical record and checks it.
    #[verifier::rlimit(30)]
    fn read_physical_record(&mut self) -> (r: Result<Fragment, Error>)
        requires
            old(self).wf(),
            old(self).started,
        ensures
            final(self).wf(),
            final(self).started,
            final(self).same_log(old(self)),
            final(self).resyncing == old(self).resyncing,
            old(self).intact() && old(self).infallible() ==> final(self).intact(),
            old(self).intact() && !final(self).intact() ==> r is Err,
            final(self).intact() ==> old(self).intact(),
            r is Err ==> !final(self).intact(),
            r is Ok ==> final(self).budget() <= old(self).budget(),
            match r {
                Ok(Fragment::Data { tag, start, len, offset }) => {
                    &&& final(self).nearer_than(old(self))
                    &&& final(self).budget() < old(self).budget()
                    &&& start + len <= final(self).buffer_len
                    &&& final(self).intact() ==> physical_at(
                        old(self).log@,
                        old(self).position(),
                        old(self).checksum,
                    ) == (Physical::Record {
                        tag,
                        payload: final(self).buffer@.subrange(start as int, start + len),
                        start: offset as nat,
                        next: final(self).position(),
                    })
                },
                Ok(Fragment::Eof) => {
                    &&& final(self).eof
                    &&& final(self).buffered() == 0
                    &&& final(self).intact() ==> {
                        &&& physical_at(old(self).log@, old(self).position(), old(self).checksum)
                            is End
                        &&& final(self).position() == if old(self).position() < old(self).log@.len() {
                            old(self).log@.len()
                        } else {
                            old(self).position()
                        }
                    }
                },
                Ok(Fragment::Bad) => {
                    &&& final(self).intact() ==> physical_at(
                        old(self).log@,
                        old(self).position(),
                        old(self).checksum,
                    ) == (Physical::Bad { next: final(self).position() })
                },
                Err(_) => true,
            },
    {
        while self.buffer_len - self.buffer_pos < HEADER_SIZE
            invariant
                self.wf(),
                self.started,
                self.same_log(old(self)),
                self.resyncing == old(self).resyncing,
                old(self).intact() <==> self.intact(),
                self.budget() <= old(self).budget(),
                self.rank() <= old(self).rank(),
                self.rank() == old(self).rank() ==> self.file.remaining().len() <= old(
                    self,
                ).file.remaining().len(),
                *self == *old(self) || self.rank() < old(self).rank() || self.file.remaining().len()
                    < old(self).file.remaining().len(),
                self.intact() ==> physical_at(self.log@, self.position(), self.checksum)
                    == physical_at(self.log@, old(self).position(), self.checksum),
                self.intact() ==> self.position() == old(self).position() || old(self).position()
                    < self.position() <= self.log@.len(),
            decreases self.rank(), self.file.remaining().len(),
        {
            let ghost pos = self.position();
            proof {
                lemma_block_end(pos);
                if self.intact@ && self.buffer_pos < self.buffer_len {
                    lemma_block_end_within(
                        (self.end_of_buffer_offset - self.buffer_len) as nat,
                        pos,
                    );
                }
            }
            if self.eof {
                // A header cut short by the end of the file is no error:
                // the writer died while writing it.
                self.buffer_pos = self.buffer_len;
                return Ok(Fragment::Eof);
            }
            match self.fill_buffer() {
                Ok(()) => {},
                Err(e) => {
                    return Err(e);
                },
            }
        }
        Ok(self.check_record())
    }

    /// Checks the record whose header lies at the front of the buffer.
    #[verifier::rlimit(30)]
    fn check_record(&mut self) -> (r: Fragment)
        requires
            old(self).wf(),
            old(self).started,
            old(self).buffered() >= HEADER_SIZE,
        ensures
            final(self).wf(),
            final(self).started,
            final(self).same_log(old(self)),
            final(self).resyncing == old(self).resyncing,
            final(self).intact() == old(self).intact(),
            final(self).rank() == old(self).rank(),
            final(self).file.remaining() == old(self).file.remaining(),
            final(self).buffered() < old(self).buffered(),
            final(self).budget() < old(self).budget(),
            match r {
                Fragment::Data { tag, start, len, offset } => {
                    &&& start + len <= final(self).buffer_len
                    &&& final(self).intact() ==> physical_at(
                        old(self).log@,
                        old(self).position(),
                        old(self).checksum,
                    ) == (Physical::Record {
                        tag,
                        payload: final(self).buffer@.subrange(start as int, start + len),
                        start: offset as nat,
                        next: final(self).position(),
                    })
                },
                Fragment::Eof => {
                    &&& final(self).eof
                    &&& final(self).buffered() == 0
                    &&& final(self).intact() ==> {
                        &&& physical_at(old(self).log@, old(self).position(), old(self).checksum)
                            is End
                        &&& old(self).position() < old(self).log@.len()
                        &&& final(self).position() == old(self).log@.len()
                    }
                },
                Fragment::Bad => {
                    &&& final(self).intact() ==> physical_at(
                        old(self).log@,
                        old(self).position(),
                        old(self).checksum,
                    ) == (Physical::Bad { next: final(self).position() })
                },
            },
    {
        let ghost pos = self.position() as int;
        let ghost base = (self.end_of_buffer_offset - self.buffer_len) as nat;
        let p = self.buffer_pos;
        let left = self.buffer_len - p;
        let offset: u64 = self.end_of_buffer_offset - left as u64;
        let length: usize = (self.buffer[p + 4] as usize) + 256 * (self.buffer[p + 5] as usize);
        let tag: u8 = self.buffer[p + 6];
        proof {
            if self.intact@ {
                lemma_block_end_within(base, pos as nat);
                let shown = self.buffer@.take(self.buffer_len as int);
                assert(pos == base + p);
                assert forall|j: int| p <= j < self.buffer_len implies #[trigger] self.buffer@[j]
                    == self.log@[base + j] by {
                    assert(shown[j] == self.buffer@[j]);
                }
                assert(self.buffer@[p + 4] == self.log@[pos + 4]);
                assert(self.buffer@[p + 5] == self.log@[pos + 5]);
                assert(self.buffer@[p + 6] == self.log@[pos + 6]);
            }
        }
        if HEADER_SIZE + length > left {
            self.buffer_pos = self.buffer_len;
            if !self.eof {
                return Fragment::Bad;
            }
            // The file ends inside the payload: the writer died while
            // writing it.
            return Fragment::Eof;
        }
        if tag == ZERO && length == 0 {
            self.buffer_pos = self.buffer_len;
            return Fragment::Bad;
        }
        if self.checksum {
            let stored = decode_fix32(vstd::slice::slice_subrange(self.buffer.as_slice(), p, p + 4));
            let expected = crc::unmask(stored);
            let actual = crc::value(
                vstd::slice::slice_subrange(self.buffer.as_slice(), p + 6, p + HEADER_SIZE + length),
            );
            proof {
                if self.intact@ {
                    let head = self.buffer@.subrange(p as int, p + 4);
                    let there = self.log@.skip(pos);
                    assert(head[0] == there[0] && head[1] == there[1] && head[2] == there[2]
                        && head[3] == there[3]) by {
                        assert(self.buffer@[p + 0] == self.log@[pos + 0]);
                        assert(self.buffer@[p + 1] == self.log@[pos + 1]);
                        assert(self.buffer@[p + 2] == self.log@[pos + 2]);
                        assert(self.buffer@[p + 3] == self.log@[pos + 3]);
                    }
                    assert(self.buffer@.subrange(p + 6, p + HEADER_SIZE + length)
                        =~= self.log@.subrange(
                        pos + 6,
                        pos + HEADER_SIZE as int + length as int,
                    ));
                }
            }
            if actual != expected {
                // The length itself may be wrong, so the rest of the block
                // is not trusted either.
                self.buffer_pos = self.buffer_len;
                return Fragment::Bad;
            }
        }
        self.buffer_pos = p + HEADER_SIZE + length;
        proof {
            if self.intact@ {
                assert(self.buffer@.subrange(p + HEADER_SIZE, p + HEADER_SIZE + length)
                    =~= self.log@.subrange(
                    pos + HEADER_SIZE as int,
                    pos + HEADER_SIZE as int + length as int,
                ));
            }
        }
        Fragment::Data { tag, start: p + HEADER_SIZE, len: length, offset }
    }

    /// Reads the next logical record into `scratch`. Returns `Ok(true)`
    /// with the record in `scratch`, `Ok(false)` where the log has ended,
    /// and `Corruption` where a record failed a check or a fragment came
    /// out of order; an error of the file is handed on. But for a record,
    /// `scratch` is left empty.
    #[verifier::rlimit(30)]
    pub fn read_record(&mut self, scratch: &mut Vec<u8>) -> (r: Result<bool, Error>)
        requires
            old(self).wf(),
        ensures
            final(self).wf(),
            final(self).log() == old(self).log(),
            final(self).checksum() == old(self).checksum(),
            final(self).initial_offset() == old(self).initial_offset(),
            final(self).infallible() == old(self).infallible(),
            old(self).intact() && old(self).infallible() ==> final(self).intact(),
            old(self).intact() && !final(self).intact() ==> r is Err,
            !(r matches Ok(true)) ==> final(scratch)@.len() == 0,
            r matches Ok(true) ==> final(self).budget() < old(self).budget(),
            final(self).intact() ==> ({
                let step = read_at(
                    old(self).log(),
                    old(self).position(),
                    old(self).resyncing(),
                    old(self).checksum(),
                    old(self).initial_offset(),
                    None,
                );
                &&& final(self).position() == step.pos
                &&& final(self).resyncing() == step.resyncing
                &&& match step.outcome {
                    Outcome::Record(payload) => r == Ok::<bool, Error>(true) && final(scratch)@
                        == payload,
                    Outcome::End => r == Ok::<bool, Error>(false),
                    Outcome::Corrupt => r == Err::<bool, Error>(Error::Corruption),
                }
            }),
    {
        scratch.clear();
        if !self.started {
            match self.skip_to_initial_block() {
                Ok(()) => {},
                Err(e) => {
                    return Err(e);
                },
            }
        }
        let mut in_fragmented_record = false;
        let ghost mut any = false;
        let ghost goal = read_at(
            old(self).log(),
            old(self).position(),
            old(self).resyncing(),
            old(self).checksum(),
            old(self).initial_offset(),
            None,
        );
        loop
            invariant
                self.wf(),
                self.started,
                self.same_log(old(self)),
                old(self).intact() <==> self.intact(),
                self.budget() <= old(self).budget(),
                any ==> self.budget() < old(self).budget(),
                in_fragmented_record ==> any,
                !in_fragmented_record ==> scratch@.len() == 0,
                goal == read_at(
                    old(self).log(),
                    old(self).position(),
                    old(self).resyncing(),
                    old(self).checksum(),
                    old(self).initial_offset(),
                    None,
                ),
                self.intact() ==> goal == read_at(
                    self.log@,
                    self.position(),
                    self.resyncing,
                    self.checksum,
                    self.initial_offset as nat,
                    if in_fragmented_record {
                        Some(scratch@)
                    } else {
                        None
                    },
                ),
            decreases self.rank(), self.file.remaining().len(), self.buffered(),
        {
            let ghost pos = self.position();
            let ghost partial = if in_fragmented_record {
                Some(scratch@)
            } else {
                None
            };
            let ghost was_resyncing = self.resyncing;
            proof {
                lemma_physical_bounds(self.log@, pos, self.checksum);
            }
            let fragment = match self.read_physical_record() {
                Ok(fragment) => fragment,
                Err(e) => {
                    scratch.clear();
                    return Err(e);
                },
            };
            match fragment {
                Fragment::Eof => {
                    // The writer may have died after a first fragment:
                    // what was gathered is no record and no error.
                    scratch.clear();
                    return Ok(false);
                },
                Fragment::Bad => {
                    scratch.clear();
                    return Err(Error::Corruption);
                },
                Fragment::Data { tag, start, len, offset } => {
                    proof {
                        any = true;
                    }
                    if offset < self.initial_offset {
                        continue ;
                    }
                    if self.resyncing && (tag == MIDDLE || tag == LAST) {
                        continue ;
                    }
                    self.resyncing = false;
                    let payload = vstd::slice::slice_subrange(
                        self.buffer.as_slice(),
                        start,
                        start + len,
                    );
                    let ghost gathered = scratch@;
                    if tag == FULL {
                        if in_fragmented_record {
                            scratch.clear();
                            return Err(Error::Corruption);
                        }
                        scratch.extend_from_slice(payload);
                        assert(scratch@ =~= payload@);
                        return Ok(true);
                    } else if tag == FIRST {
                        if in_fragmented_record {
                            scratch.clear();
                            return Err(Error::Corruption);
                        }
                        scratch.extend_from_slice(payload);
                        assert(scratch@ =~= payload@);
                        in_fragmented_record = true;
                    } else if tag == MIDDLE {
                        if !in_fragmented_record {
                            scratch.clear();
                            return Err(Error::Corruption);
                        }
                        scratch.extend_from_slice(payload);
                        assert(scratch@ =~= gathered + payload@);
                    } else if tag == LAST {
                        if !in_fragmented_record {
                            scratch.clear();
                            return Err(Error::Corruption);
                        }
                        scratch.extend_from_slice(payload);
                        assert(scratch@ =~= gathered + payload@);
                        return Ok(true);
                    } else {
                        scratch.clear();
                        return Err(Error::Corruption);
                    }
                },
            }
        }
    }
}


/// Whether reading `log` from `pos` on, record by record, yields exactly
/// the records `expected` and then the end of the log.
pub open spec fn reads_yield(
    log: Seq<u8>,
    pos: nat,
    checksum: bool,
    expected: Seq<Seq<u8>>,
) -> bool
    decreases expected.len(),
{
    let step = read_at(log, pos, false, checksum, 0, None);
    if expected.len() == 0 {
        step.outcome == Outcome::End
    } else {
        &&& step.outcome == Outcome::Record(expected[0])
        &&& !step.resyncing
        &&& reads_yield(log, step.pos, checksum, expected.skip(1))
    }
}

/// A record that the writer put at `pos`, within one block, is the record
/// that the reader finds there.
#[verifier::rlimit(30)]
proof fn lemma_record_at(
    log: Seq<u8>,
    pos: nat,
    kind: RecordType,
    payload: Seq<u8>,
    checksum: bool,
)
    requires
        kind != RecordType::Zero,
        pos % (BLOCK_SIZE as nat) + HEADER_SIZE + payload.len() <= BLOCK_SIZE,
        pos + HEADER_SIZE + payload.len() <= log.len(),
        log.subrange(pos as int, pos + HEADER_SIZE + payload.len()) == record_bytes(kind, payload),
    ensures
        physical_at(log, pos, checksum) == (Physical::Record {
            tag: kind.tag(),
            payload,
            start: pos,
            next: (pos + HEADER_SIZE + payload.len()) as nat,
        }),
{
    reveal(record_bytes);
    let len = payload.len() as int;
    let at = pos as int;
    let record = record_bytes(kind, payload);
    let piece = log.subrange(at, at + 7 + len);
    let sum = crc_extend(crc_value(seq![kind.tag()]), payload);
    let stored = fixed32_bytes(mask_spec(sum));
    assert forall|k: int| 0 <= k < 7 + len implies #[trigger] log[at + k] == record[k] by {
        assert(piece[k] == log[at + k]);
    }
    assert(log[at + 4] == record[4] && log[at + 5] == record[5] && log[at + 6] == record[6]);
    assert(header_length(log, pos) == len);
    lemma_block_end(pos);
    assert(pos == (pos / 32768) * 32768 + pos % 32768);
    assert(block_end(pos) >= at + 7 + len);
    assert(checksum_matches(log, pos)) by {
        let there = log.skip(at);
        assert(there[0] == log[at + 0] && there[1] == log[at + 1] && there[2] == log[at + 2]
            && there[3] == log[at + 3]);
        assert(record[0] == stored[0] && record[1] == stored[1] && record[2] == stored[2]
            && record[3] == stored[3]);
        lemma_fixed32_round_trip(mask_spec(sum), Seq::empty());
        assert(stored + Seq::<u8>::empty() =~= stored);
        assert(fixed32_value(there) == mask_spec(sum));
        mask_involution(sum);
        crc_extend_law(seq![kind.tag()], payload);
        let covered = log.subrange(at + 6, at + 7 + len);
        assert(covered.len() == 1 + len);
        assert forall|k: int| 0 <= k < 1 + len implies covered[k] == (seq![kind.tag()]
            + payload)[k] by {
            assert(covered[k] == log[at + (6 + k)]);
            assert(record[6 + k] == (seq![kind.tag()] + payload)[k]);
        }
        assert(covered =~= seq![kind.tag()] + payload);
    }
    assert(log.subrange(at + 7, at + 7 + len) =~= payload) by {
        assert forall|k: int| 0 <= k < len implies log.subrange(at + 7, at + 7 + len)[k]
            == payload[k] by {
            assert(log[at + (7 + k)] == record[7 + k]);
        }
    }
}

/// Where the first fragment of what the writer made of `rest` lies, and
/// how it reads.
#[verifier::rlimit(30)]
proof fn lemma_first_fragment(
    log: Seq<u8>,
    pos: nat,
    off: nat,
    rest: Seq<u8>,
    begin: bool,
    checksum: bool,
)
    requires
        off <= BLOCK_SIZE,
        pos % (BLOCK_SIZE as nat) == off % (BLOCK_SIZE as nat),
        pos + log_bytes(off, rest, begin).len() <= log.len(),
        log.subrange(pos as int, pos as int + log_bytes(off, rest, begin).len() as int)
            == log_bytes(off, rest, begin),
    ensures
        ({
            let n = fragment_len(off, rest.len());
            let end = n == rest.len();
            let kind = RecordType::of_fragment(begin, end);
            let at = (pos + padding(off).len()) as nat;
            let next = (at + HEADER_SIZE + n) as nat;
            let next_off = (fragment_start(off) + HEADER_SIZE + n) as nat;
            &&& physical_at(log, pos, checksum) == (Physical::Record {
                tag: kind.tag(),
                payload: rest.take(n as int),
                start: at,
                next,
            })
            &&& pos <= at < next <= log.len()
            &&& next_off <= BLOCK_SIZE
            &&& next % (BLOCK_SIZE as nat) == next_off % (BLOCK_SIZE as nat)
            &&& end ==> next == pos + log_bytes(off, rest, begin).len()
            &&& !end ==> {
                let tail = log_bytes(next_off, rest.skip(n as int), false);
                &&& next + tail.len() == pos + log_bytes(off, rest, begin).len()
                &&& log.subrange(next as int, next as int + tail.len() as int) == tail
            }
        }),
{
    lemma_log_bytes_unfold(off, rest, begin);
    let n = fragment_len(off, rest.len());
    let end = n == rest.len();
    let kind = RecordType::of_fragment(begin, end);
    let payload = rest.take(n as int);
    let record = record_bytes(kind, payload);
    crate::log_writer::lemma_record_bytes_len(kind, payload);
    let pad = padding(off);
    let next_off = (fragment_start(off) + HEADER_SIZE + n) as nat;
    let tail = if end {
        Seq::<u8>::empty()
    } else {
        log_bytes(next_off, rest.skip(n as int), false)
    };
    let all = log_bytes(off, rest, begin);
    assert(all == pad + record + tail);
    let at = (pos + pad.len()) as nat;
    let next = (at + HEADER_SIZE + n) as nat;
    let piece = log.subrange(pos as int, pos as int + all.len() as int);
    assert(log.subrange(at as int, at as int + record.len() as int) =~= record) by {
        assert forall|k: int| 0 <= k < record.len() implies log[at + k] == record[k] by {
            assert(piece[pad.len() + k] == log[pos + (pad.len() + k)]);
            assert(all[pad.len() + k] == record[k]);
        }
    }
    let q = pos / 32768;
    assert(pos == q * 32768 + pos % 32768);
    if pad.len() > 0 {
        assert(at == (q + 1) * 32768);
        assert(((q + 1) * 32768) % 32768 == 0) by (nonlinear_arith);
        lemma_block_end(pos);
        assert(block_end(pos) == at);
    }
    assert(at % 32768 == fragment_start(off));
    lemma_record_at(log, at, kind, payload, checksum);
    let qa = at / 32768;
    assert(at == qa * 32768 + at % 32768);
    if next_off == 32768 {
        assert(next == (qa + 1) * 32768);
        assert(((qa + 1) * 32768) % 32768 == 0) by (nonlinear_arith);
    } else {
        assert(next == qa * 32768 + next_off);
        assert((qa * 32768 + next_off) % 32768 == next_off) by (nonlinear_arith)
            requires
                0 <= next_off < 32768,
                0 <= qa,
        ;
    }
    if !end {
        assert(log.subrange(next as int, next as int + tail.len() as int) =~= tail) by {
            assert forall|k: int| 0 <= k < tail.len() implies log[next + k] == tail[k] by {
                assert(piece[pad.len() + record.len() + k] == log[pos + (pad.len() + record.len()
                    + k)]);
                assert(all[pad.len() + record.len() + k] == tail[k]);
            }
        }
    }
}

/// What the writer made of a payload, or of the rest of one, the reader
/// makes into the payload again.
proof fn lemma_read_fragments(
    log: Seq<u8>,
    pos: nat,
    off: nat,
    rest: Seq<u8>,
    begin: bool,
    gathered: Seq<u8>,
    checksum: bool,
)
    requires
        off <= BLOCK_SIZE,
        pos % (BLOCK_SIZE as nat) == off % (BLOCK_SIZE as nat),
        pos + log_bytes(off, rest, begin).len() <= log.len(),
        log.subrange(pos as int, pos as int + log_bytes(off, rest, begin).len() as int)
            == log_bytes(off, rest, begin),
    ensures
        read_at(
            log,
            pos,
            false,
            checksum,
            0,
            if begin {
                None
            } else {
                Some(gathered)
            },
        ) == (Step {
            outcome: Outcome::Record(
                if begin {
                    rest
                } else {
                    gathered + rest
                },
            ),
            pos: pos + log_bytes(off, rest, begin).len(),
            resyncing: false,
        }),
        log_end_offset(off, rest) <= BLOCK_SIZE,
        (pos + log_bytes(off, rest, begin).len()) % (BLOCK_SIZE as nat) == log_end_offset(off, rest)
            % (BLOCK_SIZE as nat),
    decreases rest.len(), (if fragment_start(off) + HEADER_SIZE == BLOCK_SIZE {
        1nat
    } else {
        0nat
    }),
{
    lemma_log_bytes_unfold(off, rest, begin);
    lemma_first_fragment(log, pos, off, rest, begin, checksum);
    let n = fragment_len(off, rest.len());
    let end = n == rest.len();
    let payload = rest.take(n as int);
    let next_off = (fragment_start(off) + HEADER_SIZE + n) as nat;
    let next = (pos + padding(off).len() + HEADER_SIZE + n) as nat;
    if !end {
        let later = rest.skip(n as int);
        let so_far = if begin {
            payload
        } else {
            gathered + payload
        };
        lemma_read_fragments(log, next, next_off, later, false, so_far, checksum);
        assert(payload + later =~= rest);
        assert(so_far + later =~= if begin {
            rest
        } else {
            gathered + rest
        });
    } else {
        assert(payload =~= rest);
    }
}

/// A log that holds nothing behind `pos` ends there.
proof fn lemma_read_end(log: Seq<u8>, pos: nat, checksum: bool)
    requires
        pos == log.len(),
    ensures
        read_at(log, pos, false, checksum, 0, None).outcome == Outcome::End,
{
    lemma_block_end(pos);
}

proof fn lemma_reads_yield(
    log: Seq<u8>,
    pos: nat,
    off: nat,
    payloads: Seq<Seq<u8>>,
    checksum: bool,
)
    requires
        off <= BLOCK_SIZE,
        pos % (BLOCK_SIZE as nat) == off % (BLOCK_SIZE as nat),
        pos <= log.len(),
        log.skip(pos as int) == log_of(off, payloads),
    ensures
        reads_yield(log, pos, checksum, payloads),
    decreases payloads.len(),
{
    if payloads.len() == 0 {
        assert(log.skip(pos as int).len() == 0);
        lemma_read_end(log, pos, checksum);
    } else {
        let first = log_bytes(off, payloads[0], true);
        let others = log_of(log_end_offset(off, payloads[0]), payloads.skip(1));
        let behind = log.skip(pos as int);
        assert(behind == first + others);
        assert(log.subrange(pos as int, pos as int + first.len() as int) =~= first) by {
            assert forall|k: int| 0 <= k < first.len() implies log[pos + k] == first[k] by {
                assert(behind[k] == log[pos + k]);
            }
        }
        lemma_read_fragments(log, pos, off, payloads[0], true, Seq::empty(), checksum);
        let next = (pos + first.len()) as nat;
        assert(log.skip(next as int) =~= others) by {
            assert forall|k: int| 0 <= k < others.len() implies log[next + k] == others[k] by {
                assert(behind[first.len() + k] == log[pos + (first.len() + k)]);
            }
        }
        lemma_reads_yield(log, next, log_end_offset(off, payloads[0]), payloads.skip(1), checksum);
    }
}

/// Records that are written to a fresh log one after another are read back
/// in the same order, each with the bytes it was written with, and after
/// the last of them the log ends.
pub proof fn wal_round_trip(payloads: Seq<Seq<u8>>, checksum: bool)
    ensures
        reads_yield(log_of(0, payloads), 0, checksum, payloads),
{
    let log = log_of(0, payloads);
    assert(log.skip(0) =~= log);
    lemma_reads_yield(log, 0, 0, payloads, checksum);
}

} // verus!
