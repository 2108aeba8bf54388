//! The write path of the database: writers queue up, the writer at the
//! front commits a group of them with one record in the log and one pass
//! over the memtable, and reads see the memtable as of the last sequence
//! number that was published.

use vstd::prelude::*;
use std::collections::VecDeque;
use crate::comparator::Comparator;
use crate::dbformat::{InternalKeyComparator, LookupKey, ValueType, MAX_SEQUENCE_NUMBER};
use crate::env::WritableFile;
use crate::error::Error;
use crate::log_writer;
use crate::log_writer::{log_bytes, log_end_offset};
use crate::memtable::{added, lookup, Entry, MemTable};
use crate::options::{Options, ReadOptions, WriteOptions};
use crate::slice::Slice;
use crate::version_set::VersionSet;
use crate::write_batch::{
    appended, batch_append_law, byte_size, count_of, fits, insert_into, lemma_header_sequence,
    ops_of, records_ok, replay, sequence_of, sound, with_sequence, BatchOp, Handler, WriteBatch,
    HEADER,
};

verus! {

/// A group does not grow beyond this many bytes.
pub const MAX_GROUP_SIZE: usize = 1048576;

/// A group whose first batch is no larger than this grows by no more than
/// this, so that a small write does not wait for a large one.
pub const SMALL_WRITE_SIZE: usize = 131072;

/// Whether the memtable can hold the operation under any sequence number.
pub open spec fn admissible_op(op: BatchOp) -> bool {
    match op {
        BatchOp::Put { key, value } => key.len() + 8 <= u32::MAX && value.len() <= u32::MAX,
        BatchOp::Delete { key } => key.len() + 8 <= u32::MAX,
    }
}

/// Whether the memtable can hold each of `ops`.
pub open spec fn all_admissible(ops: Seq<BatchOp>) -> bool {
    forall|i: int| 0 <= i < ops.len() ==> admissible_op(#[trigger] ops[i])
}

/// Whether the batch `rep` can be committed: it is sound, and the memtable
/// can hold each of its operations.
pub open spec fn admissible(rep: Seq<u8>) -> bool {
    &&& rep.len() >= HEADER
    &&& sound(rep)
    &&& all_admissible(ops_of(rep))
}

/// Checks that the memtable can hold each operation it is told of.
pub struct SizeCheck {
    fits: bool,
    seen: Ghost<Seq<BatchOp>>,
}

impl SizeCheck {
    /// A check that has seen nothing.
    pub fn new() -> (c: Self)
        ensures
            c.ready(),
            c.seen() == Seq::<BatchOp>::empty(),
    {
        SizeCheck { fits: true, seen: Ghost(Seq::empty()) }
    }

    /// Whether the memtable can hold every operation seen.
    pub fn fits(&self) -> (b: bool)
        requires
            self.ready(),
        ensures
            b == all_admissible(self.seen()),
    {
        self.fits
    }
}

impl Handler for SizeCheck {
    closed spec fn seen(&self) -> Seq<BatchOp> {
        self.seen@
    }

    closed spec fn ready(&self) -> bool {
        self.fits == all_admissible(self.seen@)
    }

    fn put(&mut self, key: &Slice, value: &Slice) {
        let ghost op = BatchOp::Put { key: key@, value: value@ };
        let ghost before = self.seen@;
        if key.size() as u64 > 0xffff_ffff - 8 || value.size() as u64 > 0xffff_ffff {
            self.fits = false;
        }
        proof {
            self.seen = Ghost(before.push(op));
            if self.fits {
                assert forall|i: int| 0 <= i < self.seen@.len() implies admissible_op(
                    #[trigger] self.seen@[i],
                ) by {
                    if i < before.len() {
                        assert(self.seen@[i] == before[i]);
                    }
                }
            } else {
                if admissible_op(op) {
                    let bad = choose|i: int| 0 <= i < before.len() && !admissible_op(before[i]);
                    assert(!admissible_op(self.seen@[bad]));
                } else {
                    assert(!admissible_op(self.seen@[before.len() as int]));
                }
            }
        }
    }

    fn delete(&mut self, key: &Slice) {
        let ghost op = BatchOp::Delete { key: key@ };
        let ghost before = self.seen@;
        if key.size() as u64 > 0xffff_ffff - 8 {
            self.fits = false;
        }
        proof {
            self.seen = Ghost(before.push(op));
            if self.fits {
                assert forall|i: int| 0 <= i < self.seen@.len() implies admissible_op(
                    #[trigger] self.seen@[i],
                ) by {
                    if i < before.len() {
                        assert(self.seen@[i] == before[i]);
                    }
                }
            } else {
                if admissible_op(op) {
                    let bad = choose|i: int| 0 <= i < before.len() && !admissible_op(before[i]);
                    assert(!admissible_op(self.seen@[bad]));
                } else {
                    assert(!admissible_op(self.seen@[before.len() as int]));
                }
            }
        }
    }
}

/// Checks whether `batch` can be committed: `Corruption` where it is not
/// sound, `InvalidArgument` where the memtable cannot hold one of its
/// operations.
pub fn check_batch(batch: &WriteBatch) -> (r: Result<(), Error>)
    ensures
        r is Ok <==> admissible(batch@),
        r is Err ==> (r == Err::<(), Error>(Error::Corruption) <==> !(batch@.len() >= HEADER
            && sound(batch@))),
        r is Err ==> r == Err::<(), Error>(Error::Corruption) || r == Err::<(), Error>(
            Error::InvalidArgument,
        ),
{
    if byte_size(batch) < HEADER {
        return Err(Error::Corruption);
    }
    let mut check = SizeCheck::new();
    let r = batch.iterate(&mut check);
    assert(Seq::<BatchOp>::empty() + ops_of(batch@) =~= ops_of(batch@));
    if r.is_err() {
        Err(Error::Corruption)
    } else if !check.fits() {
        Err(Error::InvalidArgument)
    } else {
        Ok(())
    }
}

/// A write that waits in the queue.
pub struct Writer {
    batch: WriteBatch,
    sync: bool,
    done: bool,
}

impl Writer {
    /// The batch to be written.
    pub closed spec fn batch(&self) -> Seq<u8> {
        self.batch@
    }

    /// Whether the write is to be forced to stable storage.
    pub closed spec fn sync(&self) -> bool {
        self.sync
    }

    /// A writer that has not been served yet.
    pub fn new(batch: WriteBatch, sync: bool) -> (w: Self)
        ensures
            w.batch() == batch@,
            w.sync() == sync,
    {
        Writer { batch, sync, done: false }
    }

    /// Returns at once: in this queue a writer is served by the call that
    /// commits its group, and nothing is waited for.
    pub fn wait(&self) {
    }
}


/// A write in the queue, as the rules of the queue see it.
pub struct Queued {
    pub batch: Seq<u8>,
    pub sync: bool,
}

/// The queue that `writers` form.
pub open spec fn queue_of(writers: Seq<Writer>) -> Seq<Queued> {
    Seq::new(writers.len(), |i: int| Queued { batch: writers[i].batch(), sync: writers[i].sync() })
}

/// The count of the operations of all batches in `q`.
pub open spec fn total_ops(q: Seq<Queued>) -> nat
    decreases q.len(),
{
    if q.len() == 0 {
        0
    } else {
        total_ops(q.drop_last()) + count_of(q.last().batch) as nat
    }
}

/// The size up to which a group grows whose first batch has `first`
/// bytes.
pub open spec fn max_group_size(first: nat) -> nat {
    if first <= SMALL_WRITE_SIZE {
        first + SMALL_WRITE_SIZE as nat
    } else {
        MAX_GROUP_SIZE as nat
    }
}

/// How many of the writers from place `i` on join a group that holds
/// `size` bytes: the writers in turn, up to the first that asks for a
/// sync where the first of the queue does not, or whose batch would make
/// the group larger than it may grow.
pub open spec fn joiners(q: Seq<Queued>, i: nat, size: nat) -> nat
    decreases q.len() - i,
{
    if i >= q.len() {
        0
    } else if q[i as int].sync && !q[0].sync {
        0
    } else if size + q[i as int].batch.len() > max_group_size(q[0].batch.len()) {
        0
    } else {
        1 + joiners(q, i + 1, size + q[i as int].batch.len())
    }
}

/// How many writers the next group takes from the front of `q`: the first,
/// and those that join it.
pub open spec fn group_len(q: Seq<Queued>) -> nat {
    if q.len() == 0 {
        0
    } else {
        1 + joiners(q, 1, q[0].batch.len())
    }
}

/// The batch that holds the operations of the first `n` batches of `q`.
pub open spec fn group_batch(q: Seq<Queued>, n: nat) -> Seq<u8>
    decreases n,
{
    if n == 0 {
        Seq::new(HEADER as nat, |i: int| 0u8)
    } else {
        appended(group_batch(q, (n - 1) as nat), q[n - 1].batch)
    }
}

/// The batch that is logged for the next group of `q`, where `last` is
/// the last sequence number: the batch of the group, under the sequence
/// number after the last.
pub open spec fn next_batch(q: Seq<Queued>, last: u64) -> Seq<u8> {
    with_sequence(group_batch(q, group_len(q)), (last + 1) as u64)
}

/// What a database is left with once every writer of the queue was
/// served.
pub struct Drained {
    pub entries: Seq<Entry>,
    pub last_sequence: u64,
    pub log: Seq<u8>,
    pub log_offset: nat,
}

/// What a database with the state `from` is left with once every writer
/// of `q` was served, group by group, by a log that does not fail.
pub open spec fn drained<C: Comparator>(user: &C, from: Drained, q: Seq<Queued>) -> Drained
    decreases q.len(),
{
    let n = group_len(q);
    if q.len() == 0 || !(1 <= n <= q.len()) {
        from
    } else {
        let batch = next_batch(q, from.last_sequence);
        drained(
            user,
            Drained {
                entries: replay(user, from.entries, ops_of(batch), sequence_of(batch)).0,
                last_sequence: (from.last_sequence + count_of(batch)) as u64,
                log: from.log + log_bytes(from.log_offset, batch, true),
                log_offset: log_end_offset(from.log_offset, batch),
            },
            q.skip(n as int),
        )
    }
}

/// The operations of a queue are those of its front and those of its
/// rest.
pub proof fn lemma_total_split(q: Seq<Queued>, n: int)
    requires
        0 <= n <= q.len(),
    ensures
        total_ops(q) == total_ops(q.take(n)) + total_ops(q.skip(n)),
    decreases q.len(),
{
    if n == q.len() {
        assert(q.take(n) =~= q);
        assert(q.skip(n) =~= Seq::<Queued>::empty());
    } else {
        lemma_total_split(q.drop_last(), n);
        assert(q.drop_last().take(n) =~= q.take(n));
        assert(q.skip(n).drop_last() =~= q.drop_last().skip(n));
        assert(q.skip(n).last() == q.last());
    }
}

/// Whether every batch of `q` can be committed.
pub open spec fn all_batches_admissible(q: Seq<Queued>) -> bool {
    forall|i: int| 0 <= i < q.len() ==> admissible((#[trigger] q[i]).batch)
}

/// The batch of a group of batches that can be committed can be
/// committed, and holds as many operations as they do together.
pub proof fn lemma_group(q: Seq<Queued>, n: nat)
    requires
        n <= q.len(),
        all_batches_admissible(q),
        total_ops(q) <= u32::MAX,
    ensures
        admissible(group_batch(q, n)),
        count_of(group_batch(q, n)) == total_ops(q.take(n as int)),
        total_ops(q.take(n as int)) <= total_ops(q),
        sequence_of(group_batch(q, n)) == 0,
    decreases n,
{
    lemma_total_split(q, n as int);
    let g = group_batch(q, n);
    if n == 0 {
        assert(q.take(0) =~= Seq::<Queued>::empty());
        assert(g.skip(HEADER as int) =~= Seq::<u8>::empty());
        assert(g.skip(8)[0] == 0 && g.skip(8)[1] == 0 && g.skip(8)[2] == 0 && g.skip(8)[3] == 0);
        assert(g.skip(4)[0] == 0 && g.skip(4)[1] == 0 && g.skip(4)[2] == 0 && g.skip(4)[3] == 0);
        assert(g[0] == 0 && g[1] == 0 && g[2] == 0 && g[3] == 0);
    } else {
        let before = group_batch(q, (n - 1) as nat);
        let b = q[n - 1].batch;
        lemma_group(q, (n - 1) as nat);
        assert(admissible(b));
        assert(q.take(n as int).drop_last() =~= q.take(n - 1));
        assert(q.take(n as int).last() == q[n - 1]);
        batch_append_law(before, b);
        assert forall|i: int| 0 <= i < ops_of(g).len() implies admissible_op(
            #[trigger] ops_of(g)[i],
        ) by {
            if i < ops_of(before).len() {
                assert(ops_of(g)[i] == ops_of(before)[i]);
            } else {
                assert(ops_of(g)[i] == ops_of(b)[i - ops_of(before).len()]);
            }
        }
    }
}

/// A writer that is alone in the queue forms a group of its own, whose
/// batch holds the writer's operations.
pub proof fn lemma_single(w: Queued, start: u64)
    requires
        admissible(w.batch),
    ensures
        ({
            let q = seq![w];
            let zeros = Seq::new(HEADER as nat, |i: int| 0u8);
            let batch = with_sequence(appended(zeros, w.batch), start);
            &&& group_len(q) == 1
            &&& q.skip(1).len() == 0
            &&& group_batch(q, 1) == appended(zeros, w.batch)
            &&& ops_of(batch) == ops_of(w.batch)
            &&& count_of(batch) == count_of(w.batch)
            &&& sequence_of(batch) == start
        }),
{
    let q = seq![w];
    let zeros = Seq::new(HEADER as nat, |i: int| 0u8);
    reveal_with_fuel(group_batch, 2);
    assert(group_batch(q, 1) == appended(zeros, w.batch));
    assert(zeros.skip(HEADER as int) =~= Seq::<u8>::empty());
    assert(zeros.skip(8)[0] == 0 && zeros.skip(8)[1] == 0 && zeros.skip(8)[2] == 0
        && zeros.skip(8)[3] == 0);
    assert(count_of(zeros) == 0);
    assert(ops_of(zeros) =~= Seq::<BatchOp>::empty());
    assert(records_ok(zeros));
    batch_append_law(zeros, w.batch);
    assert(Seq::<BatchOp>::empty() + ops_of(w.batch) =~= ops_of(w.batch));
    lemma_header_sequence(appended(zeros, w.batch), start);
}

/// Operations that the memtable can hold, under sequence numbers that
/// fit, are all applied.
pub proof fn lemma_replay_all<C: Comparator>(
    user: &C,
    entries: Seq<Entry>,
    ops: Seq<BatchOp>,
    sequence: u64,
)
    requires
        all_admissible(ops),
        sequence + ops.len() <= MAX_SEQUENCE_NUMBER + 1,
        entries.len() + ops.len() <= usize::MAX,
    ensures
        replay(user, entries, ops, sequence).1,
        replay(user, entries, ops, sequence).0.len() == entries.len() + ops.len(),
    decreases ops.len(),
{
    if ops.len() > 0 {
        assert forall|i: int| 0 <= i < ops.drop_last().len() implies admissible_op(
            #[trigger] ops.drop_last()[i],
        ) by {
            assert(ops.drop_last()[i] == ops[i]);
        }
        lemma_replay_all(user, entries, ops.drop_last(), sequence);
        assert(admissible_op(ops[ops.len() - 1]));
        let so_far = replay(user, entries, ops.drop_last(), sequence).0;
        let e = ops.last().entry((sequence + ops.len() - 1) as u64);
        crate::memtable::lemma_first_not_less_bounds(user, so_far, e);
    }
}

/// One operation that is applied adds its entry.
pub proof fn lemma_replay_one<C: Comparator>(
    user: &C,
    entries: Seq<Entry>,
    op: BatchOp,
    sequence: u64,
)
    ensures
        replay(user, entries, seq![op], sequence).1 ==> replay(
            user,
            entries,
            seq![op],
            sequence,
        ).0 == added(user, entries, op.entry(sequence)),
{
    reveal_with_fuel(replay, 2);
    assert(seq![op].drop_last() =~= Seq::<BatchOp>::empty());
}

/// The database: a queue of writers, the log, and the memtable.
pub struct DB<W: WritableFile, C: Comparator> {
    /// The writers that wait, the first to come at the front.
    writers: VecDeque<Writer>,
    /// The count of the operations of the writers that wait.
    queued_ops: u64,
    versions: VersionSet,
    /// The batch into which a group is gathered.
    temp_batch: WriteBatch,
    log: log_writer::Writer<W>,
    mem: MemTable<C>,
    /// The error of the log after which nothing is written any more.
    failed: Option<Error>,
}

impl<W: WritableFile, C: Comparator> DB<W, C> {
    /// The writers that wait, the first to come at the front.
    pub closed spec fn queue(&self) -> Seq<Queued> {
        queue_of(self.writers@)
    }

    /// The sequence number of the last write that was committed.
    pub closed spec fn last_sequence(&self) -> u64 {
        self.versions.spec_last_sequence()
    }

    /// The entries of the memtable.
    pub closed spec fn entries(&self) -> Seq<Entry> {
        self.mem@
    }

    /// The order of the user keys.
    pub closed spec fn user(&self) -> &C {
        self.mem.user()
    }

    /// The bytes of the log.
    pub closed spec fn log_contents(&self) -> Seq<u8> {
        self.log.contents()
    }

    /// How many bytes the current block of the log holds.
    pub closed spec fn log_offset(&self) -> nat {
        self.log.block_offset()
    }

    /// The part of the state that writes change.
    pub open spec fn state(&self) -> Drained {
        Drained {
            entries: self.entries(),
            last_sequence: self.last_sequence(),
            log: self.log_contents(),
            log_offset: self.log_offset(),
        }
    }

    /// How many bytes of the log are known to be on stable storage.
    pub closed spec fn log_synced(&self) -> nat {
        self.log.synced()
    }

    /// Whether `n` operations more can join the queue: the log has not
    /// failed, and with what waits already there are no more operations
    /// than a batch can count, than the sequence numbers have room for, or
    /// than the memtable has room for.
    pub open spec fn has_room(&self, n: nat) -> bool {
        let total = total_ops(self.queue()) + n;
        &&& !self.poisoned()
        &&& total <= u32::MAX
        &&& self.last_sequence() + total <= MAX_SEQUENCE_NUMBER
        &&& self.entries().len() + total < usize::MAX
    }

    /// Whether the log file never fails.
    pub closed spec fn infallible(&self) -> bool {
        self.log.infallible()
    }

    /// Whether the log has failed, so that nothing is written any more.
    pub closed spec fn poisoned(&self) -> bool {
        self.failed is Some
    }

    /// The invariant of a database: what waits in the queue can be
    /// committed, with sequence numbers that fit and into a memtable that
    /// has room.
    pub closed spec fn wf(&self) -> bool {
        &&& self.mem.wf()
        &&& self.log.wf()
        &&& self.temp_batch@ == Seq::new(HEADER as nat, |i: int| 0u8)
        &&& self.queued_ops == total_ops(self.queue())
        &&& self.versions.spec_last_sequence() + self.queued_ops <= MAX_SEQUENCE_NUMBER
        &&& self.mem@.len() + self.queued_ops < usize::MAX
        &&& self.queued_ops <= u32::MAX
        &&& all_batches_admissible(self.queue())
    }

    /// A database that logs to `logfile`, which is empty or ends on a
    /// block boundary, and orders its keys as `options` say. Nothing has
    /// been written to it.
    pub fn open(options: Options<C>, logfile: W, name: &str) -> (db: Self)
        ensures
            db.wf(),
            db.queue() == Seq::<Queued>::empty(),
            db.last_sequence() == 0,
            db.entries() == Seq::<Entry>::empty(),
            *db.user() == options.comparator,
            db.log_contents() == logfile.contents(),
            db.log_offset() == 0,
            db.log_synced() == logfile.synced(),
            db.infallible() == logfile.infallible(),
            !db.poisoned(),
    {
        let db = DB {
            writers: VecDeque::new(),
            queued_ops: 0,
            versions: VersionSet::new(name),
            temp_batch: WriteBatch::new(),
            log: log_writer::Writer::new(logfile),
            mem: MemTable::new(InternalKeyComparator::new(options.comparator)),
            failed: None,
        };
        assert(db.queue() =~= Seq::<Queued>::empty());
        db
    }

    /// The version set.
    pub fn versions(&self) -> (v: &VersionSet)
        ensures
            v.spec_last_sequence() == self.last_sequence(),
    {
        &self.versions
    }

    /// The log writer.
    pub fn log(&self) -> (w: &log_writer::Writer<W>)
        ensures
            w.contents() == self.log_contents(),
            w.block_offset() == self.log_offset(),
    {
        &self.log
    }

    /// How many writers wait.
    pub fn queue_len(&self) -> (n: usize)
        ensures
            n == self.queue().len(),
    {
        self.writers.len()
    }

    /// Whether `self` differs from `o` in the batch that gathers a group
    /// at most.
    spec fn gathered_from(&self, o: &Self) -> bool {
        &&& self.writers == o.writers
        &&& self.queued_ops == o.queued_ops
        &&& self.versions == o.versions
        &&& self.log == o.log
        &&& self.mem == o.mem
        &&& self.failed == o.failed
    }

    /// Puts a write into the queue. Fails, and leaves the queue as it is,
    /// with the error of the log where the log has failed; with
    /// `Corruption` where the batch is not sound; and with
    /// `InvalidArgument` where the memtable cannot hold one of its
    /// operations, or where, with what waits already, there would be more
    /// operations than a batch can count, than the sequence numbers have
    /// room for, or than the memtable has room for.
    pub fn enqueue(&mut self, updates: WriteBatch, sync: bool) -> (r: Result<(), Error>)
        requires
            old(self).wf(),
        ensures
            final(self).wf(),
            final(self).last_sequence() == old(self).last_sequence(),
            final(self).entries() == old(self).entries(),
            final(self).user() == old(self).user(),
            final(self).log_contents() == old(self).log_contents(),
            final(self).log_offset() == old(self).log_offset(),
            final(self).log_synced() == old(self).log_synced(),
            final(self).infallible() == old(self).infallible(),
            final(self).poisoned() == old(self).poisoned(),
            final(self).queue() == if r is Ok {
                old(self).queue().push(Queued { batch: updates@, sync })
            } else {
                old(self).queue()
            },
            r is Ok <==> admissible(updates@) && old(self).has_room(count_of(updates@) as nat),
            !old(self).poisoned() && !(updates@.len() >= HEADER && sound(updates@)) ==> r == Err::<
                (),
                Error,
            >(Error::Corruption),
            !old(self).poisoned() && updates@.len() >= HEADER && sound(updates@) && r is Err ==> r
                == Err::<(), Error>(Error::InvalidArgument),
    {
        match self.failed {
            Some(e) => {
                return Err(e);
            },
            None => {},
        }
        match check_batch(&updates) {
            Ok(()) => {},
            Err(e) => {
                return Err(e);
            },
        }
        let total: u64 = self.queued_ops + updates.count() as u64;
        if total > 0xffff_ffff || self.versions.last_sequence() + total > MAX_SEQUENCE_NUMBER
            || total >= usize::MAX as u64 || self.mem.len() as u64 >= usize::MAX as u64 - total {
            return Err(Error::InvalidArgument);
        }
        let ghost before = self.writers@;
        let ghost queued = Queued { batch: updates@, sync };
        self.writers.push_back(Writer::new(updates, sync));
        self.queued_ops = total;
        proof {
            assert(self.queue() =~= old(self).queue().push(queued));
            assert(self.queue().drop_last() =~= old(self).queue());
            assert forall|i: int| 0 <= i < self.queue().len() implies admissible(
                (#[trigger] self.queue()[i]).batch,
            ) by {
                if i < before.len() {
                    assert(self.queue()[i] == old(self).queue()[i]);
                }
            }
        }
        Ok(())
    }

    /// Gathers the next group into the batch for groups: the batch of the
    /// writer at the front, and the batches of the writers behind it for
    /// as long as none of them asks for a sync that the first does not ask
    /// for, and the group stays within its size. Returns how many writers
    /// the group takes, and whether it is to be synced.
    #[verifier::rlimit(30)]
    fn build_batch_group(&mut self) -> (r: (usize, bool))
        requires
            old(self).wf(),
            old(self).queue().len() > 0,
        ensures
            final(self).gathered_from(old(self)),
            r.0 == group_len(old(self).queue()),
            1 <= r.0 <= old(self).queue().len(),
            r.1 == old(self).queue()[0].sync,
            final(self).temp_batch@ == group_batch(old(self).queue(), r.0 as nat),
    {
        let ghost q = self.queue();
        let len = self.writers.len();
        let first_size = byte_size(&self.writers[0].batch);
        let first_sync = self.writers[0].sync;
        // A group may grow up to a maximum size, but a small write is not
        // made to wait for much more than itself.
        let max_size: usize = if first_size <= SMALL_WRITE_SIZE {
            first_size + SMALL_WRITE_SIZE
        } else {
            MAX_GROUP_SIZE
        };
        proof {
            assert(q[0] == Queued { batch: self.writers@[0].batch(), sync: self.writers@[0].sync() });
            assert(admissible(q[0].batch));
            lemma_group(q, 0);
            lemma_group(q, 1);
        }
        self.temp_batch.append(&self.writers[0].batch);
        let mut size: usize = first_size;
        let mut i: usize = 1;
        let mut done = false;
        while i < len && !done
            invariant
                old(self).wf(),
                q == old(self).queue(),
                self.gathered_from(old(self)),
                len == q.len(),
                first_size == q[0].batch.len(),
                first_sync == q[0].sync,
                max_size == max_group_size(q[0].batch.len()),
                1 <= i <= len,
                self.temp_batch@ == group_batch(q, i as nat),
                !done ==> group_len(q) == i + joiners(q, i as nat, size as nat),
                done ==> group_len(q) == i,
            decreases len - i + if done { 0int } else { 1int },
        {
            let w = &self.writers[i];
            let w_size = byte_size(&w.batch);
            proof {
                assert(q[i as int] == Queued {
                    batch: self.writers@[i as int].batch(),
                    sync: self.writers@[i as int].sync(),
                });
                assert(admissible(q[i as int].batch));
                lemma_group(q, i as nat);
                lemma_group(q, (i + 1) as nat);
                assert(q.take(i + 1).drop_last() =~= q.take(i as int));
            }
            if w.sync && !first_sync {
                // A write that asks for a sync does not join a group that
                // is not synced.
                done = true;
            } else if size > max_size || w_size > max_size - size {
                // The group would grow too large.
                done = true;
            } else {
                size = size + w_size;
                self.temp_batch.append(&w.batch);
                i += 1;
            }
        }
        (i, first_sync)
    }

    /// Takes the first `n` writers from the queue.
    fn pop_writers(&mut self, n: usize)
        requires
            n <= old(self).writers@.len(),
        ensures
            final(self).writers@ == old(self).writers@.skip(n as int),
            final(self).queue() == old(self).queue().skip(n as int),
            final(self).queued_ops == old(self).queued_ops,
            final(self).versions == old(self).versions,
            final(self).log == old(self).log,
            final(self).mem == old(self).mem,
            final(self).failed == old(self).failed,
            final(self).temp_batch == old(self).temp_batch,
    {
        let mut k: usize = 0;
        assert(self.writers@.skip(0) =~= self.writers@);
        while k < n
            invariant
                k <= n <= old(self).writers@.len(),
                self.writers@ == old(self).writers@.skip(k as int),
                self.queued_ops == old(self).queued_ops,
                self.versions == old(self).versions,
                self.log == old(self).log,
                self.mem == old(self).mem,
                self.failed == old(self).failed,
                self.temp_batch == old(self).temp_batch,
            decreases n - k,
        {
            let served = self.writers.pop_front();
            assert(self.writers@ =~= old(self).writers@.skip(k + 1));
            k += 1;
        }
        assert(self.queue() =~= old(self).queue().skip(n as int));
    }

    /// Commits the next group: gathers it, gives its batch the sequence
    /// number after the last, writes the batch to the log as one record,
    /// syncs the log where the group asks for it, applies the batch to the
    /// memtable, publishes the new last sequence number, and takes the
    /// writers of the group from the queue. Returns how many writers were
    /// served. Where the log fails, nothing is applied, the writers of the
    /// group are taken from the queue all the same, and the database
    /// writes nothing any more.
    #[verifier::rlimit(30)]
    pub fn commit_group(&mut self) -> (r: Result<usize, Error>)
        requires
            old(self).wf(),
            old(self).queue().len() > 0,
            !old(self).poisoned(),
        ensures
            final(self).wf(),
            final(self).user() == old(self).user(),
            final(self).infallible() == old(self).infallible(),
            old(self).infallible() ==> r is Ok,
            final(self).poisoned() == r is Err,
            ({
                let n = group_len(old(self).queue());
                let batch = with_sequence(
                    group_batch(old(self).queue(), n),
                    (old(self).last_sequence() + 1) as u64,
                );
                &&& 1 <= n <= old(self).queue().len()
                &&& final(self).queue() == old(self).queue().skip(n as int)
                &&& match r {
                    Ok(served) => {
                        &&& served == n
                        &&& final(self).log_contents() == old(self).log_contents() + log_bytes(
                            old(self).log_offset(),
                            batch,
                            true,
                        )
                        &&& final(self).log_offset() == log_end_offset(
                            old(self).log_offset(),
                            batch,
                        )
                        &&& replay(
                            old(self).user(),
                            old(self).entries(),
                            ops_of(batch),
                            sequence_of(batch),
                        ).1
                        &&& final(self).entries() == replay(
                            old(self).user(),
                            old(self).entries(),
                            ops_of(batch),
                            sequence_of(batch),
                        ).0
                        &&& final(self).last_sequence() == old(self).last_sequence() + count_of(
                            batch,
                        )
                        &&& count_of(batch) == total_ops(old(self).queue().take(n as int))
                        &&& old(self).queue()[0].sync ==> final(self).log_synced()
                            == final(self).log_contents().len()
                    },
                    Err(_) => {
                        &&& final(self).entries() == old(self).entries()
                        &&& final(self).last_sequence() == old(self).last_sequence()
                    },
                }
            }),
    {
        let ghost q = self.queue();
        let (n, sync) = self.build_batch_group();
        let last = self.versions.last_sequence();
        let ghost gathered = self.temp_batch@;
        proof {
            lemma_group(q, n as nat);
            lemma_total_split(q, n as int);
            lemma_header_sequence(gathered, (last + 1) as u64);
        }
        self.temp_batch.set_sequence(last + 1);
        let count = self.temp_batch.count();
        let ghost batch = self.temp_batch@;
        let mut status = self.log.add_record(&self.temp_batch.contents());
        if status.is_ok() && sync {
            status = self.log.sync();
        }
        let result = match status {
            Ok(()) => {
                proof {
                    lemma_replay_all(self.mem.user(), self.mem@, ops_of(batch), (last + 1) as u64);
                }
                let applied = insert_into(&self.temp_batch, &mut self.mem);
                assert(applied is Ok);
                self.versions.set_last_sequence(last + count as u64);
                Ok(n)
            },
            Err(e) => {
                self.failed = Some(e);
                Err(e)
            },
        };
        self.temp_batch.clear();
        self.queued_ops = self.queued_ops - count as u64;
        self.pop_writers(n);
        proof {
            assert forall|i: int| 0 <= i < self.queue().len() implies admissible(
                (#[trigger] self.queue()[i]).batch,
            ) by {
                assert(self.queue()[i] == q[i + n]);
            }
        }
        result
    }

    /// Writes `updates`: puts the write into the queue and commits groups
    /// until the queue is empty. Fails as `enqueue` does, without a trace;
    /// and with the error of the log where the log fails.
    #[verifier::rlimit(30)]
    pub fn write(&mut self, opt: &WriteOptions, updates: WriteBatch) -> (r: Result<(), Error>)
        requires
            old(self).wf(),
        ensures
            final(self).wf(),
            final(self).user() == old(self).user(),
            final(self).infallible() == old(self).infallible(),
            r is Ok ==> final(self).queue().len() == 0 && !final(self).poisoned(),
            r is Ok ==> final(self).state() == drained(
                old(self).user(),
                old(self).state(),
                old(self).queue().push(Queued { batch: updates@, sync: opt.sync }),
            ),
            r is Ok ==> admissible(updates@) && old(self).has_room(count_of(updates@) as nat),
            old(self).infallible() && admissible(updates@) && old(self).has_room(
                count_of(updates@) as nat,
            ) ==> r is Ok,
            !old(self).poisoned() && !(updates@.len() >= HEADER && sound(updates@)) ==> r == Err::<
                (),
                Error,
            >(Error::Corruption),
            !old(self).poisoned() && updates@.len() >= HEADER && sound(updates@) && !(admissible(
                updates@,
            ) && old(self).has_room(count_of(updates@) as nat)) ==> r == Err::<(), Error>(
                Error::InvalidArgument,
            ),
            old(self).queue().len() == 0 && r is Ok && opt.sync ==> final(self).log_synced()
                == final(self).log_contents().len(),
            old(self).queue().len() == 0 ==> ({
                let batch = with_sequence(
                    appended(Seq::new(HEADER as nat, |i: int| 0u8), updates@),
                    (old(self).last_sequence() + 1) as u64,
                );
                let accepted = !old(self).poisoned() && admissible(updates@) && old(
                    self,
                ).last_sequence() + count_of(updates@) <= MAX_SEQUENCE_NUMBER && old(
                    self,
                ).entries().len() + count_of(updates@) < usize::MAX;
                &&& !accepted ==> r is Err && final(self).entries() == old(self).entries()
                    && final(self).last_sequence() == old(self).last_sequence()
                    && final(self).log_contents() == old(self).log_contents()
                &&& accepted && old(self).infallible() ==> r is Ok
                &&& r is Ok ==> {
                    &&& accepted
                    &&& final(self).log_contents() == old(self).log_contents() + log_bytes(
                        old(self).log_offset(),
                        batch,
                        true,
                    )
                    &&& replay(
                        old(self).user(),
                        old(self).entries(),
                        ops_of(updates@),
                        (old(self).last_sequence() + 1) as u64,
                    ).1
                    &&& final(self).entries() == replay(
                        old(self).user(),
                        old(self).entries(),
                        ops_of(updates@),
                        (old(self).last_sequence() + 1) as u64,
                    ).0
                    &&& final(self).last_sequence() == old(self).last_sequence() + count_of(
                        updates@,
                    )
                }
            }),
    {
        let ghost zeros = Seq::new(HEADER as nat, |i: int| 0u8);
        let ghost start = (old(self).last_sequence() + 1) as u64;
        let ghost batch = with_sequence(appended(zeros, updates@), start);
        let ghost alone = old(self).queue().len() == 0;
        let ghost wanted = Queued { batch: updates@, sync: opt.sync };
        proof {
            if alone {
                assert(total_ops(self.queue()) == 0);
            }
        }
        match self.enqueue(updates, opt.sync) {
            Ok(()) => {},
            Err(e) => {
                return Err(e);
            },
        }
        if self.writers.len() == 1 {
            proof {
                assert(self.queue() =~= seq![self.queue()[0]]);
                lemma_single(self.queue()[0], start);
                if alone {
                    assert(self.queue()[0] == wanted);
                }
            }
            let ghost q = self.queue();
            let ghost from = self.state();
            match self.commit_group() {
                Ok(_) => {
                    proof {
                        reveal_with_fuel(drained, 2);
                        assert(q.skip(1).len() == 0);
                    }
                    Ok(())
                },
                Err(e) => Err(e),
            }
        } else {
            self.drain()
        }
    }

    /// The error of the log after which nothing is written any more, where
    /// there was one.
    pub fn failure(&self) -> (e: Option<Error>)
        ensures
            e is Some == self.poisoned(),
    {
        self.failed
    }

    /// Takes every writer that waits from the queue of a database whose
    /// log has failed: none of them is served. Returns how many there were,
    /// and the error of the log, which is their outcome.
    pub fn reject_waiting(&mut self) -> (r: (usize, Error))
        requires
            old(self).wf(),
            old(self).poisoned(),
        ensures
            final(self).wf(),
            final(self).poisoned(),
            final(self).queue().len() == 0,
            r.0 == old(self).queue().len(),
            final(self).user() == old(self).user(),
            final(self).infallible() == old(self).infallible(),
            final(self).entries() == old(self).entries(),
            final(self).last_sequence() == old(self).last_sequence(),
            final(self).log_contents() == old(self).log_contents(),
    {
        let n = self.writers.len();
        self.pop_writers(n);
        self.queued_ops = 0;
        let e = match self.failed {
            Some(e) => e,
            None => Error::IOError,
        };
        (n, e)
    }

    /// Commits groups until the queue is empty, or the log fails.
    pub fn drain(&mut self) -> (r: Result<(), Error>)
        requires
            old(self).wf(),
            !old(self).poisoned(),
        ensures
            final(self).wf(),
            final(self).user() == old(self).user(),
            final(self).infallible() == old(self).infallible(),
            old(self).infallible() ==> r is Ok,
            r is Ok ==> final(self).queue().len() == 0 && !final(self).poisoned(),
            r is Ok ==> final(self).last_sequence() == old(self).last_sequence() + total_ops(
                old(self).queue(),
            ),
            r is Ok ==> final(self).state() == drained(
                old(self).user(),
                old(self).state(),
                old(self).queue(),
            ),
    {
        while self.writers.len() > 0
            invariant
                self.wf(),
                !self.poisoned(),
                self.user() == old(self).user(),
                self.infallible() == old(self).infallible(),
                self.last_sequence() + total_ops(self.queue()) == old(self).last_sequence()
                    + total_ops(old(self).queue()),
                drained(self.user(), self.state(), self.queue()) == drained(
                    old(self).user(),
                    old(self).state(),
                    old(self).queue(),
                ),
            decreases self.queue().len(),
        {
            let ghost q = self.queue();
            match self.commit_group() {
                Ok(_) => {
                    proof {
                        lemma_total_split(q, group_len(q) as int);
                    }
                },
                Err(e) => {
                    return Err(e);
                },
            }
        }
        Ok(())
    }

    /// Writes `value` to `key`. Fails with `InvalidArgument` where the key
    /// or the value is too long for a batch, and as `write` does.
    #[verifier::rlimit(30)]
    pub fn put(&mut self, opt: &WriteOptions, key: &Slice, value: &Slice) -> (r: Result<(), Error>)
        requires
            old(self).wf(),
        ensures
            final(self).wf(),
            final(self).user() == old(self).user(),
            r is Ok ==> final(self).queue().len() == 0,
            r is Ok ==> key@.len() + 8 <= u32::MAX && value@.len() <= u32::MAX && old(
                self,
            ).has_room(1),
            old(self).infallible() && key@.len() + 8 <= u32::MAX && value@.len() <= u32::MAX
                && old(self).has_room(1) ==> r is Ok,
            !old(self).poisoned() && !(key@.len() + 8 <= u32::MAX && value@.len() <= u32::MAX
                && old(self).has_room(1)) ==> r == Err::<(), Error>(Error::InvalidArgument),
            r is Ok && old(self).queue().len() == 0 ==> {
                &&& final(self).last_sequence() == old(self).last_sequence() + 1
                &&& final(self).entries() == added(
                    old(self).user(),
                    old(self).entries(),
                    Entry {
                        key: key@,
                        sequence: final(self).last_sequence(),
                        kind: ValueType::KTypeValue,
                        value: value@,
                    },
                )
            },
    {
        if key.size() as u64 > 0xffff_ffff || value.size() as u64 > 0xffff_ffff {
            return Err(Error::InvalidArgument);
        }
        let mut write_batch = WriteBatch::new();
        write_batch.put(key, value);
        let ghost op = BatchOp::Put { key: key@, value: value@ };
        let ghost rep = write_batch@;
        assert(ops_of(rep) == seq![op] && count_of(rep) == 1) by {
            assert(Seq::<BatchOp>::empty().push(op) =~= seq![op]);
        }
        assert(admissible(rep) == admissible_op(op)) by {
            assert(seq![op][0] == op);
            assert(sound(rep));
        }
        let r = self.write(opt, write_batch);
        proof {
            lemma_replay_one(
                old(self).user(),
                old(self).entries(),
                op,
                (old(self).last_sequence() + 1) as u64,
            );
        }
        r
    }

    /// Deletes `key`. Fails with `InvalidArgument` where the key is too
    /// long for a batch, and as `write` does.
    #[verifier::rlimit(30)]
    pub fn delete(&mut self, opt: &WriteOptions, key: &Slice) -> (r: Result<(), Error>)
        requires
            old(self).wf(),
        ensures
            final(self).wf(),
            final(self).user() == old(self).user(),
            r is Ok ==> final(self).queue().len() == 0,
            r is Ok ==> key@.len() + 8 <= u32::MAX && old(self).has_room(1),
            old(self).infallible() && key@.len() + 8 <= u32::MAX && old(self).has_room(1)
                ==> r is Ok,
            !old(self).poisoned() && !(key@.len() + 8 <= u32::MAX && old(self).has_room(1))
                ==> r == Err::<(), Error>(Error::InvalidArgument),
            r is Ok && old(self).queue().len() == 0 ==> {
                &&& final(self).last_sequence() == old(self).last_sequence() + 1
                &&& final(self).entries() == added(
                    old(self).user(),
                    old(self).entries(),
                    Entry {
                        key: key@,
                        sequence: final(self).last_sequence(),
                        kind: ValueType::KTypeDeletion,
                        value: Seq::empty(),
                    },
                )
            },
    {
        if key.size() as u64 > 0xffff_ffff {
            return Err(Error::InvalidArgument);
        }
        let mut write_batch = WriteBatch::new();
        write_batch.delete(key);
        let ghost op = BatchOp::Delete { key: key@ };
        let ghost rep = write_batch@;
        assert(ops_of(rep) == seq![op] && count_of(rep) == 1) by {
            assert(Seq::<BatchOp>::empty().push(op) =~= seq![op]);
        }
        assert(admissible(rep) == admissible_op(op)) by {
            assert(seq![op][0] == op);
            assert(sound(rep));
        }
        let r = self.write(opt, write_batch);
        proof {
            lemma_replay_one(
                old(self).user(),
                old(self).entries(),
                op,
                (old(self).last_sequence() + 1) as u64,
            );
        }
        r
    }

    /// Looks `key` up in the memtable as of the last sequence number that
    /// was committed: the value of the newest write to the key, or
    /// `NotFound` where there is none or where it is a deletion.
    pub fn get(&self, options: &ReadOptions, key: &Slice) -> (r: Result<Vec<u8>, Error>)
        requires
            self.wf(),
            key@.len() + 8 <= u32::MAX,
        ensures
            match lookup(self.user(), self.entries(), key@, self.last_sequence()) {
                Some(e) => match e.kind {
                    ValueType::KTypeValue => r matches Ok(v) && v@ == e.value,
                    ValueType::KTypeDeletion => r == Err::<Vec<u8>, Error>(Error::NotFound),
                },
                None => r == Err::<Vec<u8>, Error>(Error::NotFound),
            },
    {
        let snapshot = self.versions.last_sequence();
        let lkey = LookupKey::new(key, snapshot);
        match self.mem.get(&lkey) {
            (true, Ok(value)) => Ok(value),
            _ => Err(Error::NotFound),
        }
    }
}

} // verus!
