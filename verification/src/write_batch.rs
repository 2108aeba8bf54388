//! Write batches: a sequence of puts and deletes that is logged and
//! applied as one.
//!
//! A batch is a header of twelve bytes, the sequence number of its first
//! operation in eight and the count of its operations in four, followed
//! by one record for each operation.

use vstd::prelude::*;
use crate::coding::{
    decode_fix32, decode_fixed64, encode_fixed32, encode_fixed64, fixed32_bytes, fixed32_value,
    fixed64_bytes, fixed64_value, get_length_prefixed_slice, length_prefixed_bytes,
    length_prefixed_parse, lemma_varint_parse_prefix, overwrite, put_length_prefixed_slice,
    varint_parse,
};
use crate::comparator::Comparator;
use crate::dbformat::{SequenceNumber, ValueType, MAX_SEQUENCE_NUMBER};
use crate::error::Error;
use crate::memtable::{added, Entry, MemTable};
use crate::slice::Slice;

verus! {

/// The size of a batch's header.
pub const HEADER: usize = 12;

/// One operation of a batch.
pub enum BatchOp {
    Put { key: Seq<u8>, value: Seq<u8> },
    Delete { key: Seq<u8> },
}

impl BatchOp {
    /// The record of the operation: the tag of its type, then the key
    /// behind its length and, for a put, the value behind its length.
    pub open spec fn bytes(self) -> Seq<u8> {
        match self {
            BatchOp::Put { key, value } => seq![1u8] + length_prefixed_bytes(key)
                + length_prefixed_bytes(value),
            BatchOp::Delete { key } => seq![0u8] + length_prefixed_bytes(key),
        }
    }

    /// The entry that the operation becomes under the sequence number
    /// `sequence`.
    pub open spec fn entry(self, sequence: u64) -> Entry {
        match self {
            BatchOp::Put { key, value } => Entry {
                key,
                sequence,
                kind: ValueType::KTypeValue,
                value,
            },
            BatchOp::Delete { key } => Entry {
                key,
                sequence,
                kind: ValueType::KTypeDeletion,
                value: Seq::empty(),
            },
        }
    }
}

/// Reads one record from the front of `s`: the operation and the count of
/// bytes read.
pub open spec fn parse_op(s: Seq<u8>) -> Option<(BatchOp, nat)> {
    if s.len() == 0 {
        None
    } else if s[0] == 1 {
        match length_prefixed_parse(s.skip(1)) {
            Some((key, n)) => match length_prefixed_parse(s.skip(1 + n as int)) {
                Some((value, m)) => Some((BatchOp::Put { key, value }, 1 + n + m)),
                None => None,
            },
            None => None,
        }
    } else if s[0] == 0 {
        match length_prefixed_parse(s.skip(1)) {
            Some((key, n)) => Some((BatchOp::Delete { key }, 1 + n)),
            None => None,
        }
    } else {
        None
    }
}

/// Reads records from the front of `s` for as long as they are well
/// formed: the operations read, and whether all of `s` was read.
pub open spec fn parse_ops(s: Seq<u8>) -> (Seq<BatchOp>, bool)
    decreases s.len(),
{
    if s.len() == 0 {
        (Seq::empty(), true)
    } else {
        match parse_op(s) {
            Some((op, n)) => if 0 < n <= s.len() {
                let (rest, whole) = parse_ops(s.skip(n as int));
                (seq![op] + rest, whole)
            } else {
                (Seq::empty(), false)
            },
            None => (Seq::empty(), false),
        }
    }
}

/// The sequence number in the header of the batch `rep`.
pub open spec fn sequence_of(rep: Seq<u8>) -> u64 {
    fixed64_value(rep)
}

/// The count in the header of the batch `rep`.
pub open spec fn count_of(rep: Seq<u8>) -> u32 {
    fixed32_value(rep.skip(8))
}

/// The operations of the batch `rep`, up to the first record that is not
/// well formed.
pub open spec fn ops_of(rep: Seq<u8>) -> Seq<BatchOp> {
    parse_ops(rep.skip(HEADER as int)).0
}

/// Whether every record of the batch `rep` is well formed.
pub open spec fn records_ok(rep: Seq<u8>) -> bool {
    parse_ops(rep.skip(HEADER as int)).1
}

/// Whether the batch `rep` is sound: every record is well formed, and
/// there are as many as the header says.
pub open spec fn sound(rep: Seq<u8>) -> bool {
    records_ok(rep) && ops_of(rep).len() == count_of(rep)
}

/// The batch `rep` with the count `n` in its header.
pub open spec fn with_count(rep: Seq<u8>, n: u32) -> Seq<u8> {
    overwrite(rep, 8, fixed32_bytes(n))
}

/// The batch `rep` with the sequence number `s` in its header.
pub open spec fn with_sequence(rep: Seq<u8>, s: u64) -> Seq<u8> {
    overwrite(rep, 0, fixed64_bytes(s))
}

/// The batch that holds the records of `a` and then those of `b`, under
/// the sequence number of `a`.
pub open spec fn appended(a: Seq<u8>, b: Seq<u8>) -> Seq<u8> {
    with_count(a, (count_of(a) + count_of(b)) as u32) + b.skip(HEADER as int)
}

/// A record reads the same whatever follows it.
pub proof fn lemma_parse_op_prefix(s: Seq<u8>, t: Seq<u8>)
    requires
        parse_op(s) is Some,
    ensures
        parse_op(s + t) == parse_op(s),
        0 < parse_op(s).unwrap().1 <= s.len(),
{
    let tail = s.skip(1);
    assert((s + t).skip(1) =~= tail + t);
    lemma_length_prefixed_prefix(tail, t);
    let (key, n) = length_prefixed_parse(tail).unwrap();
    if s[0] == 1 {
        assert((s + t).skip(1 + n as int) =~= s.skip(1 + n as int) + t);
        lemma_length_prefixed_prefix(s.skip(1 + n as int), t);
    }
}

/// A length-prefixed string reads the same whatever follows it, and lies
/// within the bytes it is read from.
pub proof fn lemma_length_prefixed_prefix(s: Seq<u8>, t: Seq<u8>)
    requires
        length_prefixed_parse(s) is Some,
    ensures
        length_prefixed_parse(s + t) == length_prefixed_parse(s),
        0 < length_prefixed_parse(s).unwrap().1 <= s.len(),
{
    reveal(length_prefixed_parse);
    lemma_varint_parse_prefix(s, t, 5);
    crate::coding::lemma_varint_parse_bounds(s, 5);
    let (len, n) = crate::coding::varint32_parse(s).unwrap();
    assert((s + t).subrange(n as int, n + len) =~= s.subrange(n as int, n + len));
}

/// Records that follow records that are all well formed are read after
/// them.
pub proof fn lemma_parse_ops_concat(s: Seq<u8>, t: Seq<u8>)
    requires
        parse_ops(s).1,
    ensures
        parse_ops(s + t) == (parse_ops(s).0 + parse_ops(t).0, parse_ops(t).1),
    decreases s.len(),
{
    if s.len() == 0 {
        assert(s + t =~= t);
        assert(parse_ops(s).0 + parse_ops(t).0 =~= parse_ops(t).0);
    } else {
        let (op, n) = parse_op(s).unwrap();
        lemma_parse_op_prefix(s, t);
        assert((s + t).skip(n as int) =~= s.skip(n as int) + t);
        lemma_parse_ops_concat(s.skip(n as int), t);
        let rest = parse_ops(s.skip(n as int)).0;
        assert(seq![op] + (rest + parse_ops(t).0) =~= (seq![op] + rest) + parse_ops(t).0);
    }
}

/// A well-formed record that is put behind well-formed records is read
/// as the last of them.
pub proof fn lemma_parse_ops_push(s: Seq<u8>, op: BatchOp)
    requires
        parse_ops(s).1,
        match op {
            BatchOp::Put { key, value } => key.len() <= u32::MAX && value.len() <= u32::MAX,
            BatchOp::Delete { key } => key.len() <= u32::MAX,
        },
    ensures
        parse_ops(s + op.bytes()) == (parse_ops(s).0.push(op), true),
{
    let b = op.bytes();
    match op {
        BatchOp::Put { key, value } => {
            crate::coding::length_prefixed_round_trip(key, length_prefixed_bytes(value));
            crate::coding::length_prefixed_round_trip(value, Seq::empty());
            let n = length_prefixed_bytes(key).len();
            assert(b.skip(1) =~= length_prefixed_bytes(key) + length_prefixed_bytes(value));
            assert(b.skip(1 + n as int) =~= length_prefixed_bytes(value) + Seq::<u8>::empty());
        },
        BatchOp::Delete { key } => {
            crate::coding::length_prefixed_round_trip(key, Seq::empty());
            assert(b.skip(1) =~= length_prefixed_bytes(key) + Seq::<u8>::empty());
        },
    }
    assert(parse_op(b) == Some((op, b.len())));
    assert(b.skip(b.len() as int) =~= Seq::<u8>::empty());
    assert(parse_ops(b) == (seq![op], true)) by {
        reveal_with_fuel(parse_ops, 2);
        assert(b.len() > 0);
        assert(parse_ops(b.skip(b.len() as int)) == (Seq::<BatchOp>::empty(), true));
        assert(seq![op] + Seq::<BatchOp>::empty() =~= seq![op]);
    }
    lemma_parse_ops_concat(s, b);
    assert(parse_ops(s).0 + seq![op] =~= parse_ops(s).0.push(op));
}

/// Appending one batch to another adds up the counts, keeps the sequence
/// number of the first, and, where the records of the first are well
/// formed, yields the operations of the first followed by those of the
/// second.
pub proof fn batch_append_law(a: Seq<u8>, b: Seq<u8>)
    requires
        a.len() >= HEADER,
        b.len() >= HEADER,
        count_of(a) + count_of(b) <= u32::MAX,
    ensures
        count_of(appended(a, b)) == count_of(a) + count_of(b),
        sequence_of(appended(a, b)) == sequence_of(a),
        records_ok(a) ==> ops_of(appended(a, b)) == ops_of(a) + ops_of(b),
        records_ok(a) ==> records_ok(appended(a, b)) == records_ok(b),
        sound(a) && sound(b) ==> sound(appended(a, b)),
{
    let n = (count_of(a) + count_of(b)) as u32;
    lemma_header(a, n);
    let both = appended(a, b);
    assert(both.skip(HEADER as int) =~= a.skip(HEADER as int) + b.skip(HEADER as int));
    assert(both.skip(8) =~= with_count(a, n).skip(8) + b.skip(HEADER as int));
    assert(fixed32_value(both.skip(8)) == fixed32_value(with_count(a, n).skip(8)));
    assert(fixed64_value(both) == fixed64_value(with_count(a, n)));
    if records_ok(a) {
        lemma_parse_ops_concat(a.skip(HEADER as int), b.skip(HEADER as int));
    }
}

/// A count that is written into a header is the count read from it, and
/// nothing else of the batch changes.
pub proof fn lemma_header(rep: Seq<u8>, n: u32)
    requires
        rep.len() >= HEADER,
    ensures
        with_count(rep, n).len() == rep.len(),
        count_of(with_count(rep, n)) == n,
        sequence_of(with_count(rep, n)) == sequence_of(rep),
        with_count(rep, n).skip(HEADER as int) == rep.skip(HEADER as int),
{
    let after = with_count(rep, n);
    crate::coding::lemma_fixed32_round_trip(n, rep.skip(HEADER as int));
    assert(after.skip(8) =~= fixed32_bytes(n) + rep.skip(HEADER as int));
    assert(after.skip(HEADER as int) =~= rep.skip(HEADER as int));
    assert(after.skip(4).take(4) =~= rep.skip(4).take(4));
    assert(fixed32_value(after.skip(4)) == fixed32_value(rep.skip(4))) by {
        assert(after.skip(4)[0] == rep.skip(4)[0] && after.skip(4)[1] == rep.skip(4)[1]
            && after.skip(4)[2] == rep.skip(4)[2] && after.skip(4)[3] == rep.skip(4)[3]);
    }
    assert(fixed32_value(after) == fixed32_value(rep)) by {
        assert(after[0] == rep[0] && after[1] == rep[1] && after[2] == rep[2] && after[3]
            == rep[3]);
    }
}

/// A sequence number that is written into a header is the one read from
/// it, and nothing else of the batch changes.
pub proof fn lemma_header_sequence(rep: Seq<u8>, s: u64)
    requires
        rep.len() >= HEADER,
    ensures
        with_sequence(rep, s).len() == rep.len(),
        sequence_of(with_sequence(rep, s)) == s,
        count_of(with_sequence(rep, s)) == count_of(rep),
        with_sequence(rep, s).skip(HEADER as int) == rep.skip(HEADER as int),
{
    let after = with_sequence(rep, s);
    crate::coding::lemma_fixed64_round_trip(s, rep.skip(8));
    assert(after =~= fixed64_bytes(s) + rep.skip(8));
    assert(after.skip(8) =~= rep.skip(8));
    assert(after.skip(HEADER as int) =~= rep.skip(HEADER as int));
}


/// A batch of writes.
pub struct WriteBatch {
    rep: Vec<u8>,
}

impl View for WriteBatch {
    type V = Seq<u8>;

    closed spec fn view(&self) -> Seq<u8> {
        self.rep@
    }
}

/// What is told of each operation of a batch, in the batch's order.
pub trait Handler {
    /// The operations that the handler was told of so far. An
    /// implementation that keeps no record is taken to have seen anything.
    open spec fn seen(&self) -> Seq<BatchOp> {
        arbitrary()
    }

    /// What the handler needs to hold between two operations: nothing,
    /// unless an implementation says otherwise.
    open spec fn ready(&self) -> bool {
        true
    }

    /// Tells the handler of a put.
    fn put(&mut self, key: &Slice, value: &Slice)
        requires
            old(self).ready(),
        ensures
            final(self).ready(),
            final(self).seen() == old(self).seen().push(BatchOp::Put { key: key@, value: value@ }),
    ;

    /// Tells the handler of a delete.
    fn delete(&mut self, key: &Slice)
        requires
            old(self).ready(),
        ensures
            final(self).ready(),
            final(self).seen() == old(self).seen().push(BatchOp::Delete { key: key@ }),
    ;
}

impl WriteBatch {
    /// The invariant of a batch: it holds a header.
    pub open spec fn wf(&self) -> bool {
        self@.len() >= HEADER
    }

    /// An empty batch: no operation, sequence number zero.
    pub fn new() -> (b: Self)
        ensures
            b.wf(),
            b@ == Seq::new(HEADER as nat, |i: int| 0u8),
            count_of(b@) == 0,
            sequence_of(b@) == 0,
            ops_of(b@) == Seq::<BatchOp>::empty(),
            sound(b@),
    {
        let b = WriteBatch { rep: vec![0u8; HEADER] };
        proof {
            assert(b@ =~= Seq::new(HEADER as nat, |i: int| 0u8));
            assert(b@.skip(HEADER as int) =~= Seq::<u8>::empty());
            assert(b@.skip(8)[0] == 0 && b@.skip(8)[1] == 0 && b@.skip(8)[2] == 0 && b@.skip(8)[3]
                == 0);
            assert(b@.skip(4)[0] == 0 && b@.skip(4)[1] == 0 && b@.skip(4)[2] == 0 && b@.skip(4)[3]
                == 0);
        }
        b
    }

    /// Empties the batch: no operation, sequence number zero.
    pub fn clear(&mut self)
        ensures
            final(self).wf(),
            final(self)@ == Seq::new(HEADER as nat, |i: int| 0u8),
            count_of(final(self)@) == 0,
            sequence_of(final(self)@) == 0,
            ops_of(final(self)@) == Seq::<BatchOp>::empty(),
            sound(final(self)@),
    {
        let fresh = WriteBatch::new();
        self.rep = fresh.rep;
    }

    /// Adds the write of `value` to `key`.
    pub fn put(&mut self, key: &Slice, value: &Slice)
        requires
            old(self).wf(),
            key@.len() <= u32::MAX,
            value@.len() <= u32::MAX,
            count_of(old(self)@) < u32::MAX,
        ensures
            final(self).wf(),
            final(self)@ == with_count(old(self)@, (count_of(old(self)@) + 1) as u32)
                + (BatchOp::Put { key: key@, value: value@ }).bytes(),
            count_of(final(self)@) == count_of(old(self)@) + 1,
            sequence_of(final(self)@) == sequence_of(old(self)@),
            records_ok(old(self)@) ==> records_ok(final(self)@) && ops_of(final(self)@) == ops_of(
                old(self)@,
            ).push(BatchOp::Put { key: key@, value: value@ }),
    {
        let ghost op = BatchOp::Put { key: key@, value: value@ };
        let n = count(self);
        set_count(self, n + 1);
        let ghost counted = self@;
        self.rep.push(ValueType::KTypeValue.tag());
        put_length_prefixed_slice(&mut self.rep, key);
        put_length_prefixed_slice(&mut self.rep, value);
        proof {
            assert(self@ =~= counted + op.bytes());
            lemma_pushed(old(self)@, op);
        }
    }

    /// Adds the deletion of `key`.
    pub fn delete(&mut self, key: &Slice)
        requires
            old(self).wf(),
            key@.len() <= u32::MAX,
            count_of(old(self)@) < u32::MAX,
        ensures
            final(self).wf(),
            final(self)@ == with_count(old(self)@, (count_of(old(self)@) + 1) as u32)
                + (BatchOp::Delete { key: key@ }).bytes(),
            count_of(final(self)@) == count_of(old(self)@) + 1,
            sequence_of(final(self)@) == sequence_of(old(self)@),
            records_ok(old(self)@) ==> records_ok(final(self)@) && ops_of(final(self)@) == ops_of(
                old(self)@,
            ).push(BatchOp::Delete { key: key@ }),
    {
        let ghost op = BatchOp::Delete { key: key@ };
        let n = count(self);
        set_count(self, n + 1);
        let ghost counted = self@;
        self.rep.push(ValueType::KTypeDeletion.tag());
        put_length_prefixed_slice(&mut self.rep, key);
        proof {
            assert(self@ =~= counted + op.bytes());
            lemma_pushed(old(self)@, op);
        }
    }

    /// The size of the batch in bytes.
    pub fn approximate_size(&self) -> (n: usize)
        ensures
            n == self@.len(),
    {
        self.rep.len()
    }

    /// Adds the operations of `source` behind those of this batch.
    pub fn append(&mut self, source: &Self)
        requires
            old(self).wf(),
            source.wf(),
            count_of(old(self)@) + count_of(source@) <= u32::MAX,
        ensures
            final(self).wf(),
            final(self)@ == appended(old(self)@, source@),
    {
        append(self, source);
    }

    /// Sets the sequence number of the first operation.
    pub fn set_sequence(&mut self, seq: SequenceNumber)
        requires
            old(self).wf(),
        ensures
            final(self).wf(),
            final(self)@ == with_sequence(old(self)@, seq),
            sequence_of(final(self)@) == seq,
            count_of(final(self)@) == count_of(old(self)@),
            ops_of(final(self)@) == ops_of(old(self)@),
            records_ok(final(self)@) == records_ok(old(self)@),
    {
        proof {
            lemma_header_sequence(self@, seq);
        }
        encode_fixed64(self.rep.as_mut_slice(), seq, 0);
    }

    /// The count in the header.
    pub fn count(&self) -> (n: u32)
        requires
            self.wf(),
        ensures
            n == count_of(self@),
    {
        count(self)
    }

    /// The sequence number in the header.
    pub fn sequence(&self) -> (s: SequenceNumber)
        requires
            self.wf(),
        ensures
            s == sequence_of(self@),
    {
        sequence(self)
    }

    /// The bytes of the batch, as they are logged.
    pub fn contents(&self) -> (s: Slice<'_>)
        ensures
            s@ == self@,
    {
        Slice::from_bytes(self.rep.as_slice())
    }

    /// Tells `handler` of every operation in turn, up to the first record
    /// that is not well formed. Fails with `Corruption` where a record is
    /// not well formed, or where the count of the records is not the count
    /// in the header.
    #[verifier::rlimit(30)]
    pub fn iterate<H: Handler>(&self, handler: &mut H) -> (r: Result<(), Error>)
        requires
            self.wf(),
            old(handler).ready(),
        ensures
            final(handler).ready(),
            final(handler).seen() == old(handler).seen() + ops_of(self@),
            r is Ok <==> sound(self@),
            r is Err ==> r == Err::<(), Error>(Error::Corruption),
    {
        let input = self.rep.as_slice();
        let len = input.len();
        let mut offset: usize = HEADER;
        let mut found: usize = 0;
        let ghost body = self@.skip(HEADER as int);
        proof {
            assert(body.skip(0) =~= body);
            assert(handler.seen() + Seq::<BatchOp>::empty() =~= handler.seen());
        }
        let ghost mut told: Seq<BatchOp> = Seq::empty();
        while offset < len
            invariant
                self.wf(),
                input@ == self@,
                len == self@.len(),
                body == self@.skip(HEADER as int),
                HEADER <= offset <= len,
                found == told.len(),
                found <= offset,
                handler.ready(),
                handler.seen() == old(handler).seen() + told,
                parse_ops(body) == (told + parse_ops(body.skip(offset - HEADER)).0, parse_ops(
                    body.skip(offset - HEADER),
                ).1),
            decreases len - offset,
        {
            let ghost here = body.skip(offset - HEADER);
            assert(input@.skip(offset as int) =~= here);
            match read_op(input, offset) {
                Some((kind, key, value, next)) => {
                    let ghost op = parse_op(here).unwrap().0;
                    match kind {
                        ValueType::KTypeValue => handler.put(&key, &value),
                        ValueType::KTypeDeletion => handler.delete(&key),
                    }
                    proof {
                        let later = parse_ops(here.skip(next - offset)).0;
                        assert(here.skip(next - offset) =~= body.skip(next - HEADER));
                        assert(told + (seq![op] + later) =~= told.push(op) + later);
                        told = told.push(op);
                    }
                    offset = next;
                    found += 1;
                },
                None => {
                    proof {
                        assert(told + Seq::<BatchOp>::empty() =~= told);
                    }
                    return Err(Error::Corruption);
                },
            }
        }
        proof {
            assert(body.skip(offset - HEADER) =~= Seq::<u8>::empty());
            assert(told + Seq::<BatchOp>::empty() =~= told);
        }
        if found as u64 != count(self) as u64 {
            Err(Error::Corruption)
        } else {
            Ok(())
        }
    }
}

/// Reads the record at `offset`: the type of the operation, its key, its
/// value (empty for a deletion), and the offset behind the record.
fn read_op<'a>(input: &'a [u8], offset: usize) -> (r: Option<
    (ValueType, Slice<'a>, Slice<'a>, usize),
>)
    requires
        offset < input@.len(),
    ensures
        match parse_op(input@.skip(offset as int)) {
            Some((op, n)) => r matches Some((kind, key, value, next)) && next == offset + n && n > 0
                && next <= input@.len() && match kind {
                ValueType::KTypeValue => op == (BatchOp::Put { key: key@, value: value@ }),
                ValueType::KTypeDeletion => op == (BatchOp::Delete { key: key@ }) && value@.len()
                    == 0,
            },
            None => r is None,
        },
{
    let len = input.len();
    let ghost here = input@.skip(offset as int);
    let tag = input[offset];
    let rest = vstd::slice::slice_subrange(input, offset + 1, len);
    proof {
        assert(here[0] == tag);
        assert(rest@ =~= here.skip(1));
    }
    let (key, n) = match get_length_prefixed_slice(rest) {
        Ok(found) => found,
        Err(_) => {
            return None;
        },
    };
    proof {
        lemma_length_prefixed_prefix(rest@, Seq::empty());
    }
    if tag == ValueType::KTypeValue.tag() {
        let after = vstd::slice::slice_subrange(input, offset + 1 + n, len);
        assert(after@ =~= here.skip(1 + n as int));
        let (value, m) = match get_length_prefixed_slice(after) {
            Ok(found) => found,
            Err(_) => {
                return None;
            },
        };
        proof {
            lemma_length_prefixed_prefix(after@, Seq::empty());
        }
        Some((ValueType::KTypeValue, key, value, offset + 1 + n + m))
    } else if tag == ValueType::KTypeDeletion.tag() {
        Some((ValueType::KTypeDeletion, key, Slice::from_empty(), offset + 1 + n))
    } else {
        None
    }
}

/// A batch that got one operation more holds it as its last.
proof fn lemma_pushed(rep: Seq<u8>, op: BatchOp)
    requires
        rep.len() >= HEADER,
        count_of(rep) < u32::MAX,
        match op {
            BatchOp::Put { key, value } => key.len() <= u32::MAX && value.len() <= u32::MAX,
            BatchOp::Delete { key } => key.len() <= u32::MAX,
        },
    ensures
        ({
            let after = with_count(rep, (count_of(rep) + 1) as u32) + op.bytes();
            &&& count_of(after) == count_of(rep) + 1
            &&& sequence_of(after) == sequence_of(rep)
            &&& records_ok(rep) ==> records_ok(after) && ops_of(after) == ops_of(rep).push(op)
        }),
{
    let n = (count_of(rep) + 1) as u32;
    let counted = with_count(rep, n);
    let after = counted + op.bytes();
    lemma_header(rep, n);
    assert(after.skip(HEADER as int) =~= rep.skip(HEADER as int) + op.bytes());
    assert(fixed32_value(after.skip(8)) == fixed32_value(counted.skip(8))) by {
        assert(after.skip(8)[0] == counted.skip(8)[0] && after.skip(8)[1] == counted.skip(8)[1]
            && after.skip(8)[2] == counted.skip(8)[2] && after.skip(8)[3] == counted.skip(8)[3]);
    }
    assert(fixed64_value(after) == fixed64_value(counted)) by {
        assert(after.skip(4)[0] == counted.skip(4)[0] && after.skip(4)[1] == counted.skip(4)[1]
            && after.skip(4)[2] == counted.skip(4)[2] && after.skip(4)[3] == counted.skip(4)[3]);
        assert(after[0] == counted[0] && after[1] == counted[1] && after[2] == counted[2]
            && after[3] == counted[3]);
    }
    if records_ok(rep) {
        lemma_parse_ops_push(rep.skip(HEADER as int), op);
    }
}

/// The count in the header of `b`.
pub fn count(b: &WriteBatch) -> (n: u32)
    requires
        b.wf(),
    ensures
        n == count_of(b@),
{
    let tail = vstd::slice::slice_subrange(b.rep.as_slice(), 8, b.rep.len());
    assert(tail@ =~= b@.skip(8));
    decode_fix32(tail)
}

/// Sets the count in the header of `b`.
pub fn set_count(b: &mut WriteBatch, n: u32)
    requires
        old(b).wf(),
    ensures
        final(b).wf(),
        final(b)@ == with_count(old(b)@, n),
        count_of(final(b)@) == n,
        sequence_of(final(b)@) == sequence_of(old(b)@),
        ops_of(final(b)@) == ops_of(old(b)@),
        records_ok(final(b)@) == records_ok(old(b)@),
{
    proof {
        lemma_header(b@, n);
    }
    encode_fixed32(b.rep.as_mut_slice(), n, 8);
}

/// The sequence number in the header of `b`.
pub fn sequence(b: &WriteBatch) -> (s: SequenceNumber)
    requires
        b.wf(),
    ensures
        s == sequence_of(b@),
{
    assert(b@.skip(0) =~= b@);
    decode_fixed64(b.rep.as_slice(), 0)
}

/// Adds the operations of `src` behind those of `dst`.
pub fn append(dst: &mut WriteBatch, src: &WriteBatch)
    requires
        old(dst).wf(),
        src.wf(),
        count_of(old(dst)@) + count_of(src@) <= u32::MAX,
    ensures
        final(dst).wf(),
        final(dst)@ == appended(old(dst)@, src@),
{
    set_count(dst, count(dst) + count(src));
    let ghost counted = dst@;
    let records = vstd::slice::slice_subrange(src.rep.as_slice(), HEADER, src.rep.len());
    dst.rep.extend_from_slice(records);
    assert(dst@ =~= counted + src@.skip(HEADER as int));
}

/// Makes `contents` the bytes of `b`.
pub fn set_contents(b: &mut WriteBatch, contents: &Slice)
    requires
        contents@.len() >= HEADER,
    ensures
        final(b).wf(),
        final(b)@ == contents@,
{
    b.rep.clear();
    b.rep.extend_from_slice(contents.data());
    assert(b@ =~= contents@);
}

/// The size of `batch` in bytes.
pub fn byte_size(batch: &WriteBatch) -> (n: usize)
    ensures
        n == batch@.len(),
{
    batch.rep.len()
}


/// Whether the entry `e` can be added to a memtable that holds `entries`.
pub open spec fn fits(entries: Seq<Entry>, e: Entry) -> bool {
    e.storable() && entries.len() < usize::MAX
}

/// The entries of a memtable that held `entries` after `ops` were applied
/// to it in turn, the first under the sequence number `sequence` and each
/// under the number after that of the one before; and whether all of them
/// were applied. Nothing is applied from the first operation on that does
/// not fit, or whose sequence number is too large.
pub open spec fn replay<C: Comparator>(
    user: &C,
    entries: Seq<Entry>,
    ops: Seq<BatchOp>,
    sequence: u64,
) -> (Seq<Entry>, bool)
    decreases ops.len(),
{
    if ops.len() == 0 {
        (entries, true)
    } else {
        let (so_far, all) = replay(user, entries, ops.drop_last(), sequence);
        let number = sequence + ops.len() - 1;
        let e = ops.last().entry(number as u64);
        if all && number <= MAX_SEQUENCE_NUMBER && fits(so_far, e) {
            (added(user, so_far, e), true)
        } else {
            (so_far, false)
        }
    }
}

/// Applies the operations that it is told of to a memtable, under
/// consecutive sequence numbers.
pub struct MemTableInserter<C: Comparator> {
    sequence: SequenceNumber,
    mem: MemTable<C>,
    /// Whether an operation could not be applied.
    failed: bool,
    start: Ghost<u64>,
    initial: Ghost<Seq<Entry>>,
    seen: Ghost<Seq<BatchOp>>,
}

/// Applies one operation to `mem` where the operations before it were all
/// applied and it fits; returns whether it was applied.
fn apply<C: Comparator>(
    mem: &mut MemTable<C>,
    sequence: SequenceNumber,
    failed: bool,
    kind: ValueType,
    key: &Slice,
    value: &Slice,
) -> (applied: bool)
    requires
        old(mem).wf(),
    ensures
        final(mem).wf(),
        final(mem).user() == old(mem).user(),
        ({
            let e = Entry { key: key@, sequence, kind, value: value@ };
            &&& applied == (!failed && sequence <= MAX_SEQUENCE_NUMBER && fits(old(mem)@, e))
            &&& final(mem)@ == if applied {
                added(old(mem).user(), old(mem)@, e)
            } else {
                old(mem)@
            }
        }),
{
    if !failed && sequence <= MAX_SEQUENCE_NUMBER && key.size() as u64 <= 0xffff_ffff - 8
        && value.size() as u64 <= 0xffff_ffff && mem.len() < usize::MAX {
        mem.add(sequence, kind, key, value);
        true
    } else {
        false
    }
}

impl<C: Comparator> MemTableInserter<C> {
    /// The memtable written to.
    pub closed spec fn mem(&self) -> MemTable<C> {
        self.mem
    }

    /// The order of the user keys.
    pub closed spec fn user(&self) -> &C {
        self.mem.user()
    }

    /// The sequence number of the first operation.
    pub closed spec fn start(&self) -> u64 {
        self.start@
    }

    /// What the memtable held at first.
    pub closed spec fn initial(&self) -> Seq<Entry> {
        self.initial@
    }

    /// Whether an operation could not be applied.
    pub closed spec fn spec_failed(&self) -> bool {
        self.failed
    }

    /// An inserter that applies operations to `mem`, the first under
    /// `sequence`.
    pub fn new(mem: MemTable<C>, sequence: SequenceNumber) -> (inserter: Self)
        requires
            mem.wf(),
        ensures
            inserter.ready(),
            inserter.seen() == Seq::<BatchOp>::empty(),
            inserter.start() == sequence,
            inserter.initial() == mem@,
            inserter.user() == mem.user(),
    {
        let ghost initial = mem@;
        MemTableInserter {
            mem,
            sequence,
            failed: false,
            start: Ghost(sequence),
            initial: Ghost(initial),
            seen: Ghost(Seq::empty()),
        }
    }

    /// Whether an operation could not be applied.
    pub fn failed(&self) -> (b: bool)
        requires
            self.ready(),
        ensures
            b == self.spec_failed(),
            b == !replay(self.user(), self.initial(), self.seen(), self.start()).1,
    {
        self.failed
    }

    /// Gives up the inserter for its memtable.
    pub fn into_mem(self) -> (mem: MemTable<C>)
        requires
            self.ready(),
        ensures
            mem.wf(),
            mem.user() == self.user(),
            mem@ == replay(self.user(), self.initial(), self.seen(), self.start()).0,
    {
        self.mem
    }

    /// Takes one operation: applies it where it can be applied, and
    /// remembers where it cannot.
    fn tell(&mut self, kind: ValueType, key: &Slice, value: &Slice, Ghost(op): Ghost<BatchOp>)
        requires
            old(self).ready(),
            op.entry(0) == (Entry { key: key@, sequence: 0, kind, value: value@ }),
        ensures
            final(self).ready(),
            final(self).seen() == old(self).seen().push(op),
            final(self).start() == old(self).start(),
            final(self).initial() == old(self).initial(),
            final(self).user() == old(self).user(),
    {
        let ghost before = self.seen@;
        proof {
            self.seen = Ghost(before.push(op));
            assert(self.seen@.drop_last() =~= before);
        }
        if apply(&mut self.mem, self.sequence, self.failed, kind, key, value) {
            self.sequence = self.sequence + 1;
        } else {
            self.failed = true;
        }
    }
}

impl<C: Comparator> Handler for MemTableInserter<C> {
    closed spec fn seen(&self) -> Seq<BatchOp> {
        self.seen@
    }

    closed spec fn ready(&self) -> bool {
        let (entries, all) = replay(self.mem.user(), self.initial@, self.seen@, self.start@);
        &&& self.mem.wf()
        &&& self.mem@ == entries
        &&& self.failed == !all
        &&& !self.failed ==> self.sequence == self.start@ + self.seen@.len()
    }

    fn put(&mut self, key: &Slice, value: &Slice) {
        self.tell(
            ValueType::KTypeValue,
            key,
            value,
            Ghost(BatchOp::Put { key: key@, value: value@ }),
        );
    }

    fn delete(&mut self, key: &Slice) {
        self.tell(
            ValueType::KTypeDeletion,
            key,
            &Slice::from_empty(),
            Ghost(BatchOp::Delete { key: key@ }),
        );
    }
}

/// Applies the operations of `b` to `mem`, the first under the sequence
/// number of `b` and each under the number after that of the one before.
/// Fails with `InvalidArgument` where an operation does not fit or a
/// sequence number is too large, and with `Corruption` where `b` is not
/// sound; the operations before the first that is malformed or does not
/// fit are applied.
#[verifier::rlimit(30)]
pub fn insert_into<C: Comparator>(b: &WriteBatch, mem: &mut MemTable<C>) -> (r: Result<(), Error>)
    requires
        b.wf(),
        old(mem).wf(),
    ensures
        final(mem).wf(),
        final(mem).user() == old(mem).user(),
        ({
            let (entries, all) = replay(old(mem).user(), old(mem)@, ops_of(b@), sequence_of(b@));
            &&& final(mem)@ == entries
            &&& r is Ok <==> all && sound(b@)
            &&& !all ==> r == Err::<(), Error>(Error::InvalidArgument)
            &&& all && !sound(b@) ==> r == Err::<(), Error>(Error::Corruption)
        }),
{
    let input = b.rep.as_slice();
    let len = input.len();
    let start = sequence(b);
    let mut number: SequenceNumber = start;
    let mut failed = false;
    let mut malformed = false;
    let mut offset: usize = HEADER;
    let mut found: usize = 0;
    let ghost body = b@.skip(HEADER as int);
    let ghost mut told: Seq<BatchOp> = Seq::empty();
    proof {
        assert(body.skip(0) =~= body);
    }
    while offset < len && !malformed
        invariant
            b.wf(),
            input@ == b@,
            len == b@.len(),
            start == sequence_of(b@),
            body == b@.skip(HEADER as int),
            HEADER <= offset <= len,
            found == told.len(),
            found <= offset,
            mem.wf(),
            mem.user() == old(mem).user(),
            (mem@, !failed) == replay(old(mem).user(), old(mem)@, told, start),
            !failed ==> number == start + told.len(),
            !malformed ==> parse_ops(body) == (
                told + parse_ops(body.skip(offset - HEADER)).0,
                parse_ops(body.skip(offset - HEADER)).1,
            ),
            malformed ==> parse_ops(body) == (told, false),
        decreases len - offset + if malformed { 0int } else { 1int },
    {
        let ghost here = body.skip(offset - HEADER);
        assert(input@.skip(offset as int) =~= here);
        match read_op(input, offset) {
            Some((kind, key, value, next)) => {
                let ghost op = parse_op(here).unwrap().0;
                let ghost before = told;
                proof {
                    let later = parse_ops(here.skip(next - offset)).0;
                    assert(here.skip(next - offset) =~= body.skip(next - HEADER));
                    assert(told + (seq![op] + later) =~= told.push(op) + later);
                    told = told.push(op);
                    assert(told.drop_last() =~= before);
                }
                let ghost held = mem@;
                let ghost was_failed = failed;
                let ghost this = number;
                if apply(mem, number, failed, kind, &key, &value) {
                    number = number + 1;
                } else {
                    failed = true;
                }
                proof {
                    let e = Entry { key: key@, sequence: this, kind, value: value@ };
                    assert(replay(old(mem).user(), old(mem)@, before, start) == (
                        held,
                        !was_failed,
                    ));
                    assert(told.last() == op);
                    if kind == ValueType::KTypeDeletion {
                        assert(value@ =~= Seq::<u8>::empty());
                    }
                    if !was_failed {
                        assert(op.entry((start + told.len() - 1) as u64) == e);
                    }
                }
                offset = next;
                found += 1;
            },
            None => {
                proof {
                    assert(told + Seq::<BatchOp>::empty() =~= told);
                }
                malformed = true;
            },
        }
    }
    proof {
        if !malformed {
            assert(body.skip(offset - HEADER) =~= Seq::<u8>::empty());
            assert(told + Seq::<BatchOp>::empty() =~= told);
        }
    }
    if failed {
        Err(Error::InvalidArgument)
    } else if malformed || found as u64 != count(b) as u64 {
        Err(Error::Corruption)
    } else {
        Ok(())
    }
}

} // verus!
