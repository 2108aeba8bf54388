//! The memtable: the entries of recent writes, in memory, in the order of
//! their internal keys.

use vstd::prelude::*;
use std::cmp::Ordering;
use crate::coding::{
    decode_fixed64, fixed64_bytes, get_length_prefixed_slice, length_prefixed_bytes,
    length_prefixed_parse, length_prefixed_round_trip, put_fixed64, put_varint32, varint_bytes,
};
use crate::comparator::{agrees, Comparator};
use crate::dbformat::{
    internal_key_bytes, internal_less, lemma_internal_key_parts, lemma_internal_order, pack,
    pack_sequence_and_type, tag_of, user_key_of, InternalKeyComparator, LookupKey, SequenceNumber,
    ValueType, MAX_SEQUENCE_NUMBER, VALUE_TYPE_FOR_SEEK,
};
use crate::error::Error;
use crate::skiplist::{lemma_lower_bound, lower_bound, sorted, Cmp, Iter, SkipList};
use crate::slice::Slice;

verus! {

/// One write, as the memtable holds it.
pub struct Entry {
    pub key: Seq<u8>,
    pub sequence: u64,
    pub kind: ValueType,
    pub value: Seq<u8>,
}

impl Entry {
    /// The internal key of the entry.
    pub open spec fn internal_key(self) -> Seq<u8> {
        internal_key_bytes(self.key, self.sequence, self.kind)
    }

    /// The bytes that stand for the entry: the internal key behind its
    /// length, then the value behind its length.
    pub open spec fn bytes(self) -> Seq<u8> {
        length_prefixed_bytes(self.internal_key()) + length_prefixed_bytes(self.value)
    }

    /// Whether the entry can be stored: its sequence number fits the tag,
    /// and its key and value fit their length prefixes.
    pub open spec fn storable(self) -> bool {
        &&& self.sequence <= MAX_SEQUENCE_NUMBER
        &&& self.key.len() + 8 <= u32::MAX
        &&& self.value.len() <= u32::MAX
    }

    /// What a lookup of `key` as of `sequence` is compared as.
    pub open spec fn probe(key: Seq<u8>, sequence: u64) -> Entry {
        Entry { key, sequence, kind: VALUE_TYPE_FOR_SEEK, value: Seq::empty() }
    }
}

/// The internal key at the front of the stored bytes `s`; no bytes where
/// `s` does not start with a length-prefixed string.
#[verifier::opaque]
pub open spec fn stored_key(s: Seq<u8>) -> Seq<u8> {
    match length_prefixed_parse(s) {
        Some((key, n)) => key,
        None => Seq::empty(),
    }
}

/// Whether `a` comes before `b`: by user key, then the newer write first.
pub open spec fn entry_less<C: Comparator>(user: &C, a: Entry, b: Entry) -> bool {
    ||| user.less(a.key, b.key)
    ||| !user.less(b.key, a.key) && pack(a.sequence, a.kind) > pack(b.sequence, b.kind)
}

/// Whether two user keys are equal in the user's order.
pub open spec fn same_key<C: Comparator>(user: &C, a: Seq<u8>, b: Seq<u8>) -> bool {
    !user.less(a, b) && !user.less(b, a)
}

/// Whether no entry comes before an earlier one.
pub open spec fn entries_sorted<C: Comparator>(user: &C, entries: Seq<Entry>) -> bool {
    forall|i: int, j: int|
        0 <= i < j < entries.len() ==> !entry_less(user, #[trigger] entries[j], #[trigger] entries[i])
}

/// The first place in `entries`, taken as sorted, whose entry does not
/// come before `e`; the length of `entries` where every entry does.
#[verifier::opaque]
pub open spec fn first_not_less<C: Comparator>(user: &C, entries: Seq<Entry>, e: Entry) -> int
    decreases entries.len(),
{
    if entries.len() == 0 {
        0
    } else if entry_less(user, entries.last(), e) {
        entries.len() as int
    } else {
        first_not_less(user, entries.drop_last(), e)
    }
}

/// What a lookup of `key` as of `sequence` finds: the first entry that does
/// not come before the probe, where it is an entry of that key. That is
/// the newest write to the key with a sequence number of at most
/// `sequence`.
pub open spec fn lookup<C: Comparator>(
    user: &C,
    entries: Seq<Entry>,
    key: Seq<u8>,
    sequence: u64,
) -> Option<Entry> {
    let at = first_not_less(user, entries, Entry::probe(key, sequence));
    if 0 <= at < entries.len() && same_key(user, entries[at].key, key) {
        Some(entries[at])
    } else {
        None
    }
}

/// The order on entries is a strict weak order.
pub proof fn lemma_entry_order<C: Comparator>(user: &C, a: Entry, b: Entry, c: Entry)
    ensures
        !entry_less(user, a, a),
        entry_less(user, a, b) && entry_less(user, b, c) ==> entry_less(user, a, c),
        entry_less(user, a, b) ==> entry_less(user, a, c) || entry_less(user, c, b),
{
    user.lemma_order(a.key, b.key, c.key);
    user.lemma_order(b.key, c.key, a.key);
    user.lemma_order(c.key, a.key, b.key);
    user.lemma_order(a.key, c.key, b.key);
    user.lemma_order(b.key, a.key, c.key);
    user.lemma_order(c.key, b.key, a.key);
    user.lemma_order(a.key, a.key, a.key);
}

/// `first_not_less` is a place in the entries, or just behind them.
pub proof fn lemma_first_not_less_bounds<C: Comparator>(user: &C, entries: Seq<Entry>, e: Entry)
    ensures
        0 <= first_not_less(user, entries, e) <= entries.len(),
        added(user, entries, e).len() == entries.len() + 1,
    decreases entries.len(),
{
    reveal(first_not_less);
    if entries.len() > 0 && !entry_less(user, entries.last(), e) {
        lemma_first_not_less_bounds(user, entries.drop_last(), e);
    }
}

/// In sorted entries, exactly the entries before `first_not_less` come
/// before `e`.
pub proof fn lemma_first_not_less<C: Comparator>(user: &C, entries: Seq<Entry>, e: Entry)
    requires
        entries_sorted(user, entries),
    ensures
        0 <= first_not_less(user, entries, e) <= entries.len(),
        forall|i: int|
            0 <= i < entries.len() ==> (entry_less(user, #[trigger] entries[i], e) <==> i
                < first_not_less(user, entries, e)),
    decreases entries.len(),
{
    reveal(first_not_less);
    if entries.len() == 0 {
    } else if entry_less(user, entries.last(), e) {
        assert forall|i: int| 0 <= i < entries.len() implies entry_less(
            user,
            #[trigger] entries[i],
            e,
        ) by {
            if i < entries.len() - 1 {
                assert(!entry_less(user, entries[entries.len() - 1], entries[i]));
                lemma_entry_order(user, entries.last(), e, entries[i]);
            }
        }
    } else {
        let front = entries.drop_last();
        assert forall|i: int, j: int| 0 <= i < j < front.len() implies !entry_less(
            user,
            #[trigger] front[j],
            #[trigger] front[i],
        ) by {
            assert(front[j] == entries[j] && front[i] == entries[i]);
        }
        lemma_first_not_less(user, front, e);
        assert forall|i: int| 0 <= i < entries.len() implies (entry_less(
            user,
            #[trigger] entries[i],
            e,
        ) <==> i < first_not_less(user, entries, e)) by {
            if i < front.len() {
                assert(front[i] == entries[i]);
            }
        }
    }
}

/// The place at which sorted entries divide into those that come before
/// `e` and the others is `first_not_less`.
pub proof fn lemma_first_not_less_is<C: Comparator>(
    user: &C,
    entries: Seq<Entry>,
    e: Entry,
    at: int,
)
    requires
        entries_sorted(user, entries),
        0 <= at <= entries.len(),
        forall|i: int| 0 <= i < at ==> entry_less(user, #[trigger] entries[i], e),
        at < entries.len() ==> !entry_less(user, entries[at], e),
    ensures
        first_not_less(user, entries, e) == at,
{
    lemma_first_not_less(user, entries, e);
    if at > 0 {
        assert(entry_less(user, entries[at - 1], e));
    }
}

/// An entry that is put at `first_not_less` leaves sorted entries sorted.
pub proof fn lemma_entry_insert_sorted<C: Comparator>(user: &C, entries: Seq<Entry>, e: Entry)
    requires
        entries_sorted(user, entries),
    ensures
        entries_sorted(user, entries.insert(first_not_less(user, entries, e), e)),
{
    lemma_first_not_less(user, entries, e);
    let at = first_not_less(user, entries, e);
    let after = entries.insert(at, e);
    assert forall|i: int, j: int| 0 <= i < j < after.len() implies !entry_less(
        user,
        #[trigger] after[j],
        #[trigger] after[i],
    ) by {
        lemma_entry_order(user, e, e, e);
        if j == at {
            assert(after[i] == entries[i]);
            assert(entry_less(user, entries[i], e));
            lemma_entry_order(user, e, entries[i], e);
        } else if i == at {
            assert(after[j] == entries[j - 1]);
            assert(!entry_less(user, entries[j - 1], e));
        } else {
            let a = if i < at {
                i
            } else {
                i - 1
            };
            let b = if j < at {
                j
            } else {
                j - 1
            };
            assert(after[i] == entries[a] && after[j] == entries[b]);
            assert(!entry_less(user, entries[b], entries[a]));
        }
    }
}

/// The stored bytes of an entry give back its parts.
pub proof fn lemma_entry_parts(e: Entry)
    requires
        e.storable(),
    ensures
        length_prefixed_parse(e.bytes()) == Some(
            (e.internal_key(), length_prefixed_bytes(e.internal_key()).len()),
        ),
        stored_key(e.bytes()) == e.internal_key(),
        e.internal_key().len() == e.key.len() + 8,
        user_key_of(e.internal_key()) == e.key,
        tag_of(e.internal_key()) == pack(e.sequence, e.kind),
        length_prefixed_parse(
            e.bytes().skip(length_prefixed_bytes(e.internal_key()).len() as int),
        ) == Some((e.value, length_prefixed_bytes(e.value).len())),
{
    reveal(stored_key);
    let ikey = e.internal_key();
    let head = length_prefixed_bytes(ikey);
    let tail = length_prefixed_bytes(e.value);
    lemma_internal_key_parts(e.key, e.sequence, e.kind);
    length_prefixed_round_trip(ikey, tail);
    length_prefixed_round_trip(e.value, Seq::empty());
    assert(e.bytes().skip(head.len() as int) =~= tail + Seq::<u8>::empty());
}

/// The internal key at the front of a stored entry is the entry's.
pub proof fn lemma_stored_key(e: Entry)
    requires
        e.storable(),
    ensures
        stored_key(e.bytes()) == e.internal_key(),
        length_prefixed_parse(e.bytes()) is Some,
        e.internal_key().len() >= 8,
{
    lemma_entry_parts(e);
}

/// The internal key at the front of a lookup key is that of its probe.
pub proof fn lemma_probe_key(key: Seq<u8>, sequence: u64)
    requires
        Entry::probe(key, sequence).storable(),
    ensures
        stored_key(crate::dbformat::lookup_key_bytes(key, sequence)) == Entry::probe(
            key,
            sequence,
        ).internal_key(),
        length_prefixed_parse(crate::dbformat::lookup_key_bytes(key, sequence)) is Some,
        Entry::probe(key, sequence).internal_key().len() >= 8,
{
    reveal(stored_key);
    let wanted = Entry::probe(key, sequence);
    length_prefixed_round_trip(wanted.internal_key(), Seq::empty());
    lemma_internal_key_parts(wanted.key, wanted.sequence, wanted.kind);
    assert(crate::dbformat::lookup_key_bytes(key, sequence) =~= length_prefixed_bytes(
        wanted.internal_key(),
    ) + Seq::<u8>::empty());
}

/// Compares stored entries by the internal keys at their front.
pub struct KeyComparator<C: Comparator> {
    comparator: InternalKeyComparator<C>,
}

impl<C: Comparator> KeyComparator<C> {
    /// The order on internal keys.
    pub closed spec fn internal(&self) -> &InternalKeyComparator<C> {
        &self.comparator
    }

    /// The order on stored entries that `comparator` induces.
    pub fn new(comparator: InternalKeyComparator<C>) -> (c: Self)
        ensures
            *c.internal() == comparator,
    {
        KeyComparator { comparator }
    }

    /// The order on internal keys.
    pub fn internal_comparator(&self) -> (c: &InternalKeyComparator<C>)
        ensures
            c == self.internal(),
    {
        &self.comparator
    }
}

impl<C: Comparator> Cmp<Vec<u8>> for KeyComparator<C> {
    open spec fn valid(&self, k: Vec<u8>) -> bool {
        length_prefixed_parse(k@) is Some && stored_key(k@).len() >= 8
    }


    open spec fn less(&self, a: Vec<u8>, b: Vec<u8>) -> bool {
        internal_less(self.internal().user(), stored_key(a@), stored_key(b@))
    }

    proof fn lemma_order(&self, a: Vec<u8>, b: Vec<u8>, c: Vec<u8>) {
        lemma_internal_order(
            self.internal().user(),
            stored_key(a@),
            stored_key(b@),
            stored_key(c@),
        );
    }

    fn compare(&self, a: &Vec<u8>, b: &Vec<u8>) -> (o: Ordering) {
        proof {
            reveal(stored_key);
        }
        match (get_length_prefixed_slice(a.as_slice()), get_length_prefixed_slice(b.as_slice())) {
            (Ok((akey, _)), Ok((bkey, _))) => self.comparator.compare(&akey, &bkey),
            _ => vstd::pervasive::unreached(),
        }
    }
}


/// Stored entries are ordered as the entries they stand for.
pub proof fn lemma_less_agrees<C: Comparator>(user: &C, a: Entry, b: Entry)
    requires
        a.storable(),
        b.storable(),
    ensures
        internal_less(user, a.internal_key(), b.internal_key()) == entry_less(user, a, b),
{
    reveal(internal_less);
    lemma_internal_key_parts(a.key, a.sequence, a.kind);
    lemma_internal_key_parts(b.key, b.sequence, b.kind);
}

/// Whether the stored byte strings `table` stand for `entries`, one for
/// one.
pub open spec fn stands_for(table: Seq<Vec<u8>>, entries: Seq<Entry>) -> bool {
    &&& table.len() == entries.len()
    &&& forall|i: int|
        0 <= i < table.len() ==> (#[trigger] table[i])@ == entries[i].bytes()
            && entries[i].storable()
}

/// The lower bound of a stored key among stored entries is the place of
/// the first entry that does not come before what the key stands for.
#[verifier::rlimit(30)]
pub proof fn lemma_bound_agrees<C: Comparator>(
    order: &KeyComparator<C>,
    table: Seq<Vec<u8>>,
    entries: Seq<Entry>,
    key: Vec<u8>,
    e: Entry,
)
    requires
        stands_for(table, entries),
        e.storable(),
        stored_key(key@) == e.internal_key(),
    ensures
        lower_bound(order, table, key) == first_not_less(order.internal().user(), entries, e),
    decreases table.len(),
{
    reveal(lower_bound);
    reveal(first_not_less);
    if table.len() > 0 {
        let last = entries.last();
        assert(table[table.len() - 1]@ == entries[table.len() - 1].bytes());
        assert(table.last()@ == last.bytes() && last.storable());
        lemma_stored_key(last);
        lemma_less_agrees(order.internal().user(), last, e);
        assert(order.less(table.last(), key) == entry_less(order.internal().user(), last, e));
        assert forall|i: int| 0 <= i < table.len() - 1 implies (#[trigger] table.drop_last()[i])@
            == entries.drop_last()[i].bytes() && entries.drop_last()[i].storable() by {
            assert(table.drop_last()[i] == table[i]);
        }
        lemma_bound_agrees(order, table.drop_last(), entries.drop_last(), key, e);
    }
}

/// The bytes that stand for an entry: the internal key behind its length,
/// then the value behind its length.
fn encode_entry(seq: SequenceNumber, value_type: ValueType, key: &Slice, value: &Slice) -> (buf:
    Vec<u8>)
    requires
        (Entry { key: key@, sequence: seq, kind: value_type, value: value@ }).storable(),
    ensures
        buf@ == (Entry { key: key@, sequence: seq, kind: value_type, value: value@ }).bytes(),
{
    let key_size = key.size();
    let val_size = value.size();
    let mut buf: Vec<u8> = Vec::new();
    put_varint32(&mut buf, (key_size + 8) as u32);
    buf.extend_from_slice(key.data());
    put_fixed64(&mut buf, pack_sequence_and_type(seq, value_type));
    put_varint32(&mut buf, val_size as u32);
    buf.extend_from_slice(value.data());
    proof {
        let e = Entry { key: key@, sequence: seq, kind: value_type, value: value@ };
        lemma_internal_key_parts(e.key, e.sequence, e.kind);
        assert(buf@ =~= e.bytes());
    }
    buf
}

/// The user key, the tag and the value of a stored entry.
#[verifier::rlimit(30)]
fn decode_entry<'a>(buf: &'a [u8], Ghost(e): Ghost<Entry>) -> (r: (Slice<'a>, u64, Slice<'a>))
    requires
        buf@ == e.bytes(),
        e.storable(),
    ensures
        r.0@ == e.key,
        r.1 == pack(e.sequence, e.kind),
        r.1 % 256 == e.kind.spec_tag(),
        r.2@ == e.value,
{
    proof {
        lemma_entry_parts(e);
    }
    let (internal_key, key_end) = match get_length_prefixed_slice(buf) {
        Ok(found) => found,
        Err(_) => vstd::pervasive::unreached(),
    };
    let data = internal_key.data();
    let user_key = Slice::from_bytes(vstd::slice::slice_subrange(data, 0, data.len() - 8));
    let tag = decode_fixed64(data, data.len() - 8);
    let rest = vstd::slice::slice_subrange(buf, key_end, buf.len());
    assert(rest@ =~= e.bytes().skip(key_end as int));
    let value = match get_length_prefixed_slice(rest) {
        Ok((value, _)) => value,
        Err(_) => vstd::pervasive::unreached(),
    };
    (user_key, tag, value)
}

/// The entries of recent writes, newest first for each key.
pub struct MemTable<C: Comparator> {
    table: SkipList<Vec<u8>, KeyComparator<C>>,
    entries: Ghost<Seq<Entry>>,
}

impl<C: Comparator> View for MemTable<C> {
    type V = Seq<Entry>;

    closed spec fn view(&self) -> Seq<Entry> {
        self.entries@
    }
}

impl<C: Comparator> MemTable<C> {
    /// The order of the user keys.
    pub closed spec fn user(&self) -> &C {
        self.table.key_order().internal().user()
    }

    /// The invariant of a memtable: its stored entries are well-formed and
    /// sorted by internal key.
    pub closed spec fn wf(&self) -> bool {
        &&& self.table.wf()
        &&& stands_for(self.table@, self.entries@)
    }

    /// The entries of a memtable are sorted and can be stored.
    pub proof fn lemma_sorted(&self)
        requires
            self.wf(),
        ensures
            entries_sorted(self.user(), self@),
            forall|i: int| 0 <= i < self@.len() ==> (#[trigger] self@[i]).storable(),
    {
        self.table.lemma_sorted();
        let order = self.table.key_order();
        let table = self.table@;
        let entries = self.entries@;
        assert forall|i: int, j: int| 0 <= i < j < entries.len() implies !entry_less(
            self.user(),
            #[trigger] entries[j],
            #[trigger] entries[i],
        ) by {
            assert(!order.less(table[j], table[i]));
            assert(table[i]@ == entries[i].bytes() && table[j]@ == entries[j].bytes());
            lemma_entry_parts(entries[i]);
            lemma_entry_parts(entries[j]);
            lemma_less_agrees(self.user(), entries[j], entries[i]);
        }
        assert forall|i: int| 0 <= i < self@.len() implies (#[trigger] self@[i]).storable() by {
            assert(table[i]@ == entries[i].bytes());
        }
    }

    /// An empty memtable whose keys `comparator` orders.
    pub fn new(comparator: InternalKeyComparator<C>) -> (mem: Self)
        ensures
            mem.wf(),
            mem@ == Seq::<Entry>::empty(),
            mem.user() == comparator.user(),
    {
        MemTable {
            table: SkipList::new(KeyComparator::new(comparator)),
            entries: Ghost(Seq::empty()),
        }
    }

    /// The number of entries.
    pub fn len(&self) -> (n: usize)
        requires
            self.wf(),
        ensures
            n == self@.len(),
    {
        self.table.len()
    }

    /// Adds the write of `value` to `key` under the sequence number
    /// `seq`; for a deletion `value` is empty. The entry goes before the
    /// entries that do not come before it.
    #[verifier::rlimit(30)]
    pub fn add(&mut self, seq: SequenceNumber, value_type: ValueType, key: &Slice, value: &Slice)
        requires
            old(self).wf(),
            old(self)@.len() < usize::MAX,
            (Entry { key: key@, sequence: seq, kind: value_type, value: value@ }).storable(),
        ensures
            final(self).wf(),
            final(self).user() == old(self).user(),
            ({
                let e = Entry { key: key@, sequence: seq, kind: value_type, value: value@ };
                final(self)@ == old(self)@.insert(first_not_less(old(self).user(), old(self)@, e), e)
            }),
    {
        let ghost e = Entry { key: key@, sequence: seq, kind: value_type, value: value@ };
        let buf = encode_entry(seq, value_type, key, value);
        proof {
            lemma_stored_key(e);
            lemma_bound_agrees(self.table.key_order(), self.table@, self.entries@, buf, e);
            self.lemma_sorted();
            lemma_first_not_less(self.user(), self.entries@, e);
        }
        let ghost at = first_not_less(self.user(), self.entries@, e);
        let ghost before = self.table@;
        self.table.insert(buf);
        proof {
            self.entries = Ghost(self.entries@.insert(at, e));
            assert forall|i: int| 0 <= i < self.table@.len() implies (#[trigger] self.table@[i])@
                == self.entries@[i].bytes() && self.entries@[i].storable() by {
                if i < at {
                    assert(self.table@[i] == before[i]);
                } else if i > at {
                    assert(self.table@[i] == before[i - 1]);
                }
            }
        }
    }

    /// Whether two user keys are equal in the user's order.
    fn same_user_key(&self, a: &Slice, b: &Slice) -> (r: bool)
        ensures
            r == same_key(self.user(), a@, b@),
    {
        proof {
            self.user().lemma_order(a@, b@, a@);
        }
        match self.table.comparator().internal_comparator().user_comparator().compare(a, b) {
            Ordering::Equal => true,
            _ => false,
        }
    }

    /// Looks `key` up. Where the memtable holds a value for the key as of
    /// the lookup's sequence number, returns `(true, Ok(value))`; where it
    /// holds a deletion, `(true, Err(NotFound))`; where it holds neither,
    /// `(false, Err(NotFound))`.
    #[verifier::rlimit(30)]
    pub fn get(&self, key: &LookupKey) -> (r: (bool, Result<Vec<u8>, Error>))
        requires
            self.wf(),
        ensures
            match lookup(self.user(), self@, key.spec_user_key(), key.spec_sequence()) {
                Some(e) => r.0 && match e.kind {
                    ValueType::KTypeValue => r.1 matches Ok(v) && v@ == e.value,
                    ValueType::KTypeDeletion => r.1 == Err::<Vec<u8>, Error>(Error::NotFound),
                },
                None => !r.0 && r.1 == Err::<Vec<u8>, Error>(Error::NotFound),
            },
    {
        let memkey = key.memtable_key();
        let probe: Vec<u8> = vstd::slice::slice_to_vec(memkey.data());
        let ghost wanted = Entry::probe(key.spec_user_key(), key.spec_sequence());
        proof {
            lemma_probe_key(key.spec_user_key(), key.spec_sequence());
            lemma_bound_agrees(self.table.key_order(), self.table@, self.entries@, probe, wanted);
            self.lemma_sorted();
            lemma_first_not_less(self.user(), self.entries@, wanted);
        }
        let mut iter = Iter::new(&self.table);
        iter.seek(&probe);
        if !iter.valid() {
            return (false, Err(Error::NotFound));
        }
        let ghost at = first_not_less(self.user(), self.entries@, wanted);
        let ghost e = self.entries@[at];
        let buf: &Vec<u8> = iter.key();
        proof {
            assert(self.table@[at]@ == e.bytes() && e.storable());
        }
        let (user_key, tag, value) = decode_entry(buf.as_slice(), Ghost(e));
        if !self.same_user_key(&user_key, &key.user_key()) {
            return (false, Err(Error::NotFound));
        }
        match ValueType::from((tag % 256) as u8) {
            ValueType::KTypeValue => (true, Ok(vstd::slice::slice_to_vec(value.data()))),
            ValueType::KTypeDeletion => (true, Err(Error::NotFound)),
        }
    }
}


/// The entries after `e` was added to `entries`.
pub open spec fn added<C: Comparator>(user: &C, entries: Seq<Entry>, e: Entry) -> Seq<Entry> {
    entries.insert(first_not_less(user, entries, e), e)
}

/// Whether a lookup of `key` as of `sequence` sees the entry `e`.
pub open spec fn visible<C: Comparator>(user: &C, e: Entry, key: Seq<u8>, sequence: u64) -> bool {
    same_key(user, e.key, key) && e.sequence <= sequence
}

/// Among entries of one key, an entry comes before a probe exactly if its
/// sequence number is larger than the probe's.
proof fn lemma_probe_order<C: Comparator>(user: &C, e: Entry, key: Seq<u8>, sequence: u64)
    requires
        e.sequence <= MAX_SEQUENCE_NUMBER,
        sequence <= MAX_SEQUENCE_NUMBER,
    ensures
        same_key(user, e.key, key) ==> (entry_less(user, e, Entry::probe(key, sequence))
            <==> e.sequence > sequence),
        user.less(e.key, key) ==> entry_less(user, e, Entry::probe(key, sequence)),
        user.less(key, e.key) ==> !entry_less(user, e, Entry::probe(key, sequence)),
{
    user.lemma_order(e.key, key, e.key);
}

/// An entry that is added is found by every lookup that sees it and sees
/// no newer entry of its key.
pub proof fn lemma_lookup_added<C: Comparator>(
    user: &C,
    entries: Seq<Entry>,
    e: Entry,
    key: Seq<u8>,
    sequence: u64,
)
    requires
        entries_sorted(user, entries),
        forall|i: int| 0 <= i < entries.len() ==> (#[trigger] entries[i]).storable(),
        e.storable(),
        sequence <= MAX_SEQUENCE_NUMBER,
        visible(user, e, key, sequence),
        forall|i: int|
            0 <= i < entries.len() && visible(user, #[trigger] entries[i], key, sequence) ==> pack(
                entries[i].sequence,
                entries[i].kind,
            ) < pack(e.sequence, e.kind),
    ensures
        lookup(user, added(user, entries, e), key, sequence) == Some(e),
{
    let probe = Entry::probe(key, sequence);
    let at = first_not_less(user, entries, e);
    let after = added(user, entries, e);
    lemma_first_not_less(user, entries, e);
    lemma_entry_insert_sorted(user, entries, e);
    lemma_probe_order(user, e, key, sequence);
    assert forall|i: int| 0 <= i < at implies entry_less(user, #[trigger] after[i], probe) by {
        let x = entries[i];
        assert(after[i] == x);
        assert(entry_less(user, x, e));
        assert(x.storable());
        lemma_probe_order(user, x, key, sequence);
        user.lemma_order(x.key, e.key, key);
        user.lemma_order(key, e.key, x.key);
        user.lemma_order(e.key, key, x.key);
        user.lemma_order(x.key, key, e.key);
        user.lemma_order(key, x.key, e.key);
        user.lemma_order(e.key, x.key, key);
        if same_key(user, x.key, key) && x.sequence <= sequence {
            assert(visible(user, entries[i], key, sequence));
            assert(pack(x.sequence, x.kind) < pack(e.sequence, e.kind));
        }
    }
    assert(after[at] == e);
    lemma_first_not_less_is(user, after, probe, at);
}

/// An entry that is added changes no lookup that does not see it.
pub proof fn lemma_lookup_unseen<C: Comparator>(
    user: &C,
    entries: Seq<Entry>,
    e: Entry,
    key: Seq<u8>,
    sequence: u64,
)
    requires
        entries_sorted(user, entries),
        forall|i: int| 0 <= i < entries.len() ==> (#[trigger] entries[i]).storable(),
        e.storable(),
        sequence <= MAX_SEQUENCE_NUMBER,
        !visible(user, e, key, sequence),
    ensures
        lookup(user, added(user, entries, e), key, sequence) == lookup(
            user,
            entries,
            key,
            sequence,
        ),
{
    let probe = Entry::probe(key, sequence);
    let at = first_not_less(user, entries, e);
    let from = first_not_less(user, entries, probe);
    let after = added(user, entries, e);
    lemma_first_not_less(user, entries, e);
    lemma_first_not_less(user, entries, probe);
    lemma_entry_insert_sorted(user, entries, e);
    lemma_probe_order(user, e, key, sequence);
    user.lemma_order(e.key, key, e.key);
    if entry_less(user, e, probe) {
        // The new entry comes before the probe, and so before what the
        // probe finds.
        assert(at <= from) by {
            if from < at {
                assert(entry_less(user, entries[from], e));
                lemma_entry_order(user, entries[from], e, probe);
            }
        }
        assert forall|i: int| 0 <= i < from + 1 implies entry_less(
            user,
            #[trigger] after[i],
            probe,
        ) by {
            if i < at {
                assert(after[i] == entries[i]);
            } else if i > at {
                assert(after[i] == entries[i - 1]);
            }
        }
        if from < entries.len() {
            assert(after[from + 1] == entries[from]);
        }
        lemma_first_not_less_is(user, after, probe, from + 1);
    } else {
        // The new entry does not come before the probe: it is an entry
        // of a later key.
        assert(user.less(key, e.key));
        assert(from <= at) by {
            if at < from {
                assert(entry_less(user, entries[at], probe));
                lemma_entry_order(user, entries[at], probe, e);
            }
        }
        assert forall|i: int| 0 <= i < from implies entry_less(user, #[trigger] after[i], probe) by {
            assert(after[i] == entries[i]);
        }
        if from < at {
            assert(after[from] == entries[from]);
        } else {
            assert(after[from] == e);
            if from < entries.len() {
                let x = entries[from];
                assert(!entry_less(user, x, e));
                user.lemma_order(key, e.key, x.key);
                user.lemma_order(x.key, key, e.key);
                user.lemma_order(x.key, e.key, key);
            }
        }
        lemma_first_not_less_is(user, after, probe, from);
    }
}

/// The sequence number decides the order of tags.
proof fn lemma_pack_order(a: u64, ka: ValueType, b: u64, kb: ValueType)
    requires
        a < b <= MAX_SEQUENCE_NUMBER,
    ensures
        pack(a, ka) < pack(b, kb),
{
}

/// Of two values written to a key of which the memtable held no entry, a
/// lookup finds the second from the second's sequence number on, the first
/// from the first's on up to there, and nothing before that.
pub proof fn memtable_freshness<C: Comparator>(
    user: &C,
    entries: Seq<Entry>,
    key: Seq<u8>,
    s1: u64,
    v1: Seq<u8>,
    s2: u64,
    v2: Seq<u8>,
    s: u64,
)
    requires
        entries_sorted(user, entries),
        forall|i: int| 0 <= i < entries.len() ==> (#[trigger] entries[i]).storable(),
        forall|i: int| 0 <= i < entries.len() ==> !same_key(user, (#[trigger] entries[i]).key, key),
        s1 < s2 <= MAX_SEQUENCE_NUMBER,
        s <= MAX_SEQUENCE_NUMBER,
        key.len() + 8 <= u32::MAX,
        v1.len() <= u32::MAX,
        v2.len() <= u32::MAX,
    ensures
        ({
            let first = Entry { key, sequence: s1, kind: ValueType::KTypeValue, value: v1 };
            let second = Entry { key, sequence: s2, kind: ValueType::KTypeValue, value: v2 };
            let after = added(user, added(user, entries, first), second);
            &&& s >= s2 ==> lookup(user, after, key, s) == Some(second)
            &&& s1 <= s < s2 ==> lookup(user, after, key, s) == Some(first)
            &&& s < s1 ==> lookup(user, after, key, s) is None
        }),
{
    let first = Entry { key, sequence: s1, kind: ValueType::KTypeValue, value: v1 };
    let second = Entry { key, sequence: s2, kind: ValueType::KTypeValue, value: v2 };
    let middle = added(user, entries, first);
    let at = first_not_less(user, entries, first);
    lemma_first_not_less(user, entries, first);
    lemma_entry_insert_sorted(user, entries, first);
    user.lemma_order(key, key, key);
    assert forall|i: int| 0 <= i < middle.len() implies (#[trigger] middle[i]).storable() && (
    middle[i] == first || !same_key(user, middle[i].key, key)) by {
        if i < at {
            assert(middle[i] == entries[i]);
        } else if i > at {
            assert(middle[i] == entries[i - 1]);
        }
    }
    if s >= s2 {
        lemma_pack_order(s1, ValueType::KTypeValue, s2, ValueType::KTypeValue);
        lemma_lookup_added(user, middle, second, key, s);
    } else {
        lemma_lookup_unseen(user, middle, second, key, s);
        if s >= s1 {
            lemma_lookup_added(user, entries, first, key, s);
        } else {
            lemma_lookup_unseen(user, entries, first, key, s);
            lemma_first_not_less(user, entries, Entry::probe(key, s));
        }
    }
}

/// A deletion that is newer than every entry of its key hides the key: a
/// lookup as of the deletion's sequence number or a later one finds the
/// deletion.
pub proof fn memtable_tombstone<C: Comparator>(
    user: &C,
    entries: Seq<Entry>,
    key: Seq<u8>,
    s: u64,
    later: u64,
)
    requires
        entries_sorted(user, entries),
        forall|i: int| 0 <= i < entries.len() ==> (#[trigger] entries[i]).storable(),
        forall|i: int|
            0 <= i < entries.len() && same_key(user, (#[trigger] entries[i]).key, key)
                ==> entries[i].sequence < s,
        s <= later <= MAX_SEQUENCE_NUMBER,
        key.len() + 8 <= u32::MAX,
    ensures
        ({
            let tombstone = Entry {
                key,
                sequence: s,
                kind: ValueType::KTypeDeletion,
                value: Seq::empty(),
            };
            lookup(user, added(user, entries, tombstone), key, later) == Some(tombstone)
        }),
{
    let tombstone = Entry { key, sequence: s, kind: ValueType::KTypeDeletion, value: Seq::empty() };
    user.lemma_order(key, key, key);
    assert forall|i: int|
        0 <= i < entries.len() && visible(user, #[trigger] entries[i], key, later) implies pack(
        entries[i].sequence,
        entries[i].kind,
    ) < pack(tombstone.sequence, tombstone.kind) by {
        lemma_pack_order(entries[i].sequence, entries[i].kind, s, ValueType::KTypeDeletion);
    }
    lemma_lookup_added(user, entries, tombstone, key, later);
}

} // verus!
