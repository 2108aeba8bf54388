//! Internal keys: a user key followed by a tag that packs the sequence
//! number and the kind of the entry.

use vstd::prelude::*;
use std::cmp::Ordering;
use crate::coding::{
    decode_fixed64, fixed64_bytes, fixed64_value, length_prefixed_bytes, put_fixed64, put_varint32,
    varint_bytes,
};
use crate::comparator::{agrees, bytewise, bytes_less, Comparator};
use crate::slice::Slice;

verus! {

/// The number of a write; every operation gets the next one.
pub type SequenceNumber = u64;

/// The largest sequence number: the tag leaves eight bits to the type.
pub const MAX_SEQUENCE_NUMBER: u64 = 0x00ff_ffff_ffff_ffff;

/// The kind of an entry.
#[derive(Clone, Copy, Debug, PartialEq, Eq, Structural)]
pub enum ValueType {
    /// The key was deleted.
    KTypeDeletion,
    /// The key was given a value.
    KTypeValue,
}

impl ValueType {
    /// The byte that stands for the type.
    pub open spec fn spec_tag(self) -> u8 {
        match self {
            ValueType::KTypeDeletion => 0,
            ValueType::KTypeValue => 1,
        }
    }

    /// The byte that stands for the type.
    #[verifier::when_used_as_spec(spec_tag)]
    pub fn tag(self) -> (t: u8)
        ensures
            t == self.spec_tag(),
    {
        match self {
            ValueType::KTypeDeletion => 0,
            ValueType::KTypeValue => 1,
        }
    }

    /// The type that `ordinal` stands for.
    pub fn from(ordinal: u8) -> (t: Self)
        requires
            ordinal <= 1,
        ensures
            t.spec_tag() == ordinal,
    {
        if ordinal == 0 {
            ValueType::KTypeDeletion
        } else {
            ValueType::KTypeValue
        }
    }
}

/// The type that a lookup carries in its tag: the larger of the two, so
/// that the lookup key sorts before every entry of its sequence number.
pub const VALUE_TYPE_FOR_SEEK: ValueType = ValueType::KTypeValue;

/// The tag of an entry: the sequence number above eight bits of type.
pub open spec fn pack(seq: u64, t: ValueType) -> u64 {
    (seq * 256 + t.spec_tag()) as u64
}

/// The tag of an entry: the sequence number above eight bits of type.
pub fn pack_sequence_and_type(seq: u64, t: ValueType) -> (tag: u64)
    requires
        seq <= MAX_SEQUENCE_NUMBER,
    ensures
        tag == pack(seq, t),
        tag / 256 == seq,
        tag % 256 == t.spec_tag(),
{
    seq * 256 + t.tag() as u64
}

/// The internal key of a user key: the key, then its tag in eight bytes.
pub open spec fn internal_key_bytes(user_key: Seq<u8>, seq: u64, t: ValueType) -> Seq<u8> {
    user_key + fixed64_bytes(pack(seq, t))
}

/// The user key of an internal key.
pub open spec fn user_key_of(ikey: Seq<u8>) -> Seq<u8> {
    ikey.take(ikey.len() - 8)
}

/// The tag of an internal key.
pub open spec fn tag_of(ikey: Seq<u8>) -> u64 {
    fixed64_value(ikey.skip(ikey.len() - 8))
}

/// An internal key gives back what it was made of.
pub proof fn lemma_internal_key_parts(user_key: Seq<u8>, seq: u64, t: ValueType)
    requires
        seq <= MAX_SEQUENCE_NUMBER,
    ensures
        internal_key_bytes(user_key, seq, t).len() == user_key.len() + 8,
        user_key_of(internal_key_bytes(user_key, seq, t)) == user_key,
        tag_of(internal_key_bytes(user_key, seq, t)) == pack(seq, t),
        pack(seq, t) / 256 == seq,
        pack(seq, t) % 256 == t.spec_tag(),
{
    let ikey = internal_key_bytes(user_key, seq, t);
    crate::coding::lemma_fixed64_round_trip(pack(seq, t), Seq::empty());
    assert(ikey.take(ikey.len() - 8) =~= user_key);
    assert(ikey.skip(ikey.len() - 8) =~= fixed64_bytes(pack(seq, t)) + Seq::<u8>::empty());
}

/// The order on internal keys: by user key as the user's comparator has
/// it, then by tag, the larger tag first. So of two entries of one user
/// key the one with the larger sequence number comes first, and of two
/// with the same number the one with the larger type.
#[verifier::opaque]
pub open spec fn internal_less<C: Comparator>(user: &C, a: Seq<u8>, b: Seq<u8>) -> bool {
    ||| user.less(user_key_of(a), user_key_of(b))
    ||| !user.less(user_key_of(b), user_key_of(a)) && tag_of(a) > tag_of(b)
}

/// The order on internal keys is a strict weak order.
pub proof fn lemma_internal_order<C: Comparator>(user: &C, a: Seq<u8>, b: Seq<u8>, c: Seq<u8>)
    ensures
        !internal_less(user, a, a),
        internal_less(user, a, b) && internal_less(user, b, c) ==> internal_less(user, a, c),
        internal_less(user, a, b) ==> internal_less(user, a, c) || internal_less(user, c, b),
{
    reveal(internal_less);
    let (ua, ub, uc) = (user_key_of(a), user_key_of(b), user_key_of(c));
    user.lemma_order(ua, ub, uc);
    user.lemma_order(ub, uc, ua);
    user.lemma_order(uc, ua, ub);
    user.lemma_order(ua, uc, ub);
    user.lemma_order(ub, ua, uc);
    user.lemma_order(uc, ub, ua);
    user.lemma_order(ua, ua, ua);
}

/// Compares internal keys: by user key, then by sequence number and type,
/// the newest first.
pub struct InternalKeyComparator<C: Comparator> {
    user_comparator: C,
}

impl<C: Comparator> InternalKeyComparator<C> {
    /// The user's comparator.
    pub closed spec fn user(&self) -> &C {
        &self.user_comparator
    }

    /// Whether the internal key `a` comes strictly before `b`.
    pub open spec fn less(&self, a: Seq<u8>, b: Seq<u8>) -> bool {
        internal_less(self.user(), a, b)
    }

    /// The order on internal keys that `comparator` induces.
    pub fn new(comparator: C) -> (c: Self)
        ensures
            *c.user() == comparator,
    {
        InternalKeyComparator { user_comparator: comparator }
    }

    /// The user's comparator.
    pub fn user_comparator(&self) -> (c: &C)
        ensures
            c == self.user(),
    {
        &self.user_comparator
    }

    /// Three-way comparison of two internal keys.
    pub fn compare(&self, akey: &Slice, bkey: &Slice) -> (o: Ordering)
        requires
            akey@.len() >= 8,
            bkey@.len() >= 8,
        ensures
            agrees(o, self.less(akey@, bkey@), self.less(bkey@, akey@)),
    {
        let a = akey.data();
        let b = bkey.data();
        let a_user = Slice::from_bytes(vstd::slice::slice_subrange(a, 0, a.len() - 8));
        let b_user = Slice::from_bytes(vstd::slice::slice_subrange(b, 0, b.len() - 8));
        proof {
            reveal(internal_less);
            self.user_comparator.lemma_order(a_user@, b_user@, a_user@);
        }
        match self.user_comparator.compare(&a_user, &b_user) {
            Ordering::Less => Ordering::Less,
            Ordering::Greater => Ordering::Greater,
            Ordering::Equal => {
                let anum = decode_fixed64(a, a.len() - 8);
                let bnum = decode_fixed64(b, b.len() - 8);
                if anum > bnum {
                    Ordering::Less
                } else if anum < bnum {
                    Ordering::Greater
                } else {
                    Ordering::Equal
                }
            },
        }
    }

    /// The name of the order.
    pub fn name(&self) -> (n: &'static str)
        ensures
            n@ == "revel.InternalKeyComparator"@,
    {
        "revel.InternalKeyComparator"
    }
}

/// The key with which the memtable is probed for a user key as of a
/// sequence number.
pub struct LookupKey {
    buf: Vec<u8>,
    start: usize,
    kstart: usize,
    end: usize,
    user_key: Ghost<Seq<u8>>,
    sequence: Ghost<u64>,
}

/// The bytes of a lookup key: the internal key of `user_key` at `seq`, with
/// the type for seeking, behind its length as a varint.
pub open spec fn lookup_key_bytes(user_key: Seq<u8>, seq: u64) -> Seq<u8> {
    length_prefixed_bytes(internal_key_bytes(user_key, seq, VALUE_TYPE_FOR_SEEK))
}

impl LookupKey {
    #[verifier::type_invariant]
    spec fn well_formed(&self) -> bool {
        &&& self.start == 0
        &&& self.end == self.buf@.len()
        &&& self.sequence@ <= MAX_SEQUENCE_NUMBER
        &&& self.user_key@.len() + 8 <= u32::MAX
        &&& self.kstart + self.user_key@.len() + 8 == self.end
        &&& self.buf@ == lookup_key_bytes(self.user_key@, self.sequence@)
        &&& self.buf@.subrange(self.kstart as int, self.end as int) == internal_key_bytes(
            self.user_key@,
            self.sequence@,
            VALUE_TYPE_FOR_SEEK,
        )
    }

    /// The user key looked for.
    pub closed spec fn spec_user_key(&self) -> Seq<u8> {
        self.user_key@
    }

    /// The sequence number as of which it is looked for.
    pub closed spec fn spec_sequence(&self) -> u64 {
        self.sequence@
    }

    /// The key that looks for `user_key` as of sequence number `s`.
    pub fn new(user_key: &Slice, s: SequenceNumber) -> (key: Self)
        requires
            s <= MAX_SEQUENCE_NUMBER,
            user_key@.len() + 8 <= u32::MAX,
        ensures
            key.spec_user_key() == user_key@,
            key.spec_sequence() == s,
    {
        let size = user_key.size();
        let mut buf: Vec<u8> = Vec::new();
        let kstart = put_varint32(&mut buf, (size + 8) as u32);
        buf.extend_from_slice(user_key.data());
        put_fixed64(&mut buf, pack_sequence_and_type(s, VALUE_TYPE_FOR_SEEK));
        let end = buf.len();
        proof {
            let ikey = internal_key_bytes(user_key@, s, VALUE_TYPE_FOR_SEEK);
            crate::coding::lemma_fixed64_round_trip(pack(s, VALUE_TYPE_FOR_SEEK), Seq::empty());
            crate::coding::lemma_varint_round_trip(
                (size + 8) as nat,
                Seq::empty(),
                crate::coding::varint_len((size + 8) as nat),
            );
            assert(buf@ =~= varint_bytes((size + 8) as nat) + ikey);
            assert(buf@.subrange(kstart as int, end as int) =~= ikey);
        }
        LookupKey { buf, start: 0, kstart, end, user_key: Ghost(user_key@), sequence: Ghost(s) }
    }

    /// The whole key, as the memtable stores keys: the internal key behind
    /// its length.
    pub fn memtable_key(&self) -> (s: Slice<'_>)
        ensures
            s@ == lookup_key_bytes(self.spec_user_key(), self.spec_sequence()),
            self.spec_sequence() <= MAX_SEQUENCE_NUMBER,
            self.spec_user_key().len() + 8 <= u32::MAX,
    {
        proof {
            use_type_invariant(self);
        }
        let s = Slice::from_bytes(
            vstd::slice::slice_subrange(self.buf.as_slice(), self.start, self.end),
        );
        assert(s@ =~= self.buf@);
        s
    }

    /// The internal key: the user key and the tag.
    pub fn internal_key(&self) -> (s: Slice<'_>)
        ensures
            s@ == internal_key_bytes(
                self.spec_user_key(),
                self.spec_sequence(),
                VALUE_TYPE_FOR_SEEK,
            ),
    {
        proof {
            use_type_invariant(self);
        }
        Slice::from_bytes(vstd::slice::slice_subrange(self.buf.as_slice(), self.kstart, self.end))
    }

    /// The user key.
    pub fn user_key(&self) -> (s: Slice<'_>)
        ensures
            s@ == self.spec_user_key(),
    {
        proof {
            use_type_invariant(self);
        }
        let s = Slice::from_bytes(
            vstd::slice::slice_subrange(self.buf.as_slice(), self.kstart, self.end - 8),
        );
        proof {
            let ikey = self.buf@.subrange(self.kstart as int, self.end as int);
            assert(s@ =~= ikey.take(ikey.len() - 8));
            assert(ikey.take(ikey.len() - 8) =~= self.user_key@);
        }
        s
    }
}

/// An internal key that owns its bytes.
pub struct InternalKey {
    rep: Vec<u8>,
}

impl View for InternalKey {
    type V = Seq<u8>;

    closed spec fn view(&self) -> Seq<u8> {
        self.rep@
    }
}

impl InternalKey {
    /// The empty key, which stands for no key.
    pub fn new() -> (key: Self)
        ensures
            key@ == Seq::<u8>::empty(),
    {
        InternalKey { rep: Vec::new() }
    }

    /// Takes the bytes of `s` as the key.
    pub fn decode_from(&mut self, s: &[u8])
        ensures
            final(self)@ == s@,
    {
        self.rep.clear();
        self.rep.extend_from_slice(s);
        assert(self.rep@ =~= s@);
    }

    /// The bytes of the key.
    pub fn encode(&self) -> (s: Slice<'_>)
        ensures
            s@ == self@,
    {
        Slice::from_bytes(self.rep.as_slice())
    }
}

/// Compares two keys byte by byte.
pub fn compare(akey: &Slice, bkey: &Slice) -> (o: Ordering)
    ensures
        agrees(o, bytes_less(akey@, bkey@), bytes_less(bkey@, akey@)),
{
    let r = bytewise(akey.data(), bkey.data());
    proof {
        crate::comparator::lemma_bytes_order(akey@, bkey@, akey@);
    }
    if r < 0 {
        Ordering::Less
    } else if r > 0 {
        Ordering::Greater
    } else {
        Ordering::Equal
    }
}

} // verus!
