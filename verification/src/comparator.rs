//! The order on user keys, as a capability that the caller supplies.

use vstd::prelude::*;
use std::cmp::Ordering;
use crate::slice::Slice;

verus! {

/// Whether `o` is the outcome of a comparison in which the left side is
/// smaller exactly if `less`, and larger exactly if `greater`.
pub open spec fn agrees(o: Ordering, less: bool, greater: bool) -> bool {
    match o {
        Ordering::Less => less,
        Ordering::Equal => !less && !greater,
        Ordering::Greater => greater && !less,
    }
}

/// An order on byte strings. Keys that neither precede nor follow one
/// another count as equal.
pub trait Comparator {
    /// Whether `a` comes strictly before `b`. An implementation that does
    /// not say how it orders is taken to order in any way.
    open spec fn less(&self, a: Seq<u8>, b: Seq<u8>) -> bool {
        arbitrary()
    }

    /// `less` is a strict weak order: nothing precedes itself, the order is
    /// transitive, and a key that precedes another precedes, or the other
    /// follows, any third.
    proof fn lemma_order(&self, a: Seq<u8>, b: Seq<u8>, c: Seq<u8>)
        ensures
            !self.less(a, a),
            self.less(a, b) && self.less(b, c) ==> self.less(a, c),
            self.less(a, b) ==> self.less(a, c) || self.less(c, b),
    ;

    /// Three-way comparison of `a` and `b`.
    fn compare(&self, a: &Slice, b: &Slice) -> (o: Ordering)
        ensures
            agrees(o, self.less(a@, b@), self.less(b@, a@)),
    ;

    /// The name of the order. An implementation that does not say what
    /// it is called is taken to have any name.
    open spec fn spec_name(&self) -> Seq<char> {
        arbitrary()
    }

    /// The name of the order, stored with the data it ordered.
    fn name(&self) -> (n: &str)
        ensures
            n@ == self.spec_name(),
    ;
}

/// Whether `a` comes before `b` byte by byte, a proper prefix before what
/// it is a prefix of.
pub open spec fn bytes_less(a: Seq<u8>, b: Seq<u8>) -> bool
    decreases a.len(),
{
    if b.len() == 0 {
        false
    } else if a.len() == 0 {
        true
    } else if a[0] != b[0] {
        a[0] < b[0]
    } else {
        bytes_less(a.skip(1), b.skip(1))
    }
}

proof fn lemma_bytes_irreflexive(a: Seq<u8>)
    ensures
        !bytes_less(a, a),
    decreases a.len(),
{
    if a.len() > 0 {
        lemma_bytes_irreflexive(a.skip(1));
    }
}

proof fn lemma_bytes_total(a: Seq<u8>, b: Seq<u8>)
    ensures
        !bytes_less(a, b) && !bytes_less(b, a) ==> a == b,
        !(bytes_less(a, b) && bytes_less(b, a)),
    decreases a.len(),
{
    if a.len() > 0 && b.len() > 0 {
        lemma_bytes_total(a.skip(1), b.skip(1));
        if !bytes_less(a, b) && !bytes_less(b, a) {
            assert(a =~= seq![a[0]] + a.skip(1));
            assert(b =~= seq![b[0]] + b.skip(1));
        }
    } else if !bytes_less(a, b) && !bytes_less(b, a) {
        assert(a =~= b);
    }
}

proof fn lemma_bytes_transitive(a: Seq<u8>, b: Seq<u8>, c: Seq<u8>)
    ensures
        bytes_less(a, b) && bytes_less(b, c) ==> bytes_less(a, c),
    decreases a.len(),
{
    if a.len() > 0 && b.len() > 0 && c.len() > 0 {
        lemma_bytes_transitive(a.skip(1), b.skip(1), c.skip(1));
    }
}

/// The bytewise order is a strict total order.
pub proof fn lemma_bytes_order(a: Seq<u8>, b: Seq<u8>, c: Seq<u8>)
    ensures
        !bytes_less(a, a),
        bytes_less(a, b) && bytes_less(b, c) ==> bytes_less(a, c),
        bytes_less(a, b) ==> bytes_less(a, c) || bytes_less(c, b),
        !bytes_less(a, b) && !bytes_less(b, a) ==> a == b,
        !(bytes_less(a, b) && bytes_less(b, a)),
{
    lemma_bytes_irreflexive(a);
    lemma_bytes_total(a, b);
    lemma_bytes_total(a, c);
    lemma_bytes_total(c, b);
    lemma_bytes_transitive(a, b, c);
    lemma_bytes_transitive(c, a, b);
    lemma_bytes_transitive(a, b, c);
    lemma_bytes_transitive(b, c, a);
}

/// Compares `a` and `b` byte by byte: -1 where `a` comes first, 1 where
/// `b` does, 0 where they are the same.
pub fn bytewise(a: &[u8], b: &[u8]) -> (r: i8)
    ensures
        r == -1 <==> bytes_less(a@, b@),
        r == 1 <==> bytes_less(b@, a@),
        r == 0 <==> a@ == b@,
        -1 <= r <= 1,
{
    let mut i: usize = 0;
    proof {
        assert(a@.skip(0) =~= a@);
        assert(b@.skip(0) =~= b@);
        lemma_bytes_order(a@, b@, a@);
        lemma_bytes_order(b@, a@, a@);
    }
    while i < a.len() && i < b.len()
        invariant
            i <= a@.len(),
            i <= b@.len(),
            bytes_less(a@, b@) == bytes_less(a@.skip(i as int), b@.skip(i as int)),
            bytes_less(b@, a@) == bytes_less(b@.skip(i as int), a@.skip(i as int)),
        decreases a@.len() - i,
    {
        proof {
            assert(a@.skip(i as int).skip(1) =~= a@.skip(i + 1));
            assert(b@.skip(i as int).skip(1) =~= b@.skip(i + 1));
        }
        if a[i] < b[i] {
            return -1;
        }
        if a[i] > b[i] {
            return 1;
        }
        i += 1;
    }
    if i < b.len() {
        -1
    } else if i < a.len() {
        1
    } else {
        0
    }
}

/// The order of keys byte by byte.
pub struct BytewiseComparator {}

impl BytewiseComparator {
    /// The bytewise order.
    pub fn new() -> Self {
        BytewiseComparator {  }
    }
}

impl Comparator for BytewiseComparator {
    open spec fn less(&self, a: Seq<u8>, b: Seq<u8>) -> bool {
        bytes_less(a, b)
    }

    proof fn lemma_order(&self, a: Seq<u8>, b: Seq<u8>, c: Seq<u8>) {
        lemma_bytes_order(a, b, c);
    }

    fn compare(&self, a: &Slice, b: &Slice) -> (o: Ordering) {
        let r = bytewise(a.data(), b.data());
        if r < 0 {
            Ordering::Less
        } else if r > 0 {
            Ordering::Greater
        } else {
            Ordering::Equal
        }
    }

    open spec fn spec_name(&self) -> Seq<char> {
        "leveldb.BytewiseComparator"@
    }

    fn name(&self) -> (n: &str) {
        "leveldb.BytewiseComparator"
    }
}

} // verus!
