use revel::comparator::{bytewise, BytewiseComparator, Comparator};
use revel::dbformat::{
    compare, pack_sequence_and_type, InternalKey, InternalKeyComparator, LookupKey, ValueType,
    MAX_SEQUENCE_NUMBER,
};
use revel::slice::Slice;
use std::cmp::Ordering;

fn internal_key(user_key: &[u8], seq: u64, t: ValueType) -> Vec<u8> {
    let mut k = user_key.to_vec();
    k.extend_from_slice(&pack_sequence_and_type(seq, t).to_le_bytes());
    k
}

#[test]
fn pack_puts_the_sequence_above_the_type() {
    assert_eq!(pack_sequence_and_type(1, ValueType::KTypeValue), 0x101);
    assert_eq!(pack_sequence_and_type(1, ValueType::KTypeDeletion), 0x100);
    assert_eq!(pack_sequence_and_type(0, ValueType::KTypeDeletion), 0);
    assert_eq!(
        pack_sequence_and_type(MAX_SEQUENCE_NUMBER, ValueType::KTypeValue),
        0xffff_ffff_ffff_ff01
    );
    assert_eq!(ValueType::from(0), ValueType::KTypeDeletion);
    assert_eq!(ValueType::from(1), ValueType::KTypeValue);
    assert_eq!(ValueType::KTypeValue.tag(), 1);
    assert_eq!(ValueType::KTypeDeletion.tag(), 0);
}

#[test]
fn lookup_key_layout() {
    let key = LookupKey::new(&Slice::from_str("key"), 5);
    let tag = 0x501u64.to_le_bytes();
    let mut expected = vec![11u8, b'k', b'e', b'y'];
    expected.extend_from_slice(&tag);
    assert_eq!(key.memtable_key().data(), expected.as_slice());
    assert_eq!(key.internal_key().data(), &expected[1..]);
    assert_eq!(key.user_key().data(), b"key");
    // A key long enough for a two-byte length prefix.
    let long = vec![7u8; 200];
    let key = LookupKey::new(&Slice::from_bytes(&long), MAX_SEQUENCE_NUMBER);
    assert_eq!(&key.memtable_key().data()[..2], &[0xd0, 0x01]);
    assert_eq!(key.user_key().data(), long.as_slice());
    assert_eq!(key.memtable_key().size(), 2 + 200 + 8);
}

#[test]
fn internal_keys_order_by_user_key_then_newest_first() {
    let cmp = InternalKeyComparator::new(BytewiseComparator::new());
    let order = |a: &[u8], b: &[u8]| cmp.compare(&Slice::from_bytes(a), &Slice::from_bytes(b));
    let a5 = internal_key(b"a", 5, ValueType::KTypeValue);
    let a7 = internal_key(b"a", 7, ValueType::KTypeValue);
    let a7d = internal_key(b"a", 7, ValueType::KTypeDeletion);
    let b1 = internal_key(b"b", 1, ValueType::KTypeValue);
    assert_eq!(order(&a7, &a5), Ordering::Less);
    assert_eq!(order(&a5, &a7), Ordering::Greater);
    assert_eq!(order(&a7, &a7d), Ordering::Less);
    assert_eq!(order(&a5, &b1), Ordering::Less);
    assert_eq!(order(&b1, &a7), Ordering::Greater);
    assert_eq!(order(&a5, &a5), Ordering::Equal);
    assert_eq!(cmp.name(), "revel.InternalKeyComparator");
    assert_eq!(cmp.user_comparator().name(), "leveldb.BytewiseComparator");
}

#[test]
fn bytewise_order() {
    assert_eq!(bytewise(b"", b""), 0);
    assert_eq!(bytewise(b"", b"a"), -1);
    assert_eq!(bytewise(b"a", b""), 1);
    assert_eq!(bytewise(b"abc", b"abd"), -1);
    assert_eq!(bytewise(b"abc", b"ab"), 1);
    assert_eq!(bytewise(b"\xff", b"\x00\xff"), 1);
    assert_eq!(compare(&Slice::from_str("123"), &Slice::from_str("124")), Ordering::Less);
    assert_eq!(compare(&Slice::from_str("b"), &Slice::from_str("ab")), Ordering::Greater);
    assert_eq!(compare(&Slice::from_str("x"), &Slice::from_str("x")), Ordering::Equal);
    let c = BytewiseComparator::new();
    assert_eq!(c.compare(&Slice::from_str("key"), &Slice::from_str("yek")), Ordering::Less);
}

#[test]
fn internal_key_holds_its_bytes() {
    let mut key = InternalKey::new();
    assert_eq!(key.encode().size(), 0);
    key.decode_from(b"abc12345678");
    assert_eq!(key.encode().data(), b"abc12345678");
    key.decode_from(b"x");
    assert_eq!(key.encode().data(), b"x");
}
