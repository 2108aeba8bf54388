use revel::comparator::BytewiseComparator;
use revel::dbformat::{InternalKeyComparator, LookupKey, SequenceNumber, ValueType};
use revel::error::Error::NotFound;
use revel::memtable::MemTable;
use revel::slice::Slice;

fn new_memtable() -> MemTable<BytewiseComparator> {
    MemTable::new(InternalKeyComparator::new(BytewiseComparator::new()))
}

fn lookup(mem: &MemTable<BytewiseComparator>, key: &str, seq: u64) -> (bool, Option<Vec<u8>>) {
    let (found, r) = mem.get(&LookupKey::new(&Slice::from_str(key), seq));
    match r {
        Ok(v) => (found, Some(v)),
        Err(e) => {
            assert_eq!(e, NotFound);
            (found, None)
        }
    }
}

#[test]
fn memtable_test() {
    let mut mem = new_memtable();
    let (key, value) = ("key", "value");
    mem.add(1, ValueType::KTypeValue, &Slice::from_str(key), &Slice::from_str(value));
    let result = mem.get(&LookupKey::new(&Slice::from_str(key), 1 as SequenceNumber));
    assert!(result.0);
    assert_eq!(value, String::from_utf8(result.1.expect("unexpected result")).unwrap());
    let result = mem.get(&LookupKey::new(&Slice::from_str("yek"), 1 as SequenceNumber));
    assert!(!result.0);
    let err = result.1.expect_err("unexpect");
    assert_eq!(NotFound, err);
}

#[test]
fn memtable_freshness() {
    let mut mem = new_memtable();
    mem.add(3, ValueType::KTypeValue, &Slice::from_str("j"), &Slice::from_str("other"));
    mem.add(5, ValueType::KTypeValue, &Slice::from_str("k"), &Slice::from_str("v1"));
    mem.add(9, ValueType::KTypeValue, &Slice::from_str("k"), &Slice::from_str("v2"));
    mem.add(4, ValueType::KTypeValue, &Slice::from_str("l"), &Slice::from_str("later"));
    assert_eq!(mem.len(), 4);
    for s in [9u64, 10, 1000, (1 << 56) - 1] {
        assert_eq!(lookup(&mem, "k", s), (true, Some(b"v2".to_vec())));
    }
    for s in [5u64, 6, 8] {
        assert_eq!(lookup(&mem, "k", s), (true, Some(b"v1".to_vec())));
    }
    for s in [0u64, 1, 4] {
        assert_eq!(lookup(&mem, "k", s), (false, None));
    }
    assert_eq!(lookup(&mem, "j", 9), (true, Some(b"other".to_vec())));
    assert_eq!(lookup(&mem, "kk", 9), (false, None));
    assert_eq!(lookup(&mem, "m", 9), (false, None));
}

#[test]
fn memtable_tombstone() {
    let mut mem = new_memtable();
    mem.add(2, ValueType::KTypeValue, &Slice::from_str("k"), &Slice::from_str("v"));
    mem.add(6, ValueType::KTypeDeletion, &Slice::from_str("k"), &Slice::from_empty());
    // The deletion is found, which is not the same as finding nothing.
    assert_eq!(lookup(&mem, "k", 6), (true, None));
    assert_eq!(lookup(&mem, "k", 100), (true, None));
    assert_eq!(lookup(&mem, "k", 5), (true, Some(b"v".to_vec())));
    assert_eq!(lookup(&mem, "k", 1), (false, None));
    // A write after the deletion is seen again.
    mem.add(8, ValueType::KTypeValue, &Slice::from_str("k"), &Slice::from_str("back"));
    assert_eq!(lookup(&mem, "k", 8), (true, Some(b"back".to_vec())));
    assert_eq!(lookup(&mem, "k", 7), (true, None));
}

#[test]
fn memtable_holds_empty_and_long_values() {
    let mut mem = new_memtable();
    let long = vec![0xabu8; 70_000];
    mem.add(1, ValueType::KTypeValue, &Slice::from_empty(), &Slice::from_empty());
    mem.add(2, ValueType::KTypeValue, &Slice::from_str("big"), &Slice::from_bytes(&long));
    assert_eq!(lookup(&mem, "", 1), (true, Some(vec![])));
    assert_eq!(lookup(&mem, "big", 2), (true, Some(long)));
}
