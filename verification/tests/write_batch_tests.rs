use revel::comparator::BytewiseComparator;
use revel::dbformat::{InternalKeyComparator, LookupKey};
use revel::error::Error;
use revel::memtable::MemTable;
use revel::slice::Slice;
use revel::write_batch::{
    append, byte_size, count, insert_into, sequence, set_contents, set_count, Handler,
    MemTableInserter, WriteBatch, HEADER,
};

#[derive(Default)]
struct Recorder {
    ops: Vec<String>,
}

impl Handler for Recorder {
    fn put(&mut self, key: &Slice, value: &Slice) {
        self.ops.push(format!(
            "Put({}, {})",
            String::from_utf8_lossy(key.data()),
            String::from_utf8_lossy(value.data())
        ));
    }

    fn delete(&mut self, key: &Slice) {
        self.ops.push(format!("Delete({})", String::from_utf8_lossy(key.data())));
    }
}

fn ops_of(b: &WriteBatch) -> (Vec<String>, Result<(), Error>) {
    let mut r = Recorder::default();
    let status = b.iterate(&mut r);
    (r.ops, status)
}

fn new_memtable() -> MemTable<BytewiseComparator> {
    MemTable::new(InternalKeyComparator::new(BytewiseComparator::new()))
}

fn get(mem: &MemTable<BytewiseComparator>, key: &str, seq: u64) -> (bool, Option<Vec<u8>>) {
    let (found, r) = mem.get(&LookupKey::new(&Slice::from_str(key), seq));
    (found, r.ok())
}

#[test]
fn write_batch_test() {
    let b = WriteBatch::new();
    assert_eq!(b.approximate_size(), HEADER);
    assert_eq!(b.count(), 0);
    assert_eq!(b.sequence(), 0);
    assert_eq!(ops_of(&b), (vec![], Ok(())));
}

#[test]
fn batch_layout() {
    let mut b = WriteBatch::new();
    b.put(&Slice::from_str("foo"), &Slice::from_str("bar"));
    b.delete(&Slice::from_str("box"));
    b.set_sequence(100);
    assert_eq!(
        b.contents().data(),
        &[
            100, 0, 0, 0, 0, 0, 0, 0, 2, 0, 0, 0, 1, 3, b'f', b'o', b'o', 3, b'b', b'a', b'r', 0,
            3, b'b', b'o', b'x'
        ]
    );
    assert_eq!(b.count(), 2);
    assert_eq!(count(&b), 2);
    assert_eq!(b.sequence(), 100);
    assert_eq!(sequence(&b), 100);
    assert_eq!(byte_size(&b), 26);
    assert_eq!(b.approximate_size(), 26);
    assert_eq!(ops_of(&b), (vec!["Put(foo, bar)".to_string(), "Delete(box)".to_string()], Ok(())));
    b.clear();
    assert_eq!(b.contents().data(), &[0u8; 12]);
}

#[test]
fn batch_append() {
    let mut a = WriteBatch::new();
    a.set_sequence(200);
    a.put(&Slice::from_str("a"), &Slice::from_str("va"));
    a.delete(&Slice::from_str("b"));
    let mut b = WriteBatch::new();
    b.set_sequence(300);
    b.put(&Slice::from_str("c"), &Slice::from_str("vc"));
    let (a_ops, _) = ops_of(&a);
    let (b_ops, _) = ops_of(&b);
    let (na, nb) = (a.count(), b.count());
    a.append(&b);
    assert_eq!(a.count(), na + nb);
    assert_eq!(a.sequence(), 200);
    let mut expected = a_ops;
    expected.extend(b_ops);
    assert_eq!(ops_of(&a), (expected, Ok(())));
    // Appending nothing changes nothing, and the free function does the same.
    let before = a.contents().data().to_vec();
    a.append(&WriteBatch::new());
    assert_eq!(a.contents().data(), before.as_slice());
    let mut c = WriteBatch::new();
    append(&mut c, &a);
    assert_eq!(c.count(), 3);
    assert_eq!(c.sequence(), 0);
    assert_eq!(&c.contents().data()[12..], &before[12..]);
}

#[test]
fn batch_count_mismatch_is_corruption() {
    let mut b = WriteBatch::new();
    b.put(&Slice::from_str("k"), &Slice::from_str("v"));
    set_count(&mut b, 2);
    let (ops, status) = ops_of(&b);
    assert_eq!(ops, vec!["Put(k, v)".to_string()]);
    assert_eq!(status, Err(Error::Corruption));
    set_count(&mut b, 0);
    assert_eq!(ops_of(&b).1, Err(Error::Corruption));
    set_count(&mut b, 1);
    assert_eq!(ops_of(&b).1, Ok(()));
}

#[test]
fn batch_malformed_records_are_corruption() {
    let mut b = WriteBatch::new();
    // An unknown tag.
    set_contents(&mut b, &Slice::from_bytes(&[0, 0, 0, 0, 0, 0, 0, 0, 1, 0, 0, 0, 2, 1, b'k']));
    assert_eq!(ops_of(&b), (vec![], Err(Error::Corruption)));
    // A put without its value, behind a good delete.
    set_contents(
        &mut b,
        &Slice::from_bytes(&[0, 0, 0, 0, 0, 0, 0, 0, 2, 0, 0, 0, 0, 1, b'd', 1, 1, b'k']),
    );
    assert_eq!(ops_of(&b), (vec!["Delete(d)".to_string()], Err(Error::Corruption)));
    // A key that is cut short.
    set_contents(&mut b, &Slice::from_bytes(&[0, 0, 0, 0, 0, 0, 0, 0, 1, 0, 0, 0, 0, 5, b'k']));
    assert_eq!(ops_of(&b), (vec![], Err(Error::Corruption)));
}

#[test]
fn insert_into_assigns_consecutive_sequences() {
    let mut b = WriteBatch::new();
    b.put(&Slice::from_str("a"), &Slice::from_str("1"));
    b.put(&Slice::from_str("b"), &Slice::from_str("2"));
    b.delete(&Slice::from_str("a"));
    b.put(&Slice::from_str("a"), &Slice::from_str("3"));
    b.set_sequence(10);
    let mut mem = new_memtable();
    assert_eq!(insert_into(&b, &mut mem), Ok(()));
    assert_eq!(mem.len(), 4);
    assert_eq!(get(&mem, "a", 9), (false, None));
    assert_eq!(get(&mem, "a", 10), (true, Some(b"1".to_vec())));
    assert_eq!(get(&mem, "a", 11), (true, Some(b"1".to_vec())));
    assert_eq!(get(&mem, "b", 10), (false, None));
    assert_eq!(get(&mem, "b", 11), (true, Some(b"2".to_vec())));
    assert_eq!(get(&mem, "a", 12), (true, None));
    assert_eq!(get(&mem, "a", 13), (true, Some(b"3".to_vec())));
}

#[test]
fn insert_into_reports_what_cannot_be_applied() {
    // The second operation would get a sequence number that does not fit.
    let mut b = WriteBatch::new();
    b.put(&Slice::from_str("a"), &Slice::from_str("1"));
    b.put(&Slice::from_str("b"), &Slice::from_str("2"));
    b.set_sequence((1 << 56) - 1);
    let mut mem = new_memtable();
    assert_eq!(insert_into(&b, &mut mem), Err(Error::InvalidArgument));
    assert_eq!(mem.len(), 1);
    assert_eq!(get(&mem, "a", (1 << 56) - 1), (true, Some(b"1".to_vec())));
    // A batch whose count is wrong is applied and reported.
    let mut c = WriteBatch::new();
    c.put(&Slice::from_str("k"), &Slice::from_str("v"));
    set_count(&mut c, 7);
    c.set_sequence(1);
    let mut mem = new_memtable();
    assert_eq!(insert_into(&c, &mut mem), Err(Error::Corruption));
    assert_eq!(get(&mem, "k", 1), (true, Some(b"v".to_vec())));
}

#[test]
fn memtable_inserter_is_a_handler() {
    let mut b = WriteBatch::new();
    b.put(&Slice::from_str("x"), &Slice::from_str("1"));
    b.delete(&Slice::from_str("x"));
    let mut inserter = MemTableInserter::new(new_memtable(), 4);
    assert_eq!(b.iterate(&mut inserter), Ok(()));
    assert!(!inserter.failed());
    let mem = inserter.into_mem();
    assert_eq!(get(&mem, "x", 4), (true, Some(b"1".to_vec())));
    assert_eq!(get(&mem, "x", 5), (true, None));
}
