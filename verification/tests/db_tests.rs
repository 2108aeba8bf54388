use revel::comparator::BytewiseComparator;
use revel::db::{check_batch, DB};
use revel::env::{MemorySequentialFile, MemoryWritableFile, WritableFile};
use revel::error::Error;
use revel::log_reader::Reader;
use revel::options::{Options, ReadOptions, WriteOptions};
use revel::slice::Slice;
use revel::write_batch::{set_contents, set_count, Handler, WriteBatch};
use std::rc::Rc;

#[derive(Default)]
struct Recorder {
    ops: Vec<(Vec<u8>, Option<Vec<u8>>)>,
}

impl Handler for Recorder {
    fn put(&mut self, key: &Slice, value: &Slice) {
        self.ops.push((key.data().to_vec(), Some(value.data().to_vec())));
    }

    fn delete(&mut self, key: &Slice) {
        self.ops.push((key.data().to_vec(), None));
    }
}

/// A log file that fails from the given call on.
struct FailingFile {
    calls_left: usize,
    written: Vec<u8>,
}

impl WritableFile for FailingFile {
    fn append(&mut self, data: &Slice) -> Result<(), Error> {
        if self.calls_left == 0 {
            return Err(Error::IOError);
        }
        self.calls_left -= 1;
        self.written.extend_from_slice(data.data());
        Ok(())
    }

    fn flush(&mut self) -> Result<(), Error> {
        Ok(())
    }

    fn close(&mut self) -> Result<(), Error> {
        Ok(())
    }

    fn sync(&mut self) -> Result<(), Error> {
        Ok(())
    }
}

fn open() -> DB<MemoryWritableFile, BytewiseComparator> {
    let options = Options { comparator: BytewiseComparator::new() };
    DB::open(options, MemoryWritableFile::new(Vec::new()), "./text")
}

fn records(log: &[u8]) -> Vec<Vec<u8>> {
    let mut reader = Reader::new(MemorySequentialFile::new(Rc::new(log.to_vec())), true, 0);
    let mut out = vec![];
    let mut scratch = vec![];
    while reader.read_record(&mut scratch).expect("log") {
        out.push(scratch.clone());
    }
    out
}

fn batch_of(key: &str, value: &str) -> WriteBatch {
    let mut b = WriteBatch::new();
    b.put(&Slice::from_str(key), &Slice::from_str(value));
    b
}

#[test]
fn db_test() {
    let mut db = open();
    db.put(&WriteOptions::new(), &Slice::from_str("key"), &Slice::from_str("value"))
        .expect("put error");
    let value = db.get(&ReadOptions::new(), &Slice::from_str("key")).expect("read error");
    assert_eq!("value", String::from_utf8(value).unwrap());
    assert_eq!(db.get(&ReadOptions::new(), &Slice::from_str("yek")), Err(Error::NotFound));
    assert_eq!(db.versions().last_sequence(), 1);
}

#[test]
fn db_delete_hides_a_key() {
    let mut db = open();
    let w = WriteOptions { sync: true };
    db.put(&w, &Slice::from_str("k"), &Slice::from_str("v1")).unwrap();
    db.put(&w, &Slice::from_str("k"), &Slice::from_str("v2")).unwrap();
    assert_eq!(db.get(&ReadOptions::new(), &Slice::from_str("k")), Ok(b"v2".to_vec()));
    db.delete(&w, &Slice::from_str("k")).unwrap();
    assert_eq!(db.get(&ReadOptions::new(), &Slice::from_str("k")), Err(Error::NotFound));
    assert_eq!(db.versions().last_sequence(), 3);
    // One record for each write, each with its sequence number.
    let log = records(db.log().dest().data());
    assert_eq!(log.len(), 3);
    assert_eq!(&log[0][..12], &[1, 0, 0, 0, 0, 0, 0, 0, 1, 0, 0, 0]);
    assert_eq!(&log[2][..12], &[3, 0, 0, 0, 0, 0, 0, 0, 1, 0, 0, 0]);
    assert_eq!(&log[2][12..], &[0, 1, b'k']);
}

#[test]
fn db_group_commit_ordering() {
    let mut db = open();
    db.put(&WriteOptions::new(), &Slice::from_str("z"), &Slice::from_str("0")).unwrap();
    let before = db.versions().last_sequence();
    let written = db.log().dest().data().len();
    // Three writers join the queue before any of them is served.
    db.enqueue(batch_of("a", "1"), false).unwrap();
    db.enqueue(batch_of("b", "2"), false).unwrap();
    db.enqueue(batch_of("c", "3"), false).unwrap();
    assert_eq!(db.queue_len(), 3);
    assert_eq!(db.commit_group(), Ok(3));
    assert_eq!(db.queue_len(), 0);
    assert_eq!(db.versions().last_sequence(), before + 3);
    let log = records(&db.log().dest().data()[written..]);
    assert_eq!(log.len(), 1);
    let mut group = WriteBatch::new();
    set_contents(&mut group, &Slice::from_bytes(&log[0]));
    assert_eq!(group.count(), 3);
    assert_eq!(group.sequence(), before + 1);
    let mut seen = Recorder::default();
    assert_eq!(group.iterate(&mut seen), Ok(()));
    assert_eq!(
        seen.ops,
        vec![
            (b"a".to_vec(), Some(b"1".to_vec())),
            (b"b".to_vec(), Some(b"2".to_vec())),
            (b"c".to_vec(), Some(b"3".to_vec()))
        ]
    );
    for (k, v) in [("a", "1"), ("b", "2"), ("c", "3"), ("z", "0")] {
        assert_eq!(db.get(&ReadOptions::new(), &Slice::from_str(k)), Ok(v.as_bytes().to_vec()));
    }
}

#[test]
fn db_group_stops_at_a_sync_and_at_its_size() {
    // A write that asks for a sync does not join a group that is not synced.
    let mut db = open();
    db.enqueue(batch_of("a", "1"), false).unwrap();
    db.enqueue(batch_of("b", "2"), true).unwrap();
    db.enqueue(batch_of("c", "3"), false).unwrap();
    assert_eq!(db.commit_group(), Ok(1));
    // The leader asks for a sync: the others may join.
    assert_eq!(db.commit_group(), Ok(2));
    assert_eq!(db.versions().last_sequence(), 3);
    // A small first write lets the group grow by 128 KiB and no more.
    let mut db = open();
    let big = vec![b'x'; 100 * 1024];
    let value = String::from_utf8(big).unwrap();
    db.enqueue(batch_of("small", "v"), false).unwrap();
    db.enqueue(batch_of("big1", &value), false).unwrap();
    db.enqueue(batch_of("big2", &value), false).unwrap();
    assert_eq!(db.commit_group(), Ok(2));
    // A large first write lets the group grow to 1 MiB.
    let mut db = open();
    let half = String::from_utf8(vec![b'y'; 400 * 1024]).unwrap();
    db.enqueue(batch_of("h1", &half), false).unwrap();
    db.enqueue(batch_of("h2", &half), false).unwrap();
    db.enqueue(batch_of("h3", &half), false).unwrap();
    assert_eq!(db.commit_group(), Ok(2));
    assert_eq!(db.drain(), Ok(()));
    assert_eq!(db.queue_len(), 0);
    assert_eq!(db.versions().last_sequence(), 3);
}

#[test]
fn db_rejects_a_batch_that_cannot_be_committed() {
    let mut db = open();
    let mut bad = batch_of("k", "v");
    set_count(&mut bad, 5);
    assert_eq!(check_batch(&bad), Err(Error::Corruption));
    assert_eq!(db.write(&WriteOptions::new(), bad), Err(Error::Corruption));
    let mut short = WriteBatch::new();
    set_contents(&mut short, &Slice::from_bytes(&[0, 0, 0, 0, 0, 0, 0, 0, 1, 0, 0, 0, 9]));
    assert_eq!(db.write(&WriteOptions::new(), short), Err(Error::Corruption));
    assert_eq!(db.versions().last_sequence(), 0);
    assert!(db.log().dest().data().is_empty());
    assert_eq!(check_batch(&batch_of("k", "v")), Ok(()));
    // The database still takes writes.
    assert_eq!(db.write(&WriteOptions::new(), batch_of("k", "v")), Ok(()));
    assert_eq!(db.get(&ReadOptions::new(), &Slice::from_str("k")), Ok(b"v".to_vec()));
}

#[test]
fn db_is_poisoned_by_a_failure_of_the_log() {
    let options = Options { comparator: BytewiseComparator::new() };
    // Each record takes two appends; the second write fails.
    let file = FailingFile { calls_left: 3, written: vec![] };
    let mut db = DB::open(options, file, "db");
    assert_eq!(db.write(&WriteOptions::new(), batch_of("a", "1")), Ok(()));
    assert_eq!(db.write(&WriteOptions::new(), batch_of("b", "2")), Err(Error::IOError));
    // Nothing of the failed write is seen, and every later write fails.
    assert_eq!(db.get(&ReadOptions::new(), &Slice::from_str("b")), Err(Error::NotFound));
    assert_eq!(db.get(&ReadOptions::new(), &Slice::from_str("a")), Ok(b"1".to_vec()));
    assert_eq!(db.versions().last_sequence(), 1);
    assert_eq!(db.write(&WriteOptions::new(), batch_of("c", "3")), Err(Error::IOError));
    assert_eq!(db.queue_len(), 0);
}

#[test]
fn db_syncs_the_log_for_a_write_that_asks_for_it() {
    let mut db = open();
    db.put(&WriteOptions::new(), &Slice::from_str("a"), &Slice::from_str("1")).unwrap();
    assert_eq!(db.log().dest().synced_len(), 0);
    db.put(&WriteOptions { sync: true }, &Slice::from_str("b"), &Slice::from_str("2")).unwrap();
    let written = db.log().dest().data().len();
    assert_eq!(db.log().dest().synced_len(), written);
    db.put(&WriteOptions::new(), &Slice::from_str("c"), &Slice::from_str("3")).unwrap();
    assert_eq!(db.log().dest().synced_len(), written);
    assert!(db.log().dest().data().len() > written);
}
