use revel::db::Writer;
use revel::env::{MemoryRandomAccessFile, RandomAccessFile};
use revel::error::Error;
use revel::log_format::RecordType;
use revel::options::{ReadOptions, WriteOptions};
use revel::write_batch::WriteBatch;
use std::rc::Rc;

#[test]
fn error_codes_and_messages() {
    let all = [
        (Error::NotFound, 1, "object not found error"),
        (Error::Corruption, 2, "file corrupted"),
        (Error::NotSupported, 3, "not support"),
        (Error::InvalidArgument, 4, "invalid argument"),
        (Error::IOError, 5, "io error"),
    ];
    for (e, code, message) in all {
        assert_eq!(e.code(), code);
        assert_eq!(e.message(), message);
    }
    assert_ne!(Error::NotFound, Error::Corruption);
}

#[test]
fn record_types_have_their_tags() {
    assert_eq!(RecordType::Zero.tag(), 0);
    assert_eq!(RecordType::Full.tag(), 1);
    assert_eq!(RecordType::First.tag(), 2);
    assert_eq!(RecordType::Middle.tag(), 3);
    assert_eq!(RecordType::Last.tag(), 4);
    assert_eq!(RecordType::of_fragment(true, true), RecordType::Full);
    assert_eq!(RecordType::of_fragment(true, false), RecordType::First);
    assert_eq!(RecordType::of_fragment(false, false), RecordType::Middle);
    assert_eq!(RecordType::of_fragment(false, true), RecordType::Last);
}

#[test]
fn options_start_out_plain() {
    assert!(!WriteOptions::new().sync);
    assert!(!ReadOptions::new().verify_checksums);
    let writer = Writer::new(WriteBatch::new(), true);
    writer.wait();
}

#[test]
fn memory_random_access_file() {
    let file = MemoryRandomAccessFile::new(Rc::new(vec![1, 2, 3, 4, 5]));
    let mut scratch = [0u8; 3];
    assert_eq!(file.read(1, &mut scratch), Ok(3));
    assert_eq!(scratch, [2, 3, 4]);
    assert_eq!(file.read(3, &mut scratch), Ok(2));
    assert_eq!(scratch, [4, 5, 4]);
    assert_eq!(file.read(5, &mut scratch), Ok(0));
    assert_eq!(file.read(9, &mut scratch), Ok(0));
    assert_eq!(scratch, [4, 5, 4]);
}
