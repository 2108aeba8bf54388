use revel::dbformat::InternalKey;
use revel::env::{MemorySequentialFile, MemoryWritableFile};
use revel::error::Error;
use revel::log_writer::Writer;
use revel::slice::Slice;
use revel::version_edit::{get_internal_key, get_level, FileMetaData, VersionEdit};
use revel::version_set::{manifest_name, VersionSet};
use std::rc::Rc;

fn key(bytes: &[u8]) -> InternalKey {
    let mut k = InternalKey::new();
    k.decode_from(bytes);
    k
}

fn encode(edit: &VersionEdit) -> Vec<u8> {
    let mut out = vec![];
    edit.encode_to(&mut out);
    out
}

fn manifest(edits: &[VersionEdit]) -> MemorySequentialFile {
    let mut writer = Writer::new(MemoryWritableFile::new(Vec::new()));
    for e in edits {
        writer.add_record(&Slice::from_bytes(&encode(e))).expect("manifest");
    }
    MemorySequentialFile::new(Rc::new(writer.dest().data().clone()))
}

#[test]
fn version_edit_exact_bytes() {
    let edit = VersionEdit::new("cmp", 7, 9, 42);
    assert_eq!(encode(&edit), vec![1, 3, b'c', b'm', b'p', 2, 7, 3, 9, 4, 42]);
    // Without a comparator name, and with the previous log number, which
    // is written before the next file number.
    let mut edit = VersionEdit::new("", 300, 9, 42);
    edit.set_prev_log_number(5);
    assert_eq!(encode(&edit), vec![2, 0xac, 2, 9, 5, 3, 9, 4, 42]);
    assert_eq!(encode(&VersionEdit::empty()), Vec::<u8>::new());
}

#[test]
fn version_edit_round_trip() {
    let mut edit = VersionEdit::new("leveldb.BytewiseComparator", 1 << 50, (1 << 50) + 100, 1 << 40);
    edit.set_prev_log_number(77);
    for i in 0..4u32 {
        edit.set_compact_pointer(i, key(format!("pointer{}", i).as_bytes()));
        edit.delete_file(i + 1, 1000 + i as u64);
        let mut f = FileMetaData::new();
        f.number = 300 + i as u64;
        f.file_size = 400 + i as u64;
        f.smallest = key(b"foo\x01\x00\x00\x00\x00\x00\x00\x00");
        f.largest = key(b"zoo\x00\x00\x00\x00\x00\x00\x00\x01");
        edit.add_file(i + 2, f);
    }
    let bytes = encode(&edit);
    let parsed = VersionEdit::decode_from(&bytes).expect("decode");
    assert_eq!(parsed.comparator().unwrap().as_slice(), b"leveldb.BytewiseComparator");
    assert_eq!(parsed.log_number(), Some(1 << 50));
    assert_eq!(parsed.prev_log_number(), Some(77));
    assert_eq!(parsed.next_file_number(), Some((1 << 50) + 100));
    assert_eq!(parsed.last_sequence(), Some(1 << 40));
    assert_eq!(encode(&parsed), bytes);
}

#[test]
fn version_edit_decode() {
    let edit = VersionEdit::decode_from(&[]).expect("empty");
    assert!(edit.comparator().is_none());
    assert_eq!(edit.log_number(), None);
    assert_eq!(edit.prev_log_number(), None);
    assert_eq!(edit.next_file_number(), None);
    assert_eq!(edit.last_sequence(), None);
    // The later of two fields with one tag wins.
    let edit = VersionEdit::decode_from(&[2, 7, 2, 8, 9, 3]).expect("twice");
    assert_eq!(edit.log_number(), Some(8));
    assert_eq!(edit.prev_log_number(), Some(3));
    // An empty comparator name stands for none.
    let edit = VersionEdit::decode_from(&[1, 0, 4, 1]).expect("empty name");
    assert!(edit.comparator().is_none());
    assert_eq!(edit.last_sequence(), Some(1));
}

#[test]
fn version_edit_corruption() {
    // An unknown tag; tag 8 is not in use either.
    assert!(matches!(VersionEdit::decode_from(&[10, 1]), Err(Error::Corruption)));
    assert!(matches!(VersionEdit::decode_from(&[8, 1]), Err(Error::Corruption)));
    assert!(matches!(VersionEdit::decode_from(&[0]), Err(Error::Corruption)));
    // A number that is cut short, and a name that is.
    assert!(matches!(VersionEdit::decode_from(&[2, 0x80]), Err(Error::Corruption)));
    assert!(matches!(VersionEdit::decode_from(&[2]), Err(Error::Corruption)));
    assert!(matches!(VersionEdit::decode_from(&[1, 3, b'a']), Err(Error::Corruption)));
    // A level that does not exist.
    assert!(matches!(VersionEdit::decode_from(&[6, 7, 1]), Err(Error::Corruption)));
    assert!(VersionEdit::decode_from(&[6, 6, 1]).is_ok());
    // A new file without its largest key.
    assert!(matches!(VersionEdit::decode_from(&[7, 1, 2, 3, 1, b'a']), Err(Error::Corruption)));
    assert!(VersionEdit::decode_from(&[7, 1, 2, 3, 1, b'a', 1, b'z']).is_ok());
    // A compaction pointer with its key.
    assert!(VersionEdit::decode_from(&[5, 0, 2, b'k', b'k']).is_ok());
    assert!(matches!(VersionEdit::decode_from(&[5, 0, 2, b'k']), Err(Error::Corruption)));
}

#[test]
fn version_edit_readers() {
    assert_eq!(get_level(&[3, 9]), Some((3, 1)));
    assert_eq!(get_level(&[7]), None);
    assert_eq!(get_level(&[]), None);
    let (k, n) = get_internal_key(&[2, b'a', b'b', b'c']).expect("key");
    assert_eq!(k.encode().data(), b"ab");
    assert_eq!(n, 3);
    assert!(get_internal_key(&[2, b'a']).is_none());
    let (level, f, n) = VersionEdit::parse_new_file(&[4, 0xac, 2, 5, 1, b's', 2, b'l', b'l', 9])
        .expect("new file");
    assert_eq!((level, f.number, f.file_size, n), (4, 300, 5, 9));
    assert_eq!(f.smallest.encode().data(), b"s");
    assert_eq!(f.largest.encode().data(), b"ll");
}

#[test]
fn version_set_recovers_from_the_manifest() {
    let mut versions = VersionSet::new("testdb");
    assert_eq!(versions.dbname(), "testdb");
    assert_eq!(versions.last_sequence(), 0);
    let file = manifest(&[VersionEdit::new("", 7, 9, 42)]);
    assert_eq!(versions.prepare(file), Ok(()));
    assert_eq!(versions.last_sequence(), 42);
    assert_eq!(versions.log_number(), 7);
    assert_eq!(versions.prev_log_number(), 0);
    // The next file number is the one in the manifest, but behind the log.
    assert_eq!(versions.next_file_number(), 9);
    assert_eq!(versions.next_file_number(), std::cmp::max(9, 8));

    let mut versions = VersionSet::new("testdb");
    let file = manifest(&[VersionEdit::new("", 7, 3, 42)]);
    assert_eq!(versions.prepare(file), Ok(()));
    assert_eq!(versions.next_file_number(), 8);
}

#[test]
fn version_set_takes_the_last_of_each_number() {
    let mut second = VersionEdit::new("", 12, 20, 100);
    second.set_prev_log_number(30);
    let mut third = VersionEdit::empty();
    third.set_prev_log_number(11);
    let file = manifest(&[VersionEdit::new("c", 7, 9, 42), second, third]);
    let mut versions = VersionSet::new("db");
    assert_eq!(versions.prepare(file), Ok(()));
    assert_eq!(versions.last_sequence(), 100);
    assert_eq!(versions.log_number(), 12);
    assert_eq!(versions.prev_log_number(), 11);
    assert_eq!(versions.next_file_number(), 20);
}

#[test]
fn version_set_rejects_an_incomplete_or_corrupt_manifest() {
    let mut versions = VersionSet::new("db");
    versions.set_last_sequence(5);
    versions.mark_file_number_used(3);
    // Nothing says the log number.
    let mut only_prev = VersionEdit::empty();
    only_prev.set_prev_log_number(1);
    assert_eq!(versions.prepare(manifest(&[only_prev])), Err(Error::Corruption));
    assert_eq!(versions.prepare(manifest(&[])), Err(Error::Corruption));
    // A record that is no edit.
    let mut writer = Writer::new(MemoryWritableFile::new(Vec::new()));
    writer.add_record(&Slice::from_bytes(&encode(&VersionEdit::new("", 7, 9, 42)))).unwrap();
    writer.add_record(&Slice::from_bytes(&[10, 1])).unwrap();
    let bytes = writer.dest().data().clone();
    let file = MemorySequentialFile::new(Rc::new(bytes.clone()));
    assert_eq!(versions.prepare(file), Err(Error::Corruption));
    // A record with a bad checksum.
    let mut damaged = bytes[..18].to_vec();
    damaged[9] ^= 1;
    assert_eq!(
        versions.prepare(MemorySequentialFile::new(Rc::new(damaged))),
        Err(Error::Corruption)
    );
    // Nothing was taken over.
    assert_eq!(versions.last_sequence(), 5);
    assert_eq!(versions.next_file_number(), 4);
    assert_eq!(versions.log_number(), 0);
}

#[test]
fn version_set_numbers() {
    let mut versions = VersionSet::new("db");
    versions.init();
    versions.mark_file_number_used(7);
    assert_eq!(versions.next_file_number(), 8);
    versions.mark_file_number_used(3);
    assert_eq!(versions.next_file_number(), 8);
    versions.mark_file_number_used(8);
    assert_eq!(versions.next_file_number(), 9);
    versions.set_last_sequence(10);
    versions.set_last_sequence(10);
    assert_eq!(versions.last_sequence(), 10);
}

#[test]
fn current_names_the_manifest() {
    assert_eq!(manifest_name(b"MANIFEST-000007\n"), Ok(&b"MANIFEST-000007"[..]));
    // Exactly one newline is taken off.
    assert_eq!(manifest_name(b"MANIFEST-000007\n\n"), Ok(&b"MANIFEST-000007\n"[..]));
    assert_eq!(manifest_name(b"\n"), Ok(&b""[..]));
    assert_eq!(manifest_name(b"MANIFEST-000007"), Err(Error::Corruption));
    assert_eq!(manifest_name(b""), Err(Error::Corruption));
    assert_eq!(revel::filename::current_file_contents(7), "MANIFEST-000007\n");
}
