use revel::env::{MemorySequentialFile, MemoryWritableFile, SequentialFile, WritableFile};
use revel::error::Error;
use revel::log_format::{RecordType, BLOCK_SIZE, HEADER_SIZE};
use revel::log_reader::Reader;
use revel::log_writer::Writer;
use revel::slice::Slice;
use revel::util::crc;
use std::rc::Rc;

fn write_log(payloads: &[Vec<u8>]) -> Vec<u8> {
    let mut writer = Writer::new(MemoryWritableFile::new(Vec::new()));
    for p in payloads {
        writer.add_record(&Slice::from_bytes(p)).expect("write failed");
    }
    writer.dest().data().clone()
}

fn read_log(bytes: Vec<u8>, initial_offset: u64) -> (Vec<Vec<u8>>, Result<bool, Error>) {
    let mut reader = Reader::new(MemorySequentialFile::new(Rc::new(bytes)), true, initial_offset);
    let mut out = Vec::new();
    let mut scratch = Vec::new();
    loop {
        match reader.read_record(&mut scratch) {
            Ok(true) => out.push(scratch.clone()),
            other => return (out, other),
        }
    }
}

fn pattern(len: usize, seed: u8) -> Vec<u8> {
    (0..len).map(|i| (i as u8).wrapping_mul(31).wrapping_add(seed)).collect()
}

#[test]
fn log_writer_test() {
    let writable_file = MemoryWritableFile::new(Vec::new());
    let mut writer = Writer::new(writable_file);
    writer.add_record(&Slice::from_str("hello world")).expect("write failed");
    let bytes = writer.dest().data();
    assert_eq!(bytes.len(), 18);
    assert_eq!(
        bytes.as_slice(),
        &[129, 221, 1, 7, 11, 0, 1, 104, 101, 108, 108, 111, 32, 119, 111, 114, 108, 100]
    );
    assert_eq!(bytes[6], RecordType::Full.tag());
}

#[test]
fn log_reader_test() {
    let memory = Rc::new(vec![
        129, 221, 1, 7, 11, 0, 1, 104, 101, 108, 108, 111, 32, 119, 111, 114, 108, 100,
    ]);
    let file = MemorySequentialFile::new(memory);
    let mut reader = Reader::new(file, true, 0);
    let mut buf = vec![];
    let found = reader.read_record(&mut buf).expect("error");
    assert!(found);
    let str = String::from_utf8(buf.clone()).unwrap();
    assert_eq!(str, "hello world");
    assert_eq!(reader.read_record(&mut buf), Ok(false));
    assert!(buf.is_empty());
}

#[test]
fn log_fragmentation() {
    let payload = pattern(40_000, 3);
    let bytes = write_log(&[payload.clone()]);
    let first_len = BLOCK_SIZE - HEADER_SIZE;
    assert_eq!(bytes.len(), 40_000 + 2 * HEADER_SIZE);
    assert_eq!(bytes[6], RecordType::First.tag());
    assert_eq!(bytes[4] as usize + 256 * bytes[5] as usize, first_len);
    assert_eq!(bytes[BLOCK_SIZE + 6], RecordType::Last.tag());
    assert_eq!(
        bytes[BLOCK_SIZE + 4] as usize + 256 * bytes[BLOCK_SIZE + 5] as usize,
        40_000 - first_len
    );
    let (records, end) = read_log(bytes, 0);
    assert_eq!(end, Ok(false));
    assert_eq!(records, vec![payload]);
}

#[test]
fn log_round_trip_of_many_records() {
    let payloads: Vec<Vec<u8>> = vec![
        b"foo".to_vec(),
        vec![],
        pattern(100_000, 1),
        b"bar".to_vec(),
        pattern(BLOCK_SIZE - 2 * HEADER_SIZE - 3, 5),
        vec![],
        pattern(70_000, 9),
        b"xxxx".to_vec(),
    ];
    let bytes = write_log(&payloads);
    let (records, end) = read_log(bytes, 0);
    assert_eq!(end, Ok(false));
    assert_eq!(records, payloads);
}

#[test]
fn log_pads_a_block_that_has_no_room_for_a_header() {
    // The first record leaves six bytes in the block.
    let first = pattern(BLOCK_SIZE - 2 * HEADER_SIZE + 1, 2);
    let bytes = write_log(&[first.clone(), b"next".to_vec()]);
    assert_eq!(&bytes[BLOCK_SIZE - 6..BLOCK_SIZE], &[0u8; 6]);
    assert_eq!(bytes.len(), BLOCK_SIZE + HEADER_SIZE + 4);
    assert_eq!(bytes[BLOCK_SIZE + 6], RecordType::Full.tag());
    let (records, end) = read_log(bytes, 0);
    assert_eq!(end, Ok(false));
    assert_eq!(records, vec![first, b"next".to_vec()]);
}

#[test]
fn log_writes_an_empty_first_fragment_into_exactly_seven_bytes() {
    let first = pattern(BLOCK_SIZE - 2 * HEADER_SIZE, 4);
    let bytes = write_log(&[first.clone(), b"tail".to_vec()]);
    assert_eq!(bytes[BLOCK_SIZE - HEADER_SIZE + 6], RecordType::First.tag());
    assert_eq!(bytes[BLOCK_SIZE - HEADER_SIZE + 4], 0);
    assert_eq!(bytes[BLOCK_SIZE + 6], RecordType::Last.tag());
    let (records, end) = read_log(bytes, 0);
    assert_eq!(end, Ok(false));
    assert_eq!(records, vec![first, b"tail".to_vec()]);
}

#[test]
fn log_empty_payload_is_one_empty_full_record() {
    let bytes = write_log(&[vec![]]);
    assert_eq!(bytes.len(), HEADER_SIZE);
    assert_eq!(bytes[4], 0);
    assert_eq!(bytes[5], 0);
    assert_eq!(bytes[6], RecordType::Full.tag());
    let stored = u32::from_le_bytes([bytes[0], bytes[1], bytes[2], bytes[3]]);
    assert_eq!(crc::unmask(stored), crc::value(&[1]));
    let (records, end) = read_log(bytes, 0);
    assert_eq!(end, Ok(false));
    assert_eq!(records, vec![Vec::<u8>::new()]);
}

#[test]
fn log_checksum_mismatch_is_corruption() {
    let mut bytes = write_log(&[b"hello world".to_vec(), b"second".to_vec()]);
    bytes[10] ^= 0x40;
    let (records, end) = read_log(bytes.clone(), 0);
    assert!(records.is_empty());
    assert_eq!(end, Err(Error::Corruption));
    // Without checksums the damaged payload is handed out.
    let mut reader = Reader::new(MemorySequentialFile::new(Rc::new(bytes)), false, 0);
    let mut scratch = Vec::new();
    assert_eq!(reader.read_record(&mut scratch), Ok(true));
    assert_eq!(scratch.len(), 11);
    assert_ne!(scratch, b"hello world".to_vec());
}

#[test]
fn log_fragment_out_of_order_is_corruption() {
    // A last fragment with nothing before it.
    let mut writer = Writer::new(MemoryWritableFile::new(Vec::new()));
    writer.add_record(&Slice::from_bytes(&pattern(40_000, 1))).expect("write");
    let bytes = writer.dest().data().clone();
    let second_block = bytes[BLOCK_SIZE..].to_vec();
    let mut padded = vec![0u8; 0];
    padded.extend_from_slice(&second_block);
    let (records, end) = read_log(padded, 0);
    assert!(records.is_empty());
    assert_eq!(end, Err(Error::Corruption));
    // A first fragment that is followed by a full record.
    let first_only = bytes[..BLOCK_SIZE].to_vec();
    let mut log = first_only;
    log.extend_from_slice(&write_log(&[b"whole".to_vec()]));
    let (records, end) = read_log(log, 0);
    assert!(records.is_empty());
    assert_eq!(end, Err(Error::Corruption));
}

#[test]
fn log_that_ends_inside_a_record_just_ends() {
    let bytes = write_log(&[b"first".to_vec(), pattern(40_000, 7)]);
    // Cut inside the last fragment, inside a header, and after the first fragment.
    for cut in [bytes.len() - 1, BLOCK_SIZE + 3, BLOCK_SIZE] {
        let (records, end) = read_log(bytes[..cut].to_vec(), 0);
        assert_eq!(records, vec![b"first".to_vec()], "cut at {}", cut);
        assert_eq!(end, Ok(false), "cut at {}", cut);
    }
}

#[test]
fn log_zero_record_and_bad_length_are_corruption() {
    let (records, end) = read_log(vec![0u8; 20], 0);
    assert!(records.is_empty());
    assert_eq!(end, Err(Error::Corruption));
    // A length that runs past a full block.
    let mut bytes = write_log(&[pattern(BLOCK_SIZE, 1)]);
    bytes[4] = 0xff;
    bytes[5] = 0xff;
    let (records, end) = read_log(bytes, 0);
    assert!(records.is_empty());
    assert_eq!(end, Err(Error::Corruption));
}

#[test]
fn log_resumes_at_an_initial_offset() {
    let payloads: Vec<Vec<u8>> =
        vec![b"one".to_vec(), pattern(50_000, 1), b"three".to_vec(), b"four".to_vec()];
    let bytes = write_log(&payloads);
    // From the second record on.
    let (records, end) = read_log(bytes.clone(), 10);
    assert_eq!(end, Ok(false));
    assert_eq!(records, payloads[1..].to_vec());
    // From inside the fragmented record: its last fragment is dropped.
    let (records, end) = read_log(bytes.clone(), 11);
    assert_eq!(end, Ok(false));
    assert_eq!(records, payloads[2..].to_vec());
    let (records, end) = read_log(bytes.clone(), BLOCK_SIZE as u64);
    assert_eq!(end, Ok(false));
    assert_eq!(records, payloads[2..].to_vec());
    // Behind the end of the log.
    let (records, end) = read_log(bytes, 10 * BLOCK_SIZE as u64);
    assert_eq!(end, Ok(false));
    assert!(records.is_empty());
}

#[test]
fn log_writer_continues_a_block() {
    let mut writer = Writer::new_with_block_offset(
        MemoryWritableFile::new(vec![1u8; 100]),
        BLOCK_SIZE - 3,
    );
    writer.add_record(&Slice::from_bytes(b"abc")).expect("write");
    let bytes = writer.dest().data();
    assert_eq!(&bytes[100..103], &[0, 0, 0]);
    assert_eq!(bytes.len(), 100 + 3 + HEADER_SIZE + 3);
    assert_eq!(bytes[103 + 6], RecordType::Full.tag());
    writer.sync().expect("sync");
}

#[test]
fn memory_files() {
    let mut w = MemoryWritableFile::new(vec![1, 2]);
    w.append(&Slice::from_bytes(&[3, 4])).unwrap();
    w.flush().unwrap();
    w.sync().unwrap();
    w.close().unwrap();
    assert_eq!(w.data(), &vec![1, 2, 3, 4]);
    let mut r = MemorySequentialFile::new(Rc::new(w.into_inner()));
    let mut scratch = [0u8; 3];
    assert_eq!(r.read(&mut scratch), Ok(3));
    assert_eq!(scratch, [1, 2, 3]);
    assert_eq!(r.read(&mut scratch), Ok(1));
    assert_eq!(scratch, [4, 2, 3]);
    assert_eq!(r.read(&mut scratch), Ok(0));
    let mut r = MemorySequentialFile::new(Rc::new(vec![9, 8, 7, 6]));
    r.skip(3).unwrap();
    assert_eq!(r.read(&mut scratch), Ok(1));
    assert_eq!(scratch[0], 6);
    r.skip(10).unwrap();
    assert_eq!(r.read(&mut scratch), Ok(0));
}
