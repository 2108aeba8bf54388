use revel::coding::{
    decode_fix32, decode_fixed64, encode_fixed32, encode_fixed64, encode_varint32,
    get_length_prefixed_slice, get_varint32, get_varint64, put_fixed32, put_fixed64,
    put_length_prefixed_slice, put_varint32, put_varint64, varint_length,
};
use revel::error::Error;
use revel::slice::Slice;

#[test]
fn test_coding_varint32() {
    let mut s = Vec::new();
    for i in 0..32 * 32 {
        let v = (i / 32) << (i % 32);
        put_varint32(&mut s, v);
    }

    let limit = s.len();
    let mut offset = 0;
    for i in 0..32 * 32 {
        let expected = (i / 32) << (i % 32);
        let (actual, var_size) = get_varint32(&s, offset, limit)
            .expect(format!("get varint32 failed, index: {}", i).as_str());
        assert_eq!(expected, actual, "failed, index: {}", i);
        assert_eq!(varint_length(actual as u64), var_size, "failed, index: {}", i);
        offset += var_size;
    }
    assert_eq!(offset, limit);
}

#[test]
fn test_coding_varint32_overflow() {
    let input = vec![129, 130, 131, 132, 133, 17];
    let result = get_varint32(input.as_slice(), 0, input.len());
    assert!(result.is_err());
}

#[test]
fn test_coding_varint32_truncation() {
    let large_value = (1u32 << 31) + 100;
    let mut buf = vec![];
    put_varint32(&mut buf, large_value);
    for len in 0..buf.len() {
        let result = get_varint32(buf.as_slice(), 0, len);
        assert!(result.is_err());
    }
    let result = get_varint32(buf.as_slice(), 0, buf.len()).expect("large value truncation failed");
    assert_eq!(large_value, result.0)
}

#[test]
fn varint_errors_are_corruption() {
    assert_eq!(get_varint32(&[0x80], 0, 1), Err(Error::Corruption));
    assert_eq!(get_varint32(&[], 0, 0), Err(Error::Corruption));
    // The fifth byte carries bits beyond the thirty-second.
    assert_eq!(get_varint32(&[0xff, 0xff, 0xff, 0xff, 0x1f], 0, 5), Err(Error::Corruption));
    assert_eq!(get_varint32(&[0xff, 0xff, 0xff, 0xff, 0x0f], 0, 5), Ok((u32::MAX, 5)));
    // A limit behind the buffer's end reads no further than the buffer.
    assert_eq!(get_varint32(&[0x05], 0, 9), Ok((5, 1)));
    assert_eq!(get_varint32(&[0x85], 0, 9), Err(Error::Corruption));
    assert_eq!(get_varint32(&[0x05], 3, 9), Err(Error::Corruption));
}

#[test]
fn varint_exact_bytes() {
    let mut buf = vec![];
    assert_eq!(put_varint32(&mut buf, 0), 1);
    assert_eq!(put_varint32(&mut buf, 127), 1);
    assert_eq!(put_varint32(&mut buf, 128), 2);
    assert_eq!(put_varint32(&mut buf, 300), 2);
    assert_eq!(put_varint32(&mut buf, 16384), 3);
    assert_eq!(buf, vec![0, 127, 0x80, 1, 0xac, 2, 0x80, 0x80, 1]);
    assert_eq!(get_varint32(&buf, 4, buf.len()), Ok((300, 2)));
}

#[test]
fn varint_length_at_powers_of_128() {
    assert_eq!(varint_length(0), 1);
    assert_eq!(varint_length(127), 1);
    assert_eq!(varint_length(128), 2);
    assert_eq!(varint_length(16383), 2);
    assert_eq!(varint_length(16384), 3);
    assert_eq!(varint_length((1 << 21) - 1), 3);
    assert_eq!(varint_length(1 << 21), 4);
    assert_eq!(varint_length(1 << 28), 5);
    assert_eq!(varint_length(u32::MAX as u64), 5);
    assert_eq!(varint_length(u64::MAX), 10);
}

#[test]
fn encode_varint32_in_place() {
    let mut buf = vec![9u8; 8];
    let n = encode_varint32(&mut buf, 300, 2);
    assert_eq!(n, 2);
    assert_eq!(buf, vec![9, 9, 0xac, 2, 9, 9, 9, 9]);
    let n = encode_varint32(&mut buf, u32::MAX, 3);
    assert_eq!(n, 5);
    assert_eq!(buf, vec![9, 9, 0xac, 0xff, 0xff, 0xff, 0xff, 0x0f]);
}

#[test]
fn varint64_round_trip() {
    let values = [0u64, 1, 127, 128, 1 << 35, (1 << 56) - 1, u64::MAX];
    let mut buf = vec![];
    for v in values {
        assert_eq!(put_varint64(&mut buf, v), varint_length(v));
    }
    let mut offset = 0;
    for v in values {
        let (got, n) = get_varint64(&buf, offset, buf.len()).expect("varint64");
        assert_eq!(got, v);
        offset += n;
    }
    assert_eq!(offset, buf.len());
    // Ten bytes whose value does not fit in 64 bits.
    let too_big = [0xff, 0xff, 0xff, 0xff, 0xff, 0xff, 0xff, 0xff, 0xff, 0x02];
    assert_eq!(get_varint64(&too_big, 0, 10), Err(Error::Corruption));
}

#[test]
fn fixed_width_little_endian() {
    let mut buf = vec![0u8; 12];
    assert_eq!(encode_fixed32(&mut buf, 0x0403_0201, 0), 4);
    assert_eq!(encode_fixed64(&mut buf, 0x0c0b_0a09_0807_0605, 4), 8);
    assert_eq!(buf, vec![1, 2, 3, 4, 5, 6, 7, 8, 9, 10, 11, 12]);
    assert_eq!(decode_fix32(&buf), 0x0403_0201);
    assert_eq!(decode_fix32(&buf[4..]), 0x0807_0605);
    assert_eq!(decode_fixed64(&buf, 4), 0x0c0b_0a09_0807_0605);
    let mut out = vec![];
    put_fixed32(&mut out, 0x0403_0201);
    put_fixed64(&mut out, 0x0c0b_0a09_0807_0605);
    assert_eq!(out, buf);
    let mut max = vec![];
    put_fixed64(&mut max, u64::MAX);
    assert_eq!(decode_fixed64(&max, 0), u64::MAX);
}

#[test]
fn length_prefixed_slices() {
    let mut buf = vec![];
    put_length_prefixed_slice(&mut buf, &Slice::from_bytes(b"hello"));
    put_length_prefixed_slice(&mut buf, &Slice::from_empty());
    let long = vec![7u8; 200];
    put_length_prefixed_slice(&mut buf, &Slice::from_bytes(&long));
    assert_eq!(&buf[..7], &[5, b'h', b'e', b'l', b'l', b'o', 0]);
    let (first, n) = get_length_prefixed_slice(&buf).expect("first");
    assert_eq!(first.data(), b"hello");
    assert_eq!(n, 6);
    let (second, m) = get_length_prefixed_slice(&buf[n..]).expect("second");
    assert_eq!(second.size(), 0);
    assert_eq!(m, 1);
    let (third, k) = get_length_prefixed_slice(&buf[n + m..]).expect("third");
    assert_eq!(third.data(), long.as_slice());
    assert_eq!(k, 202);
    // The prefix promises more than there is.
    assert!(matches!(get_length_prefixed_slice(&[3, 1, 2]), Err(Error::Corruption)));
    assert!(matches!(get_length_prefixed_slice(&[]), Err(Error::Corruption)));
}
