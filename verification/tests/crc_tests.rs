use crc::{Crc, CRC_32_ISCSI};
use revel::util::crc::{extend, mask, unmask, value};

const CASTAGNOLI: Crc<u32> = Crc::<u32>::new(&CRC_32_ISCSI);

#[test]
fn test_crc_standard_results() {
    // From rfc3720 section B.4.
    let buf = vec![0; 32];
    assert_eq!(0x8a9136aa, value(&buf));
    let buf = vec![0xff; 32];
    assert_eq!(0x62a8ab43, value(&buf));

    let mut buf = vec![0xffu8; 32];
    for i in 0..32 {
        buf[i as usize] = i;
    }
    assert_eq!(0x46dd794e, value(&buf));

    for i in 0..32 {
        buf[i as usize] = 31 - i;
    }
    assert_eq!(0x113fdb5c, value(&buf));

    let data: [u8; 48] = [
        0x01, 0xc0, 0x00, 0x00, 0x00, 0x00, 0x00, 0x00, 0x00, 0x00, 0x00, 0x00, 0x00, 0x00, 0x00,
        0x00, 0x14, 0x00, 0x00, 0x00, 0x00, 0x00, 0x04, 0x00, 0x00, 0x00, 0x00, 0x14, 0x00, 0x00,
        0x00, 0x18, 0x28, 0x00, 0x00, 0x00, 0x00, 0x00, 0x00, 0x00, 0x02, 0x00, 0x00, 0x00, 0x00,
        0x00, 0x00, 0x00,
    ];
    assert_eq!(0xd9963a56, value(&data));
}

#[test]
fn test_crc_values() {
    assert_ne!(value("a".as_bytes()), value("foo".as_bytes()));
}

#[test]
fn test_crc_extend() {
    assert_eq!(
        value("hello world".as_bytes()),
        extend(value("h".as_bytes()), "ello world".as_bytes())
    );
    assert_eq!(
        value("hello world".as_bytes()),
        extend(value("hello ".as_bytes()), "world".as_bytes())
    );
}

#[test]
fn test_crc_mask() {
    let crc = value("foo".as_bytes());
    assert_ne!(crc, mask(crc));
    assert_ne!(crc, mask(mask(crc)));
    assert_eq!(crc, unmask(mask(crc)));
    assert_eq!(crc, unmask(unmask(mask(mask(crc)))));
}

#[test]
fn test_hello_world() {
    let bytes = "hello world".as_bytes();
    let crc = extend(value(&[1]), bytes);
    let mut digest = CASTAGNOLI.digest();
    digest.update(&[1]);
    digest.update(bytes);
    let crc1 = digest.finalize();
    assert_eq!(crc, crc1);
    assert_eq!(mask(crc), mask(crc1));
    assert_eq!(unmask(mask(crc)), unmask(mask(crc1)));
}

#[test]
fn crc_agrees_with_the_reference_crate() {
    let mut data = Vec::new();
    let mut x: u32 = 12345;
    for len in 0..300usize {
        x = x.wrapping_mul(1103515245).wrapping_add(12345);
        data.push((x >> 16) as u8);
        assert_eq!(value(&data), CASTAGNOLI.checksum(&data), "length {}", len + 1);
    }
    assert_eq!(value(&[]), CASTAGNOLI.checksum(&[]));
    assert_eq!(value(&[]), 0);
}

#[test]
fn crc_extend_continues_any_split() {
    let data = b"the quick brown fox jumps over the lazy dog";
    for cut in 0..=data.len() {
        assert_eq!(value(data), extend(value(&data[..cut]), &data[cut..]));
    }
    assert_eq!(extend(0x1234_5678, &[]), 0x1234_5678);
}

#[test]
fn mask_exact_values() {
    assert_eq!(mask(0), 0xa282_ead8);
    assert_eq!(unmask(0xa282_ead8), 0);
    // Rotating right by 15 and adding the constant wraps around.
    assert_eq!(mask(0xffff_ffff), 0xa282_ead7);
    assert_eq!(mask(0x0000_8000), 0xa282_ead9);
    for c in [0u32, 1, 0x8000_0000, 0xffff_ffff, 0xdead_beef, 0x5d7d_1528] {
        assert_eq!(unmask(mask(c)), c);
    }
}
