//! CRC-32C (Castagnoli) checksums, and the masking applied to a checksum
//! before it is stored next to the data it covers.

use vstd::prelude::*;

verus! {

/// The Castagnoli polynomial, bit-reversed.
pub const POLYNOMIAL: u32 = 0x82F6_3B78;

/// The constant added to a rotated checksum to mask it.
pub const MASK_DELTA: u32 = 0xa282_ead8;

/// One step of the checksum's shift register.
pub open spec fn crc_shift(c: u32) -> u32 {
    if c & 1 == 1 {
        (c >> 1) ^ POLYNOMIAL
    } else {
        c >> 1
    }
}

/// `n` steps of the shift register.
pub open spec fn crc_shift_n(c: u32, n: nat) -> u32
    decreases n,
{
    if n == 0 {
        c
    } else {
        crc_shift_n(crc_shift(c), (n - 1) as nat)
    }
}

/// The register after it has taken in the byte `b`.
pub open spec fn crc_byte(c: u32, b: u8) -> u32 {
    crc_shift_n(c ^ (b as u32), 8)
}

/// The register after it has taken in all of `data`, starting from `c`.
pub open spec fn crc_update(c: u32, data: Seq<u8>) -> u32
    decreases data.len(),
{
    if data.len() == 0 {
        c
    } else {
        crc_byte(crc_update(c, data.drop_last()), data.last())
    }
}

/// The CRC-32C checksum of `data`: the register starts with all bits set
/// and is inverted at the end.
pub open spec fn crc_value(data: Seq<u8>) -> u32 {
    crc_update(0xFFFF_FFFF, data) ^ 0xFFFF_FFFF
}

/// The checksum of some bytes followed by `data`, where `crc` is the
/// checksum of those bytes.
pub open spec fn crc_extend(crc: u32, data: Seq<u8>) -> u32 {
    crc_update(crc ^ 0xFFFF_FFFF, data) ^ 0xFFFF_FFFF
}

/// The masked form of `crc`: rotated right by 15 bits, plus `MASK_DELTA`,
/// modulo 2^32.
pub open spec fn mask_spec(crc: u32) -> u32 {
    ((((crc >> 15) | (crc << 17)) as int + MASK_DELTA as int) % 0x1_0000_0000) as u32
}

/// The checksum whose masked form is `masked`.
pub open spec fn unmask_spec(masked: u32) -> u32 {
    let rot = ((masked as int - MASK_DELTA as int) % 0x1_0000_0000) as u32;
    (rot >> 17) | (rot << 15)
}

/// Taking in `a + b` is taking in `a` and then `b`.
pub proof fn lemma_crc_update_concat(c: u32, a: Seq<u8>, b: Seq<u8>)
    ensures
        crc_update(c, a + b) == crc_update(crc_update(c, a), b),
    decreases b.len(),
{
    if b.len() == 0 {
        assert(a + b =~= a);
    } else {
        assert((a + b).drop_last() =~= a + b.drop_last());
        assert((a + b).last() == b.last());
        lemma_crc_update_concat(c, a, b.drop_last());
    }
}

/// A running checksum can be continued: the checksum of `a` followed by `b`
/// is the checksum of `a` extended by `b`.
pub proof fn crc_extend_law(a: Seq<u8>, b: Seq<u8>)
    ensures
        crc_value(a + b) == crc_extend(crc_value(a), b),
{
    lemma_crc_update_concat(0xFFFF_FFFF, a, b);
    let r = crc_update(0xFFFF_FFFF, a);
    assert((r ^ 0xFFFF_FFFFu32) ^ 0xFFFF_FFFFu32 == r) by (bit_vector);
}

/// Unmasking undoes masking.
pub proof fn mask_involution(crc: u32)
    ensures
        unmask_spec(mask_spec(crc)) == crc,
{
    let rot = (crc >> 15) | (crc << 17);
    assert(rot == (crc >> 15) | (crc << 17) ==> (rot >> 17) | (rot << 15) == crc) by (bit_vector);
}

/// Runs `data` through the shift register, bit by bit.
fn update(c: u32, data: &[u8]) -> (r: u32)
    ensures
        r == crc_update(c, data@),
{
    let mut r: u32 = c;
    let mut i: usize = 0;
    while i < data.len()
        invariant
            i <= data@.len(),
            r == crc_update(c, data@.take(i as int)),
        decreases data@.len() - i,
    {
        let ghost before = r;
        r = r ^ (data[i] as u32);
        let mut k: u8 = 0;
        while k < 8
            invariant
                k <= 8,
                crc_shift_n(r, (8 - k) as nat) == crc_byte(before, data@[i as int]),
            decreases 8 - k,
        {
            r = if r & 1 == 1 {
                (r >> 1) ^ POLYNOMIAL
            } else {
                r >> 1
            };
            k += 1;
        }
        proof {
            assert(data@.take(i + 1).drop_last() =~= data@.take(i as int));
        }
        i += 1;
    }
    assert(data@.take(i as int) =~= data@);
    r
}

/// The CRC-32C checksum of `data`.
pub fn value(data: &[u8]) -> (crc: u32)
    ensures
        crc == crc_value(data@),
{
    update(0xFFFF_FFFF, data) ^ 0xFFFF_FFFF
}

/// The checksum of the concatenation of some bytes and `data`, where
/// `init_crc` is the checksum of those bytes.
pub fn extend(init_crc: u32, data: &[u8]) -> (crc: u32)
    ensures
        crc == crc_extend(init_crc, data@),
{
    update(init_crc ^ 0xFFFF_FFFF, data) ^ 0xFFFF_FFFF
}

/// Returns a masked representation of `crc`, fit to be stored beside data
/// that may itself hold checksums.
pub fn mask(crc: u32) -> (masked: u32)
    ensures
        masked == mask_spec(crc),
{
    let rot: u32 = (crc >> 15) | (crc << 17);
    ((rot as u64 + MASK_DELTA as u64) % 0x1_0000_0000) as u32
}

/// Returns the checksum whose masked representation is `masked_crc`.
pub fn unmask(masked_crc: u32) -> (crc: u32)
    ensures
        crc == unmask_spec(masked_crc),
{
    let rot: u32 = ((masked_crc as u64 + 0x1_0000_0000 - MASK_DELTA as u64) % 0x1_0000_0000) as u32;
    (rot >> 17) | (rot << 15)
}

} // verus!
