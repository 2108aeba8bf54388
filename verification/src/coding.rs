//! Fixed-width little-endian integers, base-128 varints and
//! length-prefixed byte strings.

use vstd::prelude::*;
use crate::error::Error;
use crate::slice::Slice;

verus! {

/// The four little-endian bytes of `v`.
pub open spec fn fixed32_bytes(v: u32) -> Seq<u8> {
    seq![
        (v % 256) as u8,
        (v / 256 % 256) as u8,
        (v / 65536 % 256) as u8,
        (v / 16777216 % 256) as u8,
    ]
}

/// The number whose little-endian bytes are the first four of `s`.
pub open spec fn fixed32_value(s: Seq<u8>) -> u32
    recommends
        s.len() >= 4,
{
    (s[0] as int + 256 * (s[1] as int) + 65536 * (s[2] as int) + 16777216 * (s[3] as int)) as u32
}

/// The eight little-endian bytes of `v`.
pub open spec fn fixed64_bytes(v: u64) -> Seq<u8> {
    fixed32_bytes((v % 0x1_0000_0000) as u32) + fixed32_bytes((v / 0x1_0000_0000) as u32)
}

/// The number whose little-endian bytes are the first eight of `s`.
pub open spec fn fixed64_value(s: Seq<u8>) -> u64
    recommends
        s.len() >= 8,
{
    (fixed32_value(s) as int + 0x1_0000_0000 * (fixed32_value(s.skip(4)) as int)) as u64
}

/// `s` with the bytes from `at` on overwritten by `piece`.
pub open spec fn overwrite(s: Seq<u8>, at: int, piece: Seq<u8>) -> Seq<u8>
    recommends
        0 <= at,
        at + piece.len() <= s.len(),
{
    s.subrange(0, at) + piece + s.subrange(at + piece.len(), s.len() as int)
}

/// Decoding four bytes undoes encoding them, whatever follows.
pub proof fn lemma_fixed32_round_trip(v: u32, rest: Seq<u8>)
    ensures
        fixed32_bytes(v).len() == 4,
        fixed32_value(fixed32_bytes(v) + rest) == v,
{
    let s = fixed32_bytes(v) + rest;
    let (b0, b1, b2, b3) = (v % 256, v / 256 % 256, v / 65536 % 256, v / 16777216 % 256);
    assert(s[0] == b0 && s[1] == b1 && s[2] == b2 && s[3] == b3);
    assert(v % 256 + 256 * (v / 256 % 256) + 65536 * (v / 65536 % 256) + 16777216 * (v / 16777216
        % 256) == v) by (bit_vector);
    assert(b0 + 256 * b1 + 65536 * b2 + 16777216 * b3 == v);
}

/// Decoding eight bytes undoes encoding them, whatever follows.
pub proof fn lemma_fixed64_round_trip(v: u64, rest: Seq<u8>)
    ensures
        fixed64_bytes(v).len() == 8,
        fixed64_value(fixed64_bytes(v) + rest) == v,
{
    let lo = (v % 0x1_0000_0000) as u32;
    let hi = (v / 0x1_0000_0000) as u32;
    let s = fixed64_bytes(v) + rest;
    assert(s =~= fixed32_bytes(lo) + (fixed32_bytes(hi) + rest));
    assert(s.skip(4) =~= fixed32_bytes(hi) + rest);
    lemma_fixed32_round_trip(lo, fixed32_bytes(hi) + rest);
    lemma_fixed32_round_trip(hi, rest);
}

/// Writes `value` at `offset` as four little-endian bytes; returns 4.
pub fn encode_fixed32(buf: &mut [u8], value: u32, offset: usize) -> (n: usize)
    requires
        offset + 4 <= old(buf)@.len(),
    ensures
        n == 4,
        final(buf)@ == overwrite(old(buf)@, offset as int, fixed32_bytes(value)),
{
    assert(value & 0xff == value % 256 && (value >> 8) & 0xff == value / 256 % 256 && (value >> 16)
        & 0xff == value / 65536 % 256 && (value >> 24) & 0xff == value / 16777216 % 256)
        by (bit_vector);
    buf[offset] = (value & 0xff) as u8;
    buf[offset + 1] = ((value >> 8) & 0xff) as u8;
    buf[offset + 2] = ((value >> 16) & 0xff) as u8;
    buf[offset + 3] = ((value >> 24) & 0xff) as u8;
    assert(buf@ =~= overwrite(old(buf)@, offset as int, fixed32_bytes(value)));
    4
}

/// Writes `value` at `offset` as eight little-endian bytes; returns 8.
pub fn encode_fixed64(buf: &mut [u8], value: u64, offset: usize) -> (n: usize)
    requires
        offset + 8 <= old(buf)@.len(),
    ensures
        n == 8,
        final(buf)@ == overwrite(old(buf)@, offset as int, fixed64_bytes(value)),
{
    assert((value & 0xffff_ffff) == value % 0x1_0000_0000 && (value >> 32) == value
        / 0x1_0000_0000) by (bit_vector);
    let lo: u32 = (value & 0xffff_ffff) as u32;
    let hi: u32 = (value >> 32) as u32;
    let len = buf.len();
    assert(offset + 8 <= len);
    encode_fixed32(buf, lo, offset);
    encode_fixed32(buf, hi, offset + 4);
    assert(buf@ =~= overwrite(old(buf)@, offset as int, fixed64_bytes(value)));
    8
}

/// Reads four little-endian bytes from the front of `buf`.
pub fn decode_fix32(buf: &[u8]) -> (v: u32)
    requires
        buf@.len() >= 4,
    ensures
        v == fixed32_value(buf@),
{
    let b0: u32 = buf[0] as u32;
    let b1: u32 = buf[1] as u32;
    let b2: u32 = buf[2] as u32;
    let b3: u32 = buf[3] as u32;
    assert(b0 < 256 && b1 < 256 && b2 < 256 && b3 < 256 ==> (b0 | (b1 << 8) | (b2 << 16) | (b3
        << 24)) == b0 + 256 * b1 + 65536 * b2 + 16777216 * b3) by (bit_vector);
    b0 | (b1 << 8) | (b2 << 16) | (b3 << 24)
}

/// Reads eight little-endian bytes of `buf`, starting at `offset`.
pub fn decode_fixed64(buf: &[u8], offset: usize) -> (v: u64)
    requires
        offset + 8 <= buf@.len(),
    ensures
        v == fixed64_value(buf@.skip(offset as int)),
{
    let len = buf.len();
    assert(offset + 8 <= len);
    let lo: u64 = decode_fix32(vstd::slice::slice_subrange(buf, offset, offset + 4)) as u64;
    let hi: u64 = decode_fix32(vstd::slice::slice_subrange(buf, offset + 4, offset + 8)) as u64;
    let ghost s = buf@.skip(offset as int);
    assert(fixed32_value(s) == lo) by {
        assert(buf@.subrange(offset as int, offset + 4) =~= s.take(4));
    }
    assert(fixed32_value(s.skip(4)) == hi) by {
        assert(buf@.subrange(offset + 4, offset + 8) =~= s.skip(4).take(4));
    }
    assert(lo < 0x1_0000_0000 && hi < 0x1_0000_0000 ==> (lo | (hi << 32)) == lo + 0x1_0000_0000
        * hi) by (bit_vector);
    lo | (hi << 32)
}


/// The base-128 encoding of `v`: seven bits to a byte, lowest group first,
/// the high bit set on every byte but the last.
pub open spec fn varint_bytes(v: nat) -> Seq<u8>
    decreases v,
{
    if v < 128 {
        seq![v as u8]
    } else {
        seq![(v % 128 + 128) as u8] + varint_bytes(v / 128)
    }
}

/// How many bytes the base-128 encoding of `v` takes.
pub open spec fn varint_len(v: nat) -> nat
    decreases v,
{
    if v < 128 {
        1
    } else {
        1 + varint_len(v / 128)
    }
}

/// Reads one base-128 number from the front of `s`, looking at no more than
/// `max_len` bytes: the number and the count of bytes it took, or `None`
/// where `s` ends, or `max_len` is used up, before a byte without the high
/// bit.
pub open spec fn varint_parse(s: Seq<u8>, max_len: nat) -> Option<(nat, nat)>
    decreases max_len,
{
    if max_len == 0 || s.len() == 0 {
        None
    } else if s[0] < 128 {
        Some((s[0] as nat, 1nat))
    } else {
        match varint_parse(s.skip(1), (max_len - 1) as nat) {
            Some((v, n)) => Some(((s[0] - 128) as nat + 128 * v, n + 1)),
            None => None,
        }
    }
}

/// A varint of at most five bytes whose value fits in 32 bits.
pub open spec fn varint32_parse(s: Seq<u8>) -> Option<(u32, nat)> {
    match varint_parse(s, 5) {
        Some((v, n)) => if v <= u32::MAX {
            Some((v as u32, n))
        } else {
            None
        },
        None => None,
    }
}

/// A varint of at most ten bytes whose value fits in 64 bits.
pub open spec fn varint64_parse(s: Seq<u8>) -> Option<(u64, nat)> {
    match varint_parse(s, 10) {
        Some((v, n)) => if v <= u64::MAX {
            Some((v as u64, n))
        } else {
            None
        },
        None => None,
    }
}

/// The bytes of `s` that a bounded read may look at: from `offset` up to
/// `limit`, or up to the end of `s` where that comes first.
pub open spec fn window(s: Seq<u8>, offset: int, limit: int) -> Seq<u8> {
    let end = if limit < s.len() {
        limit
    } else {
        s.len() as int
    };
    if 0 <= offset <= end {
        s.subrange(offset, end)
    } else {
        Seq::empty()
    }
}

/// `data` behind its own length as a varint.
pub open spec fn length_prefixed_bytes(data: Seq<u8>) -> Seq<u8> {
    varint_bytes(data.len()) + data
}

/// Reads a length-prefixed byte string from the front of `s`: the string
/// and the count of bytes read, prefix included.
#[verifier::opaque]
pub open spec fn length_prefixed_parse(s: Seq<u8>) -> Option<(Seq<u8>, nat)> {
    match varint32_parse(s) {
        Some((len, n)) => if n + len <= s.len() {
            Some((s.subrange(n as int, n + len), n + len as nat))
        } else {
            None
        },
        None => None,
    }
}

/// 128 to the power `i`.
pub open spec fn pow128(i: nat) -> nat
    decreases i,
{
    if i == 0 {
        1
    } else {
        128 * pow128((i - 1) as nat)
    }
}

proof fn lemma_pow128_bound(i: nat)
    requires
        i <= 10,
    ensures
        1 <= pow128(i) <= 0x40_0000_0000_0000_0000,
    decreases 10 - i,
{
    if i == 10 {
        reveal_with_fuel(pow128, 11);
    } else {
        lemma_pow128_bound(i + 1);
    }
}

/// A parsed varint takes between one and `max_len` bytes, all of them in
/// `s`, and its value is below `128^max_len`.
pub proof fn lemma_varint_parse_bounds(s: Seq<u8>, max_len: nat)
    ensures
        match varint_parse(s, max_len) {
            Some((v, n)) => 1 <= n <= max_len && n <= s.len() && v < pow128(n),
            None => true,
        },
    decreases max_len,
{
    reveal_with_fuel(pow128, 2);
    if max_len == 0 || s.len() == 0 || s[0] < 128 {
    } else {
        lemma_varint_parse_bounds(s.skip(1), (max_len - 1) as nat);
        match varint_parse(s.skip(1), (max_len - 1) as nat) {
            Some((v, n)) => {
                assert(pow128(n + 1) == 128 * pow128(n));
            },
            None => {},
        }
    }
}

/// What follows a varint does not change how it reads.
pub proof fn lemma_varint_parse_prefix(s: Seq<u8>, t: Seq<u8>, max_len: nat)
    requires
        varint_parse(s, max_len) is Some,
    ensures
        varint_parse(s + t, max_len) == varint_parse(s, max_len),
    decreases max_len,
{
    if s[0] < 128 {
    } else {
        assert((s + t).skip(1) =~= s.skip(1) + t);
        lemma_varint_parse_prefix(s.skip(1), t, (max_len - 1) as nat);
    }
}

/// The encoding of `v` has `varint_len(v)` bytes, and reads back as `v`
/// whatever follows it, where the reader may look at that many bytes.
pub proof fn lemma_varint_round_trip(v: nat, rest: Seq<u8>, max_len: nat)
    requires
        varint_len(v) <= max_len,
    ensures
        varint_bytes(v).len() == varint_len(v),
        varint_parse(varint_bytes(v) + rest, max_len) == Some((v, varint_len(v))),
    decreases v,
{
    let s = varint_bytes(v) + rest;
    if v < 128 {
        assert(s[0] == v);
    } else {
        lemma_varint_round_trip(v / 128, rest, (max_len - 1) as nat);
        assert(s[0] == v % 128 + 128);
        assert(s.skip(1) =~= varint_bytes(v / 128) + rest);
    }
}

/// A 32-bit number encodes in at most five bytes, a 64-bit one in at most ten.
pub proof fn lemma_varint_len_bounds(v: nat)
    ensures
        1 <= varint_len(v),
        v <= u32::MAX ==> varint_len(v) <= 5,
        v <= u64::MAX ==> varint_len(v) <= 10,
{
    reveal_with_fuel(varint_len, 11);
}

/// A 32-bit number that is encoded and then decoded comes back unchanged,
/// together with the length of its encoding.
pub proof fn varint32_round_trip(v: u32, rest: Seq<u8>)
    ensures
        varint32_parse(varint_bytes(v as nat) + rest) == Some((v, varint_len(v as nat))),
{
    lemma_varint_len_bounds(v as nat);
    lemma_varint_round_trip(v as nat, rest, 5);
}

/// A 64-bit number that is encoded and then decoded comes back unchanged,
/// together with the length of its encoding.
pub proof fn varint64_round_trip(v: u64, rest: Seq<u8>)
    ensures
        varint64_parse(varint_bytes(v as nat) + rest) == Some((v, varint_len(v as nat))),
{
    lemma_varint_len_bounds(v as nat);
    lemma_varint_round_trip(v as nat, rest, 10);
}

proof fn lemma_varint_truncation(v: nat, n: nat, max_len: nat)
    requires
        n < varint_len(v),
    ensures
        varint_parse(varint_bytes(v).take(n as int), max_len) is None,
    decreases v,
{
    lemma_varint_round_trip(v, Seq::empty(), varint_len(v));
    let s = varint_bytes(v).take(n as int);
    if n == 0 || max_len == 0 {
    } else {
        assert(s[0] == v % 128 + 128);
        assert(s.skip(1) =~= varint_bytes(v / 128).take(n - 1));
        lemma_varint_truncation(v / 128, (n - 1) as nat, (max_len - 1) as nat);
    }
}

/// An encoding that is cut short does not decode: no proper prefix of the
/// encoding of `v` reads as a number, however many bytes the reader may
/// look at.
pub proof fn varint_truncation(v: nat, n: nat, max_len: nat)
    requires
        n < varint_len(v),
    ensures
        varint_parse(varint_bytes(v).take(n as int), max_len) is None,
        varint32_parse(varint_bytes(v).take(n as int)) is None,
        varint64_parse(varint_bytes(v).take(n as int)) is None,
{
    lemma_varint_truncation(v, n, max_len);
    lemma_varint_truncation(v, n, 5);
    lemma_varint_truncation(v, n, 10);
}

/// A length-prefixed string reads back as itself, whatever follows it.
pub proof fn length_prefixed_round_trip(data: Seq<u8>, rest: Seq<u8>)
    requires
        data.len() <= u32::MAX,
    ensures
        length_prefixed_parse(length_prefixed_bytes(data) + rest) == Some(
            (data, length_prefixed_bytes(data).len()),
        ),
        length_prefixed_bytes(data).len() == varint_len(data.len()) + data.len(),
{
    reveal(length_prefixed_parse);
    let n = varint_len(data.len());
    let s = length_prefixed_bytes(data) + rest;
    assert(s =~= varint_bytes(data.len()) + (data + rest));
    varint32_round_trip(data.len() as u32, data + rest);
    lemma_varint_len_bounds(data.len());
    lemma_varint_round_trip(data.len(), data + rest, 5);
    assert(s.subrange(n as int, n + data.len() as int) =~= data);
}

/// A length-prefixed string that was read lies within the bytes it was
/// read from, behind a prefix of at least one byte.
pub proof fn lemma_length_prefixed_bounds(s: Seq<u8>)
    ensures
        match length_prefixed_parse(s) {
            Some((data, n)) => 0 < n <= s.len() && data.len() < n && data.len() <= u32::MAX,
            None => true,
        },
{
    reveal(length_prefixed_parse);
    lemma_varint_parse_bounds(s, 5);
}

/// Returns the length of the varint32 or varint64 encoding of `v`.
pub fn varint_length(v: u64) -> (len: usize)
    ensures
        len == varint_len(v as nat),
        1 <= len <= 10,
{
    let mut rest: u64 = v;
    let mut len: usize = 1;
    proof {
        lemma_varint_len_bounds(v as nat);
    }
    while rest >= 128
        invariant
            len >= 1,
            len - 1 + varint_len(rest as nat) == varint_len(v as nat),
            varint_len(v as nat) <= 10,
        decreases rest,
    {
        rest = rest / 128;
        len += 1;
        proof {
            lemma_varint_len_bounds(rest as nat);
        }
    }
    len
}

/// Appends the varint encoding of `v` to `dst`; returns how many bytes
/// that took.
fn put_varint(dst: &mut Vec<u8>, v: u64) -> (n: usize)
    ensures
        n == varint_len(v as nat),
        final(dst)@ == old(dst)@ + varint_bytes(v as nat),
{
    let mut rest: u64 = v;
    let mut n: usize = 1;
    proof {
        lemma_varint_len_bounds(v as nat);
    }
    while rest >= 128
        invariant
            n >= 1,
            n - 1 + varint_len(rest as nat) == varint_len(v as nat),
            varint_len(v as nat) <= 10,
            dst@ + varint_bytes(rest as nat) == old(dst)@ + varint_bytes(v as nat),
        decreases rest,
    {
        let ghost before = dst@;
        dst.push((rest % 128) as u8 + 128);
        proof {
            lemma_varint_len_bounds((rest / 128) as nat);
            assert(dst@ + varint_bytes((rest / 128) as nat) =~= before + varint_bytes(rest as nat));
        }
        rest = rest / 128;
        n += 1;
    }
    dst.push(rest as u8);
    assert(dst@ =~= old(dst)@ + varint_bytes(v as nat));
    n
}

/// Appends the varint encoding of `v` to `dst`; returns how many bytes
/// that took.
pub fn put_varint32(dst: &mut Vec<u8>, v: u32) -> (n: usize)
    ensures
        n == varint_len(v as nat),
        1 <= n <= 5,
        final(dst)@ == old(dst)@ + varint_bytes(v as nat),
{
    proof {
        lemma_varint_len_bounds(v as nat);
    }
    put_varint(dst, v as u64)
}

/// Appends the varint encoding of `v` to `dst`; returns how many bytes
/// that took.
pub fn put_varint64(dst: &mut Vec<u8>, v: u64) -> (n: usize)
    ensures
        n == varint_len(v as nat),
        1 <= n <= 10,
        final(dst)@ == old(dst)@ + varint_bytes(v as nat),
{
    proof {
        lemma_varint_len_bounds(v as nat);
    }
    put_varint(dst, v)
}

/// Writes the varint encoding of `v` into `buf` at `offset`; returns how
/// many bytes that took.
pub fn encode_varint32(buf: &mut [u8], v: u32, offset: usize) -> (n: usize)
    requires
        offset + varint_len(v as nat) <= old(buf)@.len(),
    ensures
        n == varint_len(v as nat),
        final(buf)@ == overwrite(old(buf)@, offset as int, varint_bytes(v as nat)),
{
    let mut rest: u32 = v;
    let mut i: usize = offset;
    let ghost mut done: Seq<u8> = Seq::empty();
    let len = buf.len();
    proof {
        lemma_varint_round_trip(v as nat, Seq::empty(), varint_len(v as nat));
        assert(buf@ =~= overwrite(buf@, offset as int, done));
    }
    while rest >= 128
        invariant
            buf@.len() == len == old(buf)@.len(),
            offset <= i,
            i + varint_len(rest as nat) == offset + varint_len(v as nat) <= len,
            done.len() == i - offset,
            done + varint_bytes(rest as nat) == varint_bytes(v as nat),
            buf@ == overwrite(old(buf)@, offset as int, done),
        decreases rest,
    {
        let b: u8 = (rest % 128) as u8 + 128;
        buf[i] = b;
        proof {
            assert(done.push(b) + varint_bytes((rest / 128) as nat) =~= done + varint_bytes(
                rest as nat,
            ));
            assert(buf@ =~= overwrite(old(buf)@, offset as int, done.push(b)));
            done = done.push(b);
        }
        rest = rest / 128;
        i += 1;
    }
    buf[i] = rest as u8;
    proof {
        assert(done.push(rest as u8) =~= varint_bytes(v as nat));
        assert(buf@ =~= overwrite(old(buf)@, offset as int, varint_bytes(v as nat)));
    }
    i + 1 - offset
}

/// How a partial read continues: the number read from the rest of the
/// bytes, placed above the `i` groups already gathered in `acc`.
pub open spec fn varint_resume(acc: nat, i: nat, rest: Option<(nat, nat)>) -> Option<(nat, nat)> {
    match rest {
        Some((v, n)) => Some((acc + pow128(i) * v, n + i)),
        None => None,
    }
}

/// Reads a varint of at most `max_len` bytes from `buf`, looking only at
/// the bytes from `offset` up to `limit`.
fn get_varint(buf: &[u8], offset: usize, limit: usize, max_len: usize) -> (r: Option<
    (u128, usize),
>)
    requires
        max_len <= 10,
    ensures
        match r {
            Some((v, n)) => varint_parse(window(buf@, offset as int, limit as int), max_len as nat)
                == Some((v as nat, n as nat)),
            None => varint_parse(window(buf@, offset as int, limit as int), max_len as nat)
                is None,
        },
{
    let end: usize = if limit < buf.len() {
        limit
    } else {
        buf.len()
    };
    if offset > end {
        return None;
    }
    let ghost w = window(buf@, offset as int, limit as int);
    let mut acc: u128 = 0;
    let mut mult: u128 = 1;
    let mut i: usize = 0;
    proof {
        assert(w.skip(0) =~= w);
        match varint_parse(w, max_len as nat) {
            Some((v, n)) => {
                let one = pow128(0);
                assert(0 + one * v == v) by (nonlinear_arith)
                    requires
                        one == 1,
                ;
            },
            None => {},
        }
    }
    while i < max_len && i < end - offset
        invariant
            offset <= end <= buf@.len(),
            w == buf@.subrange(offset as int, end as int),
            w == window(buf@, offset as int, limit as int),
            i <= max_len <= 10,
            i <= end - offset,
            mult == pow128(i as nat),
            acc < mult,
            varint_parse(w, max_len as nat) == varint_resume(
                acc as nat,
                i as nat,
                varint_parse(w.skip(i as int), (max_len - i) as nat),
            ),
        decreases max_len - i,
    {
        let byte: u8 = buf[offset + i];
        proof {
            lemma_pow128_bound(i as nat);
            lemma_pow128_bound((i + 1) as nat);
            assert(w.skip(i as int)[0] == byte);
            assert(w.skip(i as int).skip(1) =~= w.skip(i + 1));
        }
        if byte < 128 {
            assert(acc + mult * byte < 128 * mult) by (nonlinear_arith)
                requires
                    acc < mult,
                    byte < 128,
            ;
            assert(varint_parse(w.skip(i as int), (max_len - i) as nat) == Some(
                (byte as nat, 1nat),
            ));
            return Some((acc + mult * (byte as u128), i + 1));
        }
        let ghost low = acc;
        assert(acc + mult * (byte - 128) < 128 * mult) by (nonlinear_arith)
            requires
                acc < mult,
                128 <= byte < 256,
        ;
        acc = acc + mult * ((byte - 128) as u128);
        proof {
            let tail = varint_parse(w.skip(i + 1), (max_len - i - 1) as nat);
            if tail is Some {
                let (v, _n) = tail.unwrap();
                assert(low + mult * ((byte - 128) + 128 * v) == low + mult * (byte - 128) + (128
                    * mult) * v) by (nonlinear_arith);
            }
        }
        mult = mult * 128;
        i += 1;
    }
    None
}

/// The general path of `get_varint32`: reads up to five bytes.
pub fn get_varint32_fallback(buf: &[u8], offset: usize, limit: usize) -> (r: Result<
    (u32, usize),
    Error,
>)
    ensures
        match r {
            Ok((v, n)) => varint32_parse(window(buf@, offset as int, limit as int)) == Some(
                (v, n as nat),
            ),
            Err(e) => e == Error::Corruption && varint32_parse(
                window(buf@, offset as int, limit as int),
            ) is None,
        },
{
    match get_varint(buf, offset, limit, 5) {
        Some((v, n)) => {
            if v <= 0xffff_ffff {
                Ok((v as u32, n))
            } else {
                Err(Error::Corruption)
            }
        },
        None => Err(Error::Corruption),
    }
}

/// Reads a varint32 from `buf`, looking only at the bytes from `offset` up
/// to `limit` (or the end of `buf`): the value and the count of bytes
/// read. Fails with `Corruption` where the bytes end inside the number,
/// where it runs past five bytes, or where it does not fit in 32 bits.
pub fn get_varint32(buf: &[u8], offset: usize, limit: usize) -> (r: Result<(u32, usize), Error>)
    ensures
        match r {
            Ok((v, n)) => varint32_parse(window(buf@, offset as int, limit as int)) == Some(
                (v, n as nat),
            ),
            Err(e) => e == Error::Corruption && varint32_parse(
                window(buf@, offset as int, limit as int),
            ) is None,
        },
{
    if offset < limit && offset < buf.len() {
        let result: u8 = buf[offset];
        if result & 128 == 0 {
            assert(result & 128 == 0 ==> result < 128) by (bit_vector);
            assert(window(buf@, offset as int, limit as int)[0] == result);
            return Ok((result as u32, 1));
        }
    }
    get_varint32_fallback(buf, offset, limit)
}

/// Reads a varint64 from `buf`, looking only at the bytes from `offset` up
/// to `limit` (or the end of `buf`): the value and the count of bytes
/// read. Fails with `Corruption` where the bytes end inside the number,
/// where it runs past ten bytes, or where it does not fit in 64 bits.
pub fn get_varint64(buf: &[u8], offset: usize, limit: usize) -> (r: Result<(u64, usize), Error>)
    ensures
        match r {
            Ok((v, n)) => varint64_parse(window(buf@, offset as int, limit as int)) == Some(
                (v, n as nat),
            ),
            Err(e) => e == Error::Corruption && varint64_parse(
                window(buf@, offset as int, limit as int),
            ) is None,
        },
{
    match get_varint(buf, offset, limit, 10) {
        Some((v, n)) => {
            if v <= 0xffff_ffff_ffff_ffff {
                Ok((v as u64, n))
            } else {
                Err(Error::Corruption)
            }
        },
        None => Err(Error::Corruption),
    }
}

/// Appends `value` to `dst`, behind its length as a varint32.
pub fn put_length_prefixed_slice(dst: &mut Vec<u8>, value: &Slice)
    requires
        value@.len() <= u32::MAX,
    ensures
        final(dst)@ == old(dst)@ + length_prefixed_bytes(value@),
{
    put_varint32(dst, value.size() as u32);
    dst.extend_from_slice(value.data());
    assert(dst@ =~= old(dst)@ + length_prefixed_bytes(value@));
}

/// Reads a length-prefixed byte string from the front of `input`: the
/// string and the count of bytes read, prefix included. Fails with
/// `Corruption` where the prefix does not decode or promises more bytes
/// than `input` holds.
pub fn get_length_prefixed_slice<'a>(input: &'a [u8]) -> (r: Result<(Slice<'a>, usize), Error>)
    ensures
        match r {
            Ok((s, n)) => length_prefixed_parse(input@) == Some((s@, n as nat)),
            Err(e) => e == Error::Corruption && length_prefixed_parse(input@) is None,
        },
{
    assert(window(input@, 0, input@.len() as int) =~= input@);
    proof {
        reveal(length_prefixed_parse);
    }
    match get_varint32(input, 0, input.len()) {
        Ok((len, n)) => {
            proof {
                lemma_varint_parse_bounds(input@, 5);
            }
            if len as usize <= input.len() - n {
                let body = vstd::slice::slice_subrange(input, n, n + len as usize);
                Ok((Slice::from_bytes(body), n + len as usize))
            } else {
                Err(Error::Corruption)
            }
        },
        Err(_) => Err(Error::Corruption),
    }
}


/// Appends `value` to `dst` as four little-endian bytes.
pub fn put_fixed32(dst: &mut Vec<u8>, value: u32)
    ensures
        final(dst)@ == old(dst)@ + fixed32_bytes(value),
{
    dst.push((value % 256) as u8);
    dst.push((value / 256 % 256) as u8);
    dst.push((value / 65536 % 256) as u8);
    dst.push((value / 16777216 % 256) as u8);
    assert(dst@ =~= old(dst)@ + fixed32_bytes(value));
}

/// Appends `value` to `dst` as eight little-endian bytes.
pub fn put_fixed64(dst: &mut Vec<u8>, value: u64)
    ensures
        final(dst)@ == old(dst)@ + fixed64_bytes(value),
{
    put_fixed32(dst, (value % 0x1_0000_0000) as u32);
    put_fixed32(dst, (value / 0x1_0000_0000) as u32);
    assert(dst@ =~= old(dst)@ + fixed64_bytes(value));
}

} // verus!
