//! Little-endian fixed-width and base-128 varint integer codecs, and
//! length-prefixed byte strings. These are the primitives every on-disk
//! format of the store is built from.
use vstd::prelude::*;

verus! {

/// 128^k, the weight of the k-th varint byte.
pub open spec fn p128(k: nat) -> int
    decreases k,
{
    if k == 0 {
        1
    } else {
        128 * p128((k - 1) as nat)
    }
}

/// The four bytes of a `u32`, least significant first.
pub open spec fn spec_fixed_u32(v: u32) -> Seq<u8> {
    seq![
        (v % 0x100) as u8,
        ((v / 0x100) % 0x100) as u8,
        ((v / 0x10000) % 0x100) as u8,
        ((v / 0x1000000) % 0x100) as u8,
    ]
}

/// The eight bytes of a `u64`, least significant first.
pub open spec fn spec_fixed_u64(v: u64) -> Seq<u8> {
    seq![
        (v % 0x100) as u8,
        ((v / 0x100) % 0x100) as u8,
        ((v / 0x10000) % 0x100) as u8,
        ((v / 0x1000000) % 0x100) as u8,
        ((v / 0x100000000) % 0x100) as u8,
        ((v / 0x10000000000) % 0x100) as u8,
        ((v / 0x1000000000000) % 0x100) as u8,
        ((v / 0x100000000000000) % 0x100) as u8,
    ]
}

/// The varint bytes of a `u32`: seven value bits per byte, least
/// significant group first, the high bit marking a continuation.
pub open spec fn spec_var_u32(v: u32) -> Seq<u8>
    decreases v,
{
    if v < 0x80 {
        seq![v as u8]
    } else {
        seq![(v % 0x80 + 0x80) as u8] + spec_var_u32(v / 0x80)
    }
}

/// The varint bytes of a `u64`.
pub open spec fn spec_var_u64(v: u64) -> Seq<u8>
    decreases v,
{
    if v < 0x80 {
        seq![v as u8]
    } else {
        seq![(v % 0x80 + 0x80) as u8] + spec_var_u64(v / 0x80)
    }
}

/// Decoding of a `u32` varint whose first byte is the `i`-th of the
/// encoding. A fifth byte may only carry the last four value bits; at
/// most five bytes are read.
pub open spec fn spec_var_u32_dec(s: Seq<u8>, i: nat) -> Option<(int, nat)>
    decreases s.len(),
{
    if s.len() == 0 || i >= 5 {
        None
    } else {
        let b = s[0];
        if i == 4 && b % 0x80 >= 0x10 {
            None
        } else if b < 0x80 {
            Some((b as int, 1))
        } else {
            match spec_var_u32_dec(s.skip(1), i + 1) {
                Some((hi, n)) => Some((b - 0x80 + 0x80 * hi, n + 1)),
                None => None,
            }
        }
    }
}

/// Decoding of a `u64` varint: a tenth byte may only carry the last
/// value bit; at most ten bytes are read.
pub open spec fn spec_var_u64_dec(s: Seq<u8>, i: nat) -> Option<(int, nat)>
    decreases s.len(),
{
    if s.len() == 0 || i >= 10 {
        None
    } else {
        let b = s[0];
        if i == 9 && b % 0x80 >= 0x2 {
            None
        } else if b < 0x80 {
            Some((b as int, 1))
        } else {
            match spec_var_u64_dec(s.skip(1), i + 1) {
                Some((hi, n)) => Some((b - 0x80 + 0x80 * hi, n + 1)),
                None => None,
            }
        }
    }
}

/// The value read back from four little-endian bytes.
pub open spec fn spec_fixed_u32_dec(s: Seq<u8>) -> int {
    s[0] + 0x100 * s[1] + 0x10000 * s[2] + 0x1000000 * s[3]
}

/// The value read back from eight little-endian bytes.
pub open spec fn spec_fixed_u64_dec(s: Seq<u8>) -> int {
    s[0] + 0x100 * s[1] + 0x10000 * s[2] + 0x1000000 * s[3] + 0x100000000 * s[4] + 0x10000000000
        * s[5] + 0x1000000000000 * s[6] + 0x100000000000000 * s[7]
}

/// Four little-endian bytes decode back to the `u32` they were made from.
pub proof fn lemma_fixed_u32_round_trip(v: u32)
    ensures
        spec_fixed_u32_dec(spec_fixed_u32(v)) == v,
{
    assert(spec_fixed_u32_dec(spec_fixed_u32(v)) == v) by (bit_vector);
}

/// Eight little-endian bytes decode back to the `u64` they were made from.
pub proof fn lemma_fixed_u64_round_trip(v: u64)
    ensures
        spec_fixed_u64_dec(spec_fixed_u64(v)) == v,
{
    assert(spec_fixed_u64_dec(spec_fixed_u64(v)) == v) by (bit_vector);
}

/// A varint `u32` length followed by that many raw bytes.
pub open spec fn spec_bytes_with_len(b: Seq<u8>) -> Seq<u8> {
    spec_var_u32(b.len() as u32) + b
}

/// Decoding of a length-prefixed byte string: the bytes and how many
/// input bytes they took, or nothing on a short or ill-formed buffer.
pub open spec fn spec_bytes_with_len_dec(s: Seq<u8>) -> Option<(Seq<u8>, nat)> {
    match spec_var_u32_dec(s, 0) {
        Some((len, n)) => {
            if n + len > s.len() {
                None
            } else {
                Some((s.subrange(n as int, n + len), (n + len) as nat))
            }
        },
        None => None,
    }
}

/// The numeric values of the byte weights the codecs rely on.
pub proof fn lemma_p128_values()
    ensures
        p128(0) == 1,
        p128(1) == 0x80,
        p128(2) == 0x4000,
        p128(3) == 0x200000,
        p128(4) == 0x10000000,
        p128(5) == 0x800000000,
        p128(6) == 0x40000000000,
        p128(7) == 0x2000000000000,
        p128(8) == 0x100000000000000,
        p128(9) == 0x8000000000000000,
{
    assert(p128(0) == 1);
    assert(p128(1) == 128 * p128(0));
    assert(p128(2) == 128 * p128(1));
    assert(p128(3) == 128 * p128(2));
    assert(p128(4) == 128 * p128(3));
    assert(p128(5) == 128 * p128(4));
    assert(p128(6) == 128 * p128(5));
    assert(p128(7) == 128 * p128(6));
    assert(p128(8) == 128 * p128(7));
    assert(p128(9) == 128 * p128(8));
}

pub proof fn lemma_var_u32_dec_bound(s: Seq<u8>, i: nat)
    ensures
        match spec_var_u32_dec(s, i) {
            Some((v, n)) => 0 <= v < 16 * p128((4 - i) as nat) && 1 <= n <= s.len(),
            None => true,
        },
    decreases s.len(),
{
    if s.len() == 0 || i >= 5 {
    } else {
        let b = s[0];
        if i == 4 && b % 0x80 >= 0x10 {
        } else if b < 0x80 {
            if i < 4 {
                lemma_p128_le(1, (4 - i) as nat);
            }
        } else {
            lemma_var_u32_dec_bound(s.skip(1), i + 1);
            if i < 4 {
                assert(p128((4 - i) as nat) == 128 * p128((4 - i - 1) as nat));
            }
        }
    }
}

pub proof fn lemma_var_u64_dec_bound(s: Seq<u8>, i: nat)
    ensures
        match spec_var_u64_dec(s, i) {
            Some((v, n)) => 0 <= v < 2 * p128((9 - i) as nat) && 1 <= n <= s.len(),
            None => true,
        },
    decreases s.len(),
{
    if s.len() == 0 || i >= 10 {
    } else {
        let b = s[0];
        if i == 9 && b % 0x80 >= 0x2 {
        } else if b < 0x80 {
            if i < 9 {
                lemma_p128_le(1, (9 - i) as nat);
            }
        } else {
            lemma_var_u64_dec_bound(s.skip(1), i + 1);
            if i < 9 {
                assert(p128((9 - i) as nat) == 128 * p128((9 - i - 1) as nat));
            }
        }
    }
}

/// A `u32` varint decodes back to the value it was made from, from any
/// byte position its length still fits in, whatever follows it.
pub proof fn lemma_var_u32_round_trip_at(v: u32, rest: Seq<u8>, i: nat)
    requires
        i <= 4,
        v < 16 * p128((4 - i) as nat),
    ensures
        spec_var_u32_dec(spec_var_u32(v) + rest, i) == Some((v as int, spec_var_u32(v).len())),
    decreases v,
{
    let s = spec_var_u32(v) + rest;
    if v < 0x80 {
        assert(s[0] == v as u8);
        if i == 4 {
            assert(p128(0) == 1);
        }
    } else {
        assert(i < 4) by {
            if i == 4 {
                assert(p128(0) == 1);
            }
        }
        let b = (v % 0x80 + 0x80) as u8;
        assert(s[0] == b);
        assert(s.skip(1) =~= spec_var_u32(v / 0x80) + rest);
        assert(v / 0x80 < 16 * p128((4 - (i + 1)) as nat)) by {
            assert(p128((4 - i) as nat) == 128 * p128((3 - i) as nat));
        }
        lemma_var_u32_round_trip_at(v / 0x80, rest, i + 1);
    }
}

/// A `u64` varint decodes back to the value it was made from.
pub proof fn lemma_var_u64_round_trip_at(v: u64, rest: Seq<u8>, i: nat)
    requires
        i <= 9,
        v < 2 * p128((9 - i) as nat),
    ensures
        spec_var_u64_dec(spec_var_u64(v) + rest, i) == Some((v as int, spec_var_u64(v).len())),
    decreases v,
{
    let s = spec_var_u64(v) + rest;
    if v < 0x80 {
        assert(s[0] == v as u8);
        if i == 9 {
            assert(p128(0) == 1);
        }
    } else {
        assert(i < 9) by {
            if i == 9 {
                assert(p128(0) == 1);
            }
        }
        let b = (v % 0x80 + 0x80) as u8;
        assert(s[0] == b);
        assert(s.skip(1) =~= spec_var_u64(v / 0x80) + rest);
        assert(v / 0x80 < 2 * p128((9 - (i + 1)) as nat)) by {
            assert(p128((9 - i) as nat) == 128 * p128((8 - i) as nat));
        }
        lemma_var_u64_round_trip_at(v / 0x80, rest, i + 1);
    }
}

/// Every `u32` is below the bound that five varint bytes can carry.
pub proof fn lemma_u32_fits_varint(v: u32)
    ensures
        v < 16 * p128(4),
{
    lemma_p128_values();
}

/// Every `u64` is below the bound that ten varint bytes can carry.
pub proof fn lemma_u64_fits_varint(v: u64)
    ensures
        v < 2 * p128(9),
{
    lemma_p128_values();
}

pub proof fn lemma_var_u32_round_trip(v: u32, rest: Seq<u8>)
    ensures
        spec_var_u32_dec(spec_var_u32(v) + rest, 0) == Some((v as int, spec_var_u32(v).len())),
{
    lemma_u32_fits_varint(v);
    lemma_var_u32_round_trip_at(v, rest, 0);
}

pub proof fn lemma_var_u64_round_trip(v: u64, rest: Seq<u8>)
    ensures
        spec_var_u64_dec(spec_var_u64(v) + rest, 0) == Some((v as int, spec_var_u64(v).len())),
{
    lemma_u64_fits_varint(v);
    lemma_var_u64_round_trip_at(v, rest, 0);
}

/// A length-prefixed byte string decodes back to the bytes it was made
/// from, whatever follows it.
pub proof fn lemma_bytes_with_len_round_trip(b: Seq<u8>, rest: Seq<u8>)
    requires
        b.len() <= u32::MAX,
    ensures
        spec_bytes_with_len_dec(spec_bytes_with_len(b) + rest) == Some((
            b,
            spec_bytes_with_len(b).len(),
        )),
{
    let len = b.len() as u32;
    let s = spec_bytes_with_len(b) + rest;
    assert(s =~= spec_var_u32(len) + (b + rest));
    lemma_var_u32_round_trip(len, b + rest);
    let n = spec_var_u32(len).len();
    assert(s.subrange(n as int, n + len) =~= b);
}

pub fn append_fixed_u32(buf: &mut Vec<u8>, value: u32)
    ensures
        final(buf)@ == old(buf)@ + spec_fixed_u32(value),
{
    buf.push((value % 0x100) as u8);
    buf.push(((value / 0x100) % 0x100) as u8);
    buf.push(((value / 0x10000) % 0x100) as u8);
    buf.push(((value / 0x1000000) % 0x100) as u8);
    assert(buf@ =~= old(buf)@ + spec_fixed_u32(value));
}

/// Overwrites the four bytes at `off` with the fixed encoding of `value`.
pub fn encode_fixed_u32(buf: &mut Vec<u8>, off: usize, value: u32)
    requires
        off + 4 <= old(buf)@.len(),
    ensures
        final(buf)@ =~= old(buf)@.subrange(0, off as int) + spec_fixed_u32(value) + old(
            buf,
        )@.subrange(off + 4, old(buf)@.len() as int),
        final(buf)@.len() == old(buf)@.len(),
{
    let n = buf.len();
    assert(off + 4 <= n);
    buf.set(off, (value % 0x100) as u8);
    buf.set(off + 1, ((value / 0x100) % 0x100) as u8);
    buf.set(off + 2, ((value / 0x10000) % 0x100) as u8);
    buf.set(off + 3, ((value / 0x1000000) % 0x100) as u8);
}

/// Reads the little-endian `u32` held in the first four bytes.
pub fn decode_fixed_u32(buf: &[u8]) -> (r: u32)
    requires
        buf@.len() >= 4,
    ensures
        spec_fixed_u32(r) == buf@.subrange(0, 4),
{
    let b0 = buf[0];
    let b1 = buf[1];
    let b2 = buf[2];
    let b3 = buf[3];
    let r = b0 as u32 | (b1 as u32) << 8u32 | (b2 as u32) << 16u32 | (b3 as u32) << 24u32;
    proof {
        assert(r % 0x100 == b0 as u32 && (r / 0x100) % 0x100 == b1 as u32 && (r / 0x10000) % 0x100
            == b2 as u32 && (r / 0x1000000) % 0x100 == b3 as u32) by (bit_vector)
            requires
                r == b0 as u32 | (b1 as u32) << 8u32 | (b2 as u32) << 16u32 | (b3 as u32) << 24u32,
        ;
        assert(spec_fixed_u32(r) =~= buf@.subrange(0, 4));
    }
    r
}

pub fn append_fixed_u64(buf: &mut Vec<u8>, value: u64)
    ensures
        final(buf)@ == old(buf)@ + spec_fixed_u64(value),
{
    buf.push((value % 0x100) as u8);
    buf.push(((value / 0x100) % 0x100) as u8);
    buf.push(((value / 0x10000) % 0x100) as u8);
    buf.push(((value / 0x1000000) % 0x100) as u8);
    buf.push(((value / 0x100000000) % 0x100) as u8);
    buf.push(((value / 0x10000000000) % 0x100) as u8);
    buf.push(((value / 0x1000000000000) % 0x100) as u8);
    buf.push(((value / 0x100000000000000) % 0x100) as u8);
    assert(buf@ =~= old(buf)@ + spec_fixed_u64(value));
}

/// Reads the little-endian `u64` held in the first eight bytes.
pub fn decode_fixed_u64(buf: &[u8]) -> (r: u64)
    requires
        buf@.len() >= 8,
    ensures
        spec_fixed_u64(r) == buf@.subrange(0, 8),
{
    let b0 = buf[0];
    let b1 = buf[1];
    let b2 = buf[2];
    let b3 = buf[3];
    let b4 = buf[4];
    let b5 = buf[5];
    let b6 = buf[6];
    let b7 = buf[7];
    let r = b0 as u64 | (b1 as u64) << 8u64 | (b2 as u64) << 16u64 | (b3 as u64) << 24u64 | (
    b4 as u64) << 32u64 | (b5 as u64) << 40u64 | (b6 as u64) << 48u64 | (b7 as u64) << 56u64;
    proof {
        assert(r % 0x100 == b0 as u64 && (r / 0x100) % 0x100 == b1 as u64 && (r / 0x10000) % 0x100
            == b2 as u64 && (r / 0x1000000) % 0x100 == b3 as u64 && (r / 0x100000000) % 0x100
            == b4 as u64 && (r / 0x10000000000) % 0x100 == b5 as u64 && (r / 0x1000000000000)
            % 0x100 == b6 as u64 && (r / 0x100000000000000) % 0x100 == b7 as u64) by (bit_vector)
            requires
                r == b0 as u64 | (b1 as u64) << 8u64 | (b2 as u64) << 16u64 | (b3 as u64) << 24u64
                    | (b4 as u64) << 32u64 | (b5 as u64) << 40u64 | (b6 as u64) << 48u64 | (
                b7 as u64) << 56u64,
        ;
        assert(spec_fixed_u64(r) =~= buf@.subrange(0, 8));
    }
    r
}

pub fn append_var_u32(buf: &mut Vec<u8>, value: u32)
    ensures
        final(buf)@ == old(buf)@ + spec_var_u32(value),
    decreases value,
{
    if value < 0x80 {
        buf.push(value as u8);
        assert(buf@ =~= old(buf)@ + spec_var_u32(value));
    } else {
        buf.push((value % 0x80 + 0x80) as u8);
        append_var_u32(buf, value / 0x80);
        assert(buf@ =~= old(buf)@ + spec_var_u32(value));
    }
}

pub fn append_var_u64(buf: &mut Vec<u8>, value: u64)
    ensures
        final(buf)@ == old(buf)@ + spec_var_u64(value),
    decreases value,
{
    if value < 0x80 {
        buf.push(value as u8);
        assert(buf@ =~= old(buf)@ + spec_var_u64(value));
    } else {
        buf.push((value % 0x80 + 0x80) as u8);
        append_var_u64(buf, value / 0x80);
        assert(buf@ =~= old(buf)@ + spec_var_u64(value));
    }
}

fn var_u32_dec_from(buf: &[u8], off: usize, i: usize) -> (r: Option<(u32, usize)>)
    requires
        off <= buf@.len(),
        i <= 5,
    ensures
        match r {
            Some((v, n)) => spec_var_u32_dec(buf@.skip(off as int), i as nat) == Some((
                v as int,
                n as nat,
            )) && n <= buf@.len() - off,
            None => spec_var_u32_dec(buf@.skip(off as int), i as nat) is None,
        },
    decreases buf@.len() - off,
{
    let s = Ghost(buf@.skip(off as int));
    if off == buf.len() || i >= 5 {
        return None;
    }
    let b = buf[off];
    assert(s@[0] == b);
    if i == 4 && b % 0x80 >= 0x10 {
        None
    } else if b < 0x80 {
        Some((b as u32, 1))
    } else {
        assert(s@.skip(1) =~= buf@.skip(off + 1));
        match var_u32_dec_from(buf, off + 1, i + 1) {
            Some((hi, n)) => {
                proof {
                    lemma_var_u32_dec_bound(buf@.skip(off + 1), (i + 1) as nat);
                    lemma_p128_values();
                    lemma_p128_le((4 - (i + 1)) as nat, 3);
                }
                let v = (b - 0x80) as u32 + 0x80 * hi;
                Some((v, n + 1))
            },
            None => None,
        }
    }
}

/// Decodes a varint `u32` from the head of the buffer: the value and the
/// bytes consumed, or nothing on an empty, short or overlong input.
pub fn decode_var_u32(buf: &[u8]) -> (r: Option<(u32, usize)>)
    ensures
        match r {
            Some((v, n)) => spec_var_u32_dec(buf@, 0) == Some((v as int, n as nat)) && 1 <= n
                <= buf@.len(),
            None => spec_var_u32_dec(buf@, 0) is None,
        },
{
    assert(buf@.skip(0) =~= buf@);
    let r = var_u32_dec_from(buf, 0, 0);
    proof {
        if r is Some {
            lemma_var_u32_dec_bound(buf@, 0);
        }
    }
    r
}

fn var_u64_dec_from(buf: &[u8], off: usize, i: usize) -> (r: Option<(u64, usize)>)
    requires
        off <= buf@.len(),
        i <= 10,
    ensures
        match r {
            Some((v, n)) => spec_var_u64_dec(buf@.skip(off as int), i as nat) == Some((
                v as int,
                n as nat,
            )) && n <= buf@.len() - off,
            None => spec_var_u64_dec(buf@.skip(off as int), i as nat) is None,
        },
    decreases buf@.len() - off,
{
    let s = Ghost(buf@.skip(off as int));
    if off == buf.len() || i >= 10 {
        return None;
    }
    let b = buf[off];
    assert(s@[0] == b);
    if i == 9 && b % 0x80 >= 0x2 {
        None
    } else if b < 0x80 {
        Some((b as u64, 1))
    } else {
        assert(s@.skip(1) =~= buf@.skip(off + 1));
        match var_u64_dec_from(buf, off + 1, i + 1) {
            Some((hi, n)) => {
                proof {
                    lemma_var_u64_dec_bound(buf@.skip(off + 1), (i + 1) as nat);
                    lemma_p128_values();
                    lemma_p128_le((9 - (i + 1)) as nat, 8);
                }
                let v = (b - 0x80) as u64 + 0x80 * hi;
                Some((v, n + 1))
            },
            None => None,
        }
    }
}

pub proof fn lemma_p128_le(j: nat, k: nat)
    requires
        j <= k,
    ensures
        1 <= p128(j) <= p128(k),
    decreases k,
{
    if k > 0 {
        if j == k {
            lemma_p128_le((k - 1) as nat, (k - 1) as nat);
        } else {
            lemma_p128_le(j, (k - 1) as nat);
        }
    }
}

/// Decodes a varint `u64` from the head of the buffer.
pub fn decode_var_u64(buf: &[u8]) -> (r: Option<(u64, usize)>)
    ensures
        match r {
            Some((v, n)) => spec_var_u64_dec(buf@, 0) == Some((v as int, n as nat)) && 1 <= n
                <= buf@.len(),
            None => spec_var_u64_dec(buf@, 0) is None,
        },
{
    assert(buf@.skip(0) =~= buf@);
    let r = var_u64_dec_from(buf, 0, 0);
    proof {
        if r is Some {
            lemma_var_u64_dec_bound(buf@, 0);
        }
    }
    r
}

/// Decodes a length-prefixed byte string from the head of the buffer:
/// the bytes and how many input bytes were consumed.
pub fn decode_bytes_with_len(buf: &[u8]) -> (r: Option<(Vec<u8>, usize)>)
    ensures
        match r {
            Some((b, n)) => spec_bytes_with_len_dec(buf@) == Some((b@, n as nat)) && n
                <= buf@.len(),
            None => spec_bytes_with_len_dec(buf@) is None,
        },
{
    let (bytes_len, buf_off) = match decode_var_u32(buf) {
        Some((bytes_len, n)) => (bytes_len as usize, n),
        None => { return None },
    };
    if bytes_len > buf.len() || buf_off > buf.len() - bytes_len {
        return None;
    }
    let mut bytes: Vec<u8> = Vec::new();
    bytes.extend_from_slice(&buf[buf_off..buf_off + bytes_len]);
    assert(bytes@ =~= buf@.subrange(buf_off as int, buf_off + bytes_len));
    Some((bytes, buf_off + bytes_len))
}

/// Four-byte values read differently when any one byte differs.
pub proof fn lemma_fixed_u32_dec_one_byte(t1: Seq<u8>, t2: Seq<u8>, j: int)
    requires
        t1.len() >= 4,
        t2.len() >= 4,
        0 <= j < 4,
        t1[j] != t2[j],
        forall|k: int| 0 <= k < 4 && k != j ==> t1[k] == t2[k],
    ensures
        spec_fixed_u32_dec(t1) != spec_fixed_u32_dec(t2),
{
    if j == 0 {
        assert(spec_fixed_u32_dec(t1) - spec_fixed_u32_dec(t2) == t1[0] - t2[0]);
    } else if j == 1 {
        assert(spec_fixed_u32_dec(t1) - spec_fixed_u32_dec(t2) == 0x100 * (t1[1] - t2[1]));
    } else if j == 2 {
        assert(spec_fixed_u32_dec(t1) - spec_fixed_u32_dec(t2) == 0x10000 * (t1[2] - t2[2]));
    } else {
        assert(spec_fixed_u32_dec(t1) - spec_fixed_u32_dec(t2) == 0x1000000 * (t1[3] - t2[3]));
    }
}

/// A `u32` varint takes at most five bytes, fewer for smaller values.
pub proof fn lemma_var_u32_len(v: u32)
    ensures
        1 <= spec_var_u32(v).len() <= 5,
        v < 0x80 ==> spec_var_u32(v).len() == 1,
        v < 0x4000 ==> spec_var_u32(v).len() <= 2,
        v < 0x200000 ==> spec_var_u32(v).len() <= 3,
        v < 0x10000000 ==> spec_var_u32(v).len() <= 4,
    decreases v,
{
    if v >= 0x80 {
        lemma_var_u32_len(v / 0x80);
    }
}

/// A `u64` varint takes at most ten bytes, fewer for smaller values.
pub proof fn lemma_var_u64_len(v: u64)
    ensures
        1 <= spec_var_u64(v).len() <= 10,
        v < 0x80 ==> spec_var_u64(v).len() == 1,
        v < 0x4000 ==> spec_var_u64(v).len() <= 2,
        v < 0x200000 ==> spec_var_u64(v).len() <= 3,
        v < 0x10000000 ==> spec_var_u64(v).len() <= 4,
        v < 0x800000000 ==> spec_var_u64(v).len() <= 5,
        v < 0x40000000000 ==> spec_var_u64(v).len() <= 6,
        v < 0x2000000000000 ==> spec_var_u64(v).len() <= 7,
        v < 0x100000000000000 ==> spec_var_u64(v).len() <= 8,
        v < 0x8000000000000000 ==> spec_var_u64(v).len() <= 9,
    decreases v,
{
    if v >= 0x80 {
        lemma_var_u64_len(v / 0x80);
    }
}

/// How many bytes the varint form of a `u32` takes.
pub fn var_u32_len(v: u32) -> (r: usize)
    ensures
        r == spec_var_u32(v).len(),
        1 <= r <= 5,
    decreases v,
{
    proof {
        lemma_var_u32_len(v);
    }
    if v < 0x80 {
        1
    } else {
        1 + var_u32_len(v / 0x80)
    }
}

/// How many bytes the varint form of a `u64` takes.
pub fn var_u64_len(v: u64) -> (r: usize)
    ensures
        r == spec_var_u64(v).len(),
        1 <= r <= 10,
    decreases v,
{
    proof {
        lemma_var_u64_len(v);
    }
    if v < 0x80 {
        1
    } else {
        1 + var_u64_len(v / 0x80)
    }
}

} // verus!
