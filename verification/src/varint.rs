//! LEB128-style variable-length integers and zigzag mapping of signed values.
use vstd::prelude::*;

verus! {

/// The bytes that encode `v`: seven payload bits per byte, least significant
/// group first, the high bit set on every byte but the last.
pub open spec fn spec_encode_varint(v: u64) -> Seq<u8>
    decreases v,
{
    if v < 0x80 {
        seq![v as u8]
    } else {
        proof {
            assert(v >= 0x80 ==> (v >> 7) < v) by (bit_vector);
        }
        seq![(#[verifier::truncate] (((v & 0x7f) | 0x80) as u8))] + spec_encode_varint(v >> 7)
    }
}

/// Reading a varint from `buf` at `pos`, with `val` the bits gathered so far
/// and `shift` the position of the next seven-bit group. `None` where the
/// bytes run out, or where a group would start at bit 64 or beyond.
pub open spec fn spec_decode_varint_from(buf: Seq<u8>, pos: int, val: u64, shift: u64) -> Option<(u64, int)>
    decreases buf.len() - pos,
{
    if pos < 0 || pos >= buf.len() || shift >= 64 {
        None
    } else {
        let byte = buf[pos];
        let next = val | (((byte & 0x7f) as u64) << shift);
        if byte & 0x80 == 0 {
            Some((next, pos + 1))
        } else {
            spec_decode_varint_from(buf, pos + 1, next, (shift + 7) as u64)
        }
    }
}

/// The value of the varint at the start of `buf` and how many bytes it takes.
pub open spec fn spec_decode_varint(buf: Seq<u8>) -> Option<(u64, int)> {
    spec_decode_varint_from(buf, 0, 0, 0)
}

proof fn lemma_encode_varint_len_bound(v: u64, k: u64)
    requires
        1 <= k <= 9,
        v >> ((7 * k) as u64) == 0,
    ensures
        spec_encode_varint(v).len() <= k,
    decreases v,
{
    if v >= 0x80 {
        let w = v >> 7;
        assert(k >= 2 && w >> ((7 * (k - 1)) as u64) == 0) by (bit_vector)
            requires 1 <= k <= 9, v >> ((7 * k) as u64) == 0, v >= 0x80, w == v >> 7;
        assert(w < v) by (bit_vector)
            requires v >= 0x80, w == v >> 7;
        lemma_encode_varint_len_bound(w, (k - 1) as u64);
    }
}

/// The varint encoding of a `u64` takes between one and ten bytes.
pub proof fn lemma_encode_varint_len(v: u64)
    ensures
        1 <= spec_encode_varint(v).len() <= 10,
{
    if v >= 0x80 {
        let w = v >> 7;
        assert(w >> 63 == 0) by (bit_vector)
            requires w == v >> 7;
        lemma_encode_varint_len_bound(w, 9);
    }
}

proof fn lemma_decode_encode_from(v: u64, buf: Seq<u8>, pos: int, val: u64, shift: u64)
    requires
        0 <= pos,
        pos + spec_encode_varint(v).len() <= buf.len(),
        buf.subrange(pos, pos + spec_encode_varint(v).len()) == spec_encode_varint(v),
        shift <= 63,
        shift == 0 || v >> ((64 - shift) as u64) == 0,
    ensures
        spec_decode_varint_from(buf, pos, val, shift)
            == Some((val | (v << shift), pos + spec_encode_varint(v).len())),
    decreases v,
{
    let enc = spec_encode_varint(v);
    assert(buf[pos] == enc[0]) by {
        assert(buf.subrange(pos, pos + enc.len())[0] == buf[pos]);
    }
    if v < 0x80 {
        let b = v as u8;
        assert(b & 0x80 == 0 && ((b & 0x7f) as u64) == v) by (bit_vector)
            requires v < 0x80, b == v as u8;
    } else {
        let b = (#[verifier::truncate] (((v & 0x7f) | 0x80) as u8));
        let w = v >> 7;
        assert(b & 0x80 != 0) by (bit_vector)
            requires b == (#[verifier::truncate] (((v & 0x7f) | 0x80) as u8));
        assert((v >= 0x80 && shift <= 63 && (shift == 0 || v >> ((64 - shift) as u64) == 0)) ==> shift <= 56)
            by (bit_vector);
        assert((val | (((b & 0x7f) as u64) << shift)) | (w << ((shift + 7) as u64)) == val | (v << shift))
            by (bit_vector)
            requires
                shift <= 56,
                b == (#[verifier::truncate] (((v & 0x7f) | 0x80) as u8)),
                w == v >> 7;
        assert(w >> ((64 - (shift + 7)) as u64) == 0) by (bit_vector)
            requires
                shift <= 56,
                shift == 0 || v >> ((64 - shift) as u64) == 0,
                w == v >> 7;
        assert(w < v) by (bit_vector)
            requires v >= 0x80, w == v >> 7;
        let rest = spec_encode_varint(w);
        assert(enc == seq![b] + rest);
        assert(buf.subrange(pos + 1, pos + 1 + rest.len()) == rest) by {
            assert forall|i: int| 0 <= i < rest.len() implies buf.subrange(pos + 1, pos + 1 + rest.len())[i] == rest[i] by {
                assert(buf.subrange(pos, pos + enc.len())[i + 1] == enc[i + 1]);
            }
        }
        lemma_decode_encode_from(w, buf, pos + 1, val | (((b & 0x7f) as u64) << shift), (shift + 7) as u64);
    }
}

proof fn lemma_decode_advances_from(buf: Seq<u8>, pos: int, val: u64, shift: u64)
    ensures
        spec_decode_varint_from(buf, pos, val, shift) matches Some((_, end)) ==> pos < end <= buf.len(),
    decreases buf.len() - pos,
{
    if !(pos < 0 || pos >= buf.len() || shift >= 64) {
        let byte = buf[pos];
        if byte & 0x80 != 0 {
            lemma_decode_advances_from(buf, pos + 1, val | (((byte & 0x7f) as u64) << shift), (shift + 7) as u64);
        }
    }
}

/// A varint that decodes takes at least one byte and ends within the buffer.
pub proof fn lemma_decode_advances(buf: Seq<u8>, pos: int)
    ensures
        spec_decode_varint_from(buf, pos, 0, 0) matches Some((_, end)) ==> pos < end <= buf.len(),
{
    lemma_decode_advances_from(buf, pos, 0, 0);
}

/// Where the encoding of `v` stands at `pos` in `buf`, decoding there gives
/// back `v` and the position just after the encoding.
pub proof fn lemma_decode_varint_at(v: u64, buf: Seq<u8>, pos: int)
    requires
        0 <= pos,
        pos + spec_encode_varint(v).len() <= buf.len(),
        buf.subrange(pos, pos + spec_encode_varint(v).len()) == spec_encode_varint(v),
    ensures
        spec_decode_varint_from(buf, pos, 0, 0) == Some((v, pos + spec_encode_varint(v).len())),
{
    lemma_decode_encode_from(v, buf, pos, 0, 0);
    assert(0u64 | (v << 0u64) == v) by (bit_vector);
}

/// Decoding the encoding of `v`, followed by any bytes at all, gives back `v`
/// and the length of its encoding.
pub proof fn lemma_varint_roundtrip(v: u64, rest: Seq<u8>)
    ensures
        spec_decode_varint(spec_encode_varint(v) + rest) == Some((v, spec_encode_varint(v).len() as int)),
{
    let enc = spec_encode_varint(v);
    let buf = enc + rest;
    assert(buf.subrange(0, enc.len() as int) =~= enc);
    lemma_decode_encode_from(v, buf, 0, 0, 0);
    assert(0u64 | (v << 0u64) == v) by (bit_vector);
}

/// The zigzag image of a signed value: non-negative `x` goes to `2x`,
/// negative `x` to `-2x - 1`, so that small magnitudes get small codes.
pub open spec fn spec_zigzag(x: i64) -> u64 {
    if x >= 0 {
        (2 * x) as u64
    } else {
        (-2 * x - 1) as u64
    }
}

/// The signed value whose zigzag image is `u`.
pub open spec fn spec_unzigzag(u: u64) -> i64 {
    if u % 2 == 0 {
        (u / 2) as i64
    } else {
        (-((u / 2) as int) - 1) as i64
    }
}

/// The bytes that encode a signed value: the varint of its zigzag image.
pub open spec fn spec_encode_varint_signed(x: i64) -> Seq<u8> {
    spec_encode_varint(spec_zigzag(x))
}

/// Unzigzag undoes zigzag.
pub proof fn lemma_zigzag_roundtrip(x: i64)
    ensures
        spec_unzigzag(spec_zigzag(x)) == x,
{
}

/// A signed varint decodes, after any trailing bytes, to the value encoded.
pub proof fn lemma_varint_signed_roundtrip(x: i64, rest: Seq<u8>)
    ensures
        spec_decode_varint(spec_encode_varint_signed(x) + rest) matches Some((u, n))
            && spec_unzigzag(u) == x && n == spec_encode_varint_signed(x).len(),
{
    lemma_varint_roundtrip(spec_zigzag(x), rest);
}

/// Appends the varint encoding of `val` to `buf`.
pub fn encode_varint(val: u64, buf: &mut Vec<u8>)
    ensures
        final(buf)@ == old(buf)@ + spec_encode_varint(val),
{
    let mut v = val;
    while v >= 0x80
        invariant
            old(buf)@ + spec_encode_varint(val) == buf@ + spec_encode_varint(v),
        decreases v,
    {
        let ghost before = buf@;
        let b: u8 = (#[verifier::truncate] (v as u8)) | 0x80;
        assert(b == (#[verifier::truncate] (((v & 0x7f) | 0x80) as u8))) by (bit_vector)
            requires b == (#[verifier::truncate] (v as u8)) | 0x80;
        buf.push(b);
        let w = v >> 7;
        assert(w < v) by (bit_vector)
            requires v >= 0x80, w == v >> 7;
        assert(spec_encode_varint(v) == seq![b] + spec_encode_varint(w));
        assert(buf@ + spec_encode_varint(w) =~= before + spec_encode_varint(v));
        v = w;
    }
    let ghost before = buf@;
    buf.push(v as u8);
    assert(buf@ =~= before + spec_encode_varint(v));
}

/// Reads the varint that starts at `pos`: its value and the position just
/// after it, or `None` where it cannot be read (the bytes run out,
/// or the varint is longer than ten bytes).
pub fn decode_varint(buf: &[u8], pos: usize) -> (r: Option<(u64, usize)>)
    ensures
        match r {
            Some((v, end)) => spec_decode_varint_from(buf@, pos as int, 0, 0) == Some((v, end as int)),
            None => spec_decode_varint_from(buf@, pos as int, 0, 0) is None,
        },
{
    let mut val: u64 = 0;
    let mut shift: u64 = 0;
    let mut p: usize = pos;
    while p < buf.len() && shift < 64
        invariant
            pos <= p,
            spec_decode_varint_from(buf@, pos as int, 0, 0) == spec_decode_varint_from(buf@, p as int, val, shift),
        decreases buf.len() - p,
    {
        let byte = buf[p];
        val = val | (((byte & 0x7f) as u64) << shift);
        p = p + 1;
        if byte & 0x80 == 0 {
            return Some((val, p));
        }
        shift = shift + 7;
    }
    None
}

/// Appends the signed varint encoding of `val` to `buf`.
pub fn encode_varint_signed(val: i64, buf: &mut Vec<u8>)
    ensures
        final(buf)@ == old(buf)@ + spec_encode_varint_signed(val),
{
    let z = zigzag(val);
    encode_varint(z, buf);
}

/// The zigzag image of `val`.
pub fn zigzag(val: i64) -> (r: u64)
    ensures
        r == spec_zigzag(val),
{
    let u = #[verifier::truncate] (val as u64);
    assert(val >= 0 ==> u == val) by (bit_vector)
        requires u == #[verifier::truncate] (val as u64);
    assert(val < 0 ==> u as int == val as int + 0x1_0000_0000_0000_0000) by (bit_vector)
        requires u == #[verifier::truncate] (val as u64);
    let sign: u64 = if val < 0 { 0xffff_ffff_ffff_ffff } else { 0 };
    let r = (u << 1) ^ sign;
    if val >= 0 {
        assert((u << 1) ^ 0 == 2 * u) by (bit_vector)
            requires u < 0x8000_0000_0000_0000u64;
    } else {
        assert((u << 1) ^ 0xffff_ffff_ffff_ffffu64 == 0xffff_ffff_ffff_ffffu64 - (2 * u - 0x1_0000_0000_0000_0000))
            by (bit_vector)
            requires u >= 0x8000_0000_0000_0000u64;
    }
    r
}

/// The signed value whose zigzag image is `u`.
pub fn unzigzag(u: u64) -> (r: i64)
    ensures
        r == spec_unzigzag(u),
{
    let half = (u >> 1) as i64;
    assert(u >> 1 == u / 2) by (bit_vector);
    assert(u & 1 == u % 2) by (bit_vector);
    if u & 1 == 0 {
        half
    } else {
        -half - 1
    }
}

/// Reads the signed varint that starts at `pos`.
pub fn decode_varint_signed(buf: &[u8], pos: usize) -> (r: Option<(i64, usize)>)
    ensures
        match r {
            Some((v, end)) => spec_decode_varint_from(buf@, pos as int, 0, 0) matches Some((u, e))
                && v == spec_unzigzag(u) && e == end as int,
            None => spec_decode_varint_from(buf@, pos as int, 0, 0) is None,
        },
{
    match decode_varint(buf, pos) {
        Some((u, end)) => Some((unzigzag(u), end)),
        None => None,
    }
}

} // verus!
