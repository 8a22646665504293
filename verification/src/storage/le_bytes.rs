//! Little-endian fixed-width integers in byte buffers.
use vstd::prelude::*;
use vstd::bytes::*;
use vstd::utf8::{valid_utf8, encode_utf8, decode_utf8, encode_utf8_valid_utf8, encode_utf8_decode_utf8};
use crate::text::{string_bytes, string_from_utf8, append_bytes, copy_range};

verus! {

/// The eight bytes at `pos` read as a little-endian `u64`.
pub open spec fn spec_u64_at(buf: Seq<u8>, pos: int) -> u64 {
    spec_u64_from_le_bytes(buf.subrange(pos, pos + 8))
}

/// The four bytes at `pos` read as a little-endian `u32`.
pub open spec fn spec_u32_at(buf: Seq<u8>, pos: int) -> u32 {
    spec_u32_from_le_bytes(buf.subrange(pos, pos + 4))
}

/// The two bytes at `pos` read as a little-endian `u16`.
pub open spec fn spec_u16_at(buf: Seq<u8>, pos: int) -> u16 {
    spec_u16_from_le_bytes(buf.subrange(pos, pos + 2))
}

pub fn read_u64(buf: &[u8], pos: usize) -> (x: u64)
    requires
        pos + 8 <= buf@.len(),
    ensures
        x == spec_u64_at(buf@, pos as int),
{
    let len = buf.len();
    assert(pos + 8 <= len);
    u64_from_le_bytes(vstd::slice::slice_subrange(buf, pos, pos + 8))
}

pub fn read_u32(buf: &[u8], pos: usize) -> (x: u32)
    requires
        pos + 4 <= buf@.len(),
    ensures
        x == spec_u32_at(buf@, pos as int),
{
    let len = buf.len();
    assert(pos + 4 <= len);
    u32_from_le_bytes(vstd::slice::slice_subrange(buf, pos, pos + 4))
}

pub fn read_u16(buf: &[u8], pos: usize) -> (x: u16)
    requires
        pos + 2 <= buf@.len(),
    ensures
        x == spec_u16_at(buf@, pos as int),
{
    let len = buf.len();
    assert(pos + 2 <= len);
    u16_from_le_bytes(vstd::slice::slice_subrange(buf, pos, pos + 2))
}

pub fn write_u64(x: u64, buf: &mut Vec<u8>)
    ensures
        final(buf)@ == old(buf)@ + spec_u64_to_le_bytes(x),
{
    let mut b = u64_to_le_bytes(x);
    buf.append(&mut b);
}

pub fn write_u32(x: u32, buf: &mut Vec<u8>)
    ensures
        final(buf)@ == old(buf)@ + spec_u32_to_le_bytes(x),
{
    let mut b = u32_to_le_bytes(x);
    buf.append(&mut b);
}

pub fn write_u16(x: u16, buf: &mut Vec<u8>)
    ensures
        final(buf)@ == old(buf)@ + spec_u16_to_le_bytes(x),
{
    let mut b = u16_to_le_bytes(x);
    buf.append(&mut b);
}

/// Reading back what was written: the integer that `write_*` put at `pos`.
pub proof fn lemma_u64_at(x: u64, buf: Seq<u8>, pos: int)
    requires
        0 <= pos,
        pos + 8 <= buf.len(),
        buf.subrange(pos, pos + 8) == spec_u64_to_le_bytes(x),
    ensures
        spec_u64_at(buf, pos) == x,
{
    lemma_auto_spec_u64_to_from_le_bytes();
    assert(spec_u64_to_le_bytes(x).len() == 8);
}

pub proof fn lemma_u32_at(x: u32, buf: Seq<u8>, pos: int)
    requires
        0 <= pos,
        pos + 4 <= buf.len(),
        buf.subrange(pos, pos + 4) == spec_u32_to_le_bytes(x),
    ensures
        spec_u32_at(buf, pos) == x,
{
    lemma_auto_spec_u32_to_from_le_bytes();
    assert(spec_u32_to_le_bytes(x).len() == 4);
}

pub proof fn lemma_u16_at(x: u16, buf: Seq<u8>, pos: int)
    requires
        0 <= pos,
        pos + 2 <= buf.len(),
        buf.subrange(pos, pos + 2) == spec_u16_to_le_bytes(x),
    ensures
        spec_u16_at(buf, pos) == x,
{
    lemma_auto_spec_u16_to_from_le_bytes();
    assert(spec_u16_to_le_bytes(x).len() == 2);
}

pub proof fn lemma_le_lens(a: u64, b: u32, c: u16)
    ensures
        spec_u64_to_le_bytes(a).len() == 8,
        spec_u32_to_le_bytes(b).len() == 4,
        spec_u16_to_le_bytes(c).len() == 2,
{
    lemma_auto_spec_u64_to_from_le_bytes();
    lemma_auto_spec_u32_to_from_le_bytes();
    lemma_auto_spec_u16_to_from_le_bytes();
    assert(spec_u64_to_le_bytes(a).len() == 8);
    assert(spec_u32_to_le_bytes(b).len() == 4);
    assert(spec_u16_to_le_bytes(c).len() == 2);
}

/// Reinterpreting a signed value as unsigned and back gives the value.
pub proof fn lemma_i64_u64_cast(x: i64)
    ensures
        ((x as u64) as i64) == x,
{
    assert(((x as u64) as i64) == x) by (bit_vector);
}

/// The bytes of a string with its length: the byte length of its UTF-8 as
/// a little-endian `u32`, then the UTF-8.
pub open spec fn spec_str_bytes(s: Seq<char>) -> Seq<u8> {
    spec_u32_to_le_bytes(encode_utf8(s).len() as u32) + encode_utf8(s)
}

/// Reads a string with its length at `pos`, giving it and the position
/// after it; `None` where the bytes run out or are not UTF-8.
pub open spec fn spec_read_str(b: Seq<u8>, pos: int) -> Option<(Seq<char>, int)> {
    if pos < 0 || pos + 4 > b.len() {
        None
    } else {
        let n = spec_u32_at(b, pos) as int;
        if pos + 4 + n > b.len() || !valid_utf8(b.subrange(pos + 4, pos + 4 + n)) {
            None
        } else {
            Some((decode_utf8(b.subrange(pos + 4, pos + 4 + n)), pos + 4 + n))
        }
    }
}

/// Appends a string with its length.
pub fn write_str(s: &str, buf: &mut Vec<u8>)
    ensures
        final(buf)@ == old(buf)@ + spec_str_bytes(s@),
{
    let b = s.as_bytes();
    write_u32(b.len() as u32, buf);
    append_bytes(buf, b);
    assert(final(buf)@ =~= old(buf)@ + spec_str_bytes(s@));
}

/// Reads a string with its length at `pos`.
pub fn read_str_at(b: &[u8], pos: usize) -> (r: Option<(String, usize)>)
    ensures
        match spec_read_str(b@, pos as int) {
            Some((s, p)) => r matches Some((s2, p2)) && s2@ == s && p2 == p,
            None => r is None,
        },
{
    if pos > b.len() || b.len() - pos < 4 {
        return None;
    }
    let n = read_u32(b, pos) as usize;
    if b.len() - pos - 4 < n {
        return None;
    }
    match string_from_utf8(copy_range(b, pos + 4, pos + 4 + n)) {
        Some(s) => Some((s, pos + 4 + n)),
        None => None,
    }
}

/// A string read back from its bytes, wherever they stand, where its UTF-8
/// has fewer than 2^32 bytes.
pub proof fn lemma_read_str(s: Seq<char>, pre: Seq<u8>, rest: Seq<u8>)
    requires
        encode_utf8(s).len() <= u32::MAX,
    ensures
        spec_read_str(pre + spec_str_bytes(s) + rest, pre.len() as int) == Some((
            s,
            (pre.len() + spec_str_bytes(s).len()) as int,
        )),
{
    let b = pre + spec_str_bytes(s) + rest;
    let e = encode_utf8(s);
    let p = pre.len() as int;
    lemma_le_lens(0, e.len() as u32, 0);
    assert(b.subrange(p, p + 4) =~= spec_u32_to_le_bytes(e.len() as u32));
    lemma_u32_at(e.len() as u32, b, p);
    assert(b.subrange(p + 4, p + 4 + e.len()) =~= e);
    encode_utf8_valid_utf8(s);
    encode_utf8_decode_utf8(s);
}

/// A `u64` read back from its bytes, wherever they stand.
pub proof fn lemma_u64_between(x: u64, pre: Seq<u8>, rest: Seq<u8>)
    ensures
        spec_u64_at(pre + spec_u64_to_le_bytes(x) + rest, pre.len() as int) == x,
        (pre + spec_u64_to_le_bytes(x) + rest).len() == pre.len() + 8 + rest.len(),
{
    lemma_le_lens(x, 0, 0);
    let b = pre + spec_u64_to_le_bytes(x) + rest;
    let p = pre.len() as int;
    assert(b.subrange(p, p + 8) =~= spec_u64_to_le_bytes(x));
    lemma_u64_at(x, b, p);
}

/// A `u32` read back from its bytes, wherever they stand.
pub proof fn lemma_u32_between(x: u32, pre: Seq<u8>, rest: Seq<u8>)
    ensures
        spec_u32_at(pre + spec_u32_to_le_bytes(x) + rest, pre.len() as int) == x,
        (pre + spec_u32_to_le_bytes(x) + rest).len() == pre.len() + 4 + rest.len(),
{
    lemma_le_lens(0, x, 0);
    let b = pre + spec_u32_to_le_bytes(x) + rest;
    let p = pre.len() as int;
    assert(b.subrange(p, p + 4) =~= spec_u32_to_le_bytes(x));
    lemma_u32_at(x, b, p);
}

} // verus!
