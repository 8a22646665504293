//! XOR encoding of 64-bit floats, given as their bit patterns: the first
//! pattern as eight little-endian bytes, then for each next one its XOR with
//! the previous. An XOR of zero is one zero byte; any other is a one byte,
//! its leading zeros and its meaningful bit count (two little-endian bytes
//! each), and the meaningful bits in as few little-endian bytes as hold them.
use vstd::prelude::*;
use vstd::bytes::{spec_u64_to_le_bytes, spec_u16_to_le_bytes, spec_u64_to_le_bytes_open, spec_u64_to_le_bytes_to_open};
use vstd::std_specs::bits::{u64_leading_zeros, u64_trailing_zeros, axiom_u64_leading_zeros, axiom_u64_trailing_zeros};
use crate::exec::batch::ColumnData;
use crate::storage::le_bytes::{
    spec_u64_at, spec_u16_at, lemma_le_lens, lemma_u64_at, lemma_u16_at, read_u64, read_u16,
    write_u64, write_u16,
};

verus! {

/// The number of meaningful bits of a non-zero XOR.
pub open spec fn spec_meaningful(x: u64) -> int {
    64 - u64_leading_zeros(x) - u64_trailing_zeros(x)
}

/// The meaningful bits of `x`, shifted down to bit zero.
pub open spec fn spec_xor_mask(x: u64) -> u64 {
    let m = spec_meaningful(x);
    if m == 64 {
        x
    } else {
        (x >> (u64_trailing_zeros(x) as u64)) & (((1u64 << (m as u64)) - 1) as u64)
    }
}

/// The number of bytes that hold `m` bits.
pub open spec fn spec_byte_count(m: int) -> int {
    (m + 7) / 8
}

/// The bytes for one XOR.
pub open spec fn spec_xor_piece(x: u64) -> Seq<u8> {
    if x == 0 {
        seq![0u8]
    } else {
        let m = spec_meaningful(x);
        seq![1u8] + spec_u16_to_le_bytes(u64_leading_zeros(x) as u16) + spec_u16_to_le_bytes(m as u16)
            + spec_u64_to_le_bytes(spec_xor_mask(x)).subrange(0, spec_byte_count(m))
    }
}

/// The bytes for the values from position `i` on.
pub open spec fn spec_xor_tail(values: Seq<u64>, i: int) -> Seq<u8>
    decreases values.len() - i,
{
    if i <= 0 || i >= values.len() {
        Seq::empty()
    } else {
        spec_xor_piece(values[i - 1] ^ values[i]) + spec_xor_tail(values, i + 1)
    }
}

/// The XOR encoding of the bit patterns `values`.
pub open spec fn spec_xor_encode(values: Seq<u64>) -> Seq<u8> {
    if values.len() == 0 {
        Seq::empty()
    } else {
        spec_u64_to_le_bytes(values[0]) + spec_xor_tail(values, 1)
    }
}

/// Up to eight bytes read as a little-endian integer.
pub open spec fn spec_le_value(b: Seq<u8>) -> u64
    decreases b.len(),
{
    if b.len() == 0 {
        0
    } else {
        spec_le_value(b.drop_last()) | ((b.last() as u64) << ((8 * (b.len() - 1)) as u64))
    }
}

/// Reading up to `remaining` patterns from `pos` on, after `prev`. Reading
/// stops early, without failing, where the bytes run out at a control byte;
/// `None` where they run out inside an entry or an entry cannot be read.
pub open spec fn spec_xor_decode_from(bytes: Seq<u8>, pos: int, prev: u64, remaining: nat) -> Option<Seq<u64>>
    decreases remaining,
{
    if remaining == 0 || pos < 0 || pos >= bytes.len() {
        Some(Seq::empty())
    } else if bytes[pos] == 0 {
        match spec_xor_decode_from(bytes, pos + 1, prev, (remaining - 1) as nat) {
            None => None,
            Some(rest) => Some(seq![prev] + rest),
        }
    } else if pos + 5 > bytes.len() {
        None
    } else {
        let lead = spec_u16_at(bytes, pos + 1);
        let mean = spec_u16_at(bytes, pos + 3);
        let bc = spec_byte_count(mean as int);
        if bc > 8 || pos + 5 + bc > bytes.len() || lead + mean > 64 || lead + mean == 0 {
            None
        } else {
            let mask = spec_le_value(bytes.subrange(pos + 5, pos + 5 + bc));
            let bits = prev ^ (mask << ((64 - lead - mean) as u64));
            match spec_xor_decode_from(bytes, pos + 5 + bc, bits, (remaining - 1) as nat) {
                None => None,
                Some(rest) => Some(seq![bits] + rest),
            }
        }
    }
}

/// The patterns that `bytes` holds, at most `count` of them.
pub open spec fn spec_xor_decode(bytes: Seq<u8>, count: nat) -> Option<Seq<u64>> {
    if count == 0 {
        Some(Seq::empty())
    } else if bytes.len() < 8 {
        None
    } else {
        let first = spec_u64_at(bytes, 0);
        match spec_xor_decode_from(bytes, 8, first, (count - 1) as nat) {
            None => None,
            Some(rest) => Some(seq![first] + rest),
        }
    }
}

/// All ones in the lowest `8 * k` bits.
pub open spec fn spec_low_bytes_mask(k: u64) -> u64 {
    if k >= 8 {
        0xffff_ffff_ffff_ffffu64
    } else {
        ((1u64 << (8 * k)) - 1) as u64
    }
}

proof fn lemma_le_value_prefix(y: u64, k: int)
    requires
        0 <= k <= 8,
    ensures
        spec_le_value(spec_u64_to_le_bytes(y).subrange(0, k)) == y & spec_low_bytes_mask(k as u64),
    decreases k,
{
    spec_u64_to_le_bytes_to_open(y);
    let b = spec_u64_to_le_bytes(y).subrange(0, k);
    if k == 0 {
        assert(y & spec_low_bytes_mask(0) == 0) by (bit_vector);
    } else {
        lemma_le_value_prefix(y, k - 1);
        assert(b.drop_last() =~= spec_u64_to_le_bytes(y).subrange(0, k - 1));
        let kk = k as u64;
        let sh = (8 * (kk - 1)) as u64;
        let o = spec_u64_to_le_bytes_open(y);
        assert(b.last() == o[k - 1]);
        assert(o[k - 1] == #[verifier::truncate] (((y >> sh) & 0xff) as u8)) by {
            if k == 1 { assert(sh == 0); assert(y >> 0u64 == y) by (bit_vector); }
            else if k == 2 { assert(sh == 8); }
            else if k == 3 { assert(sh == 16); }
            else if k == 4 { assert(sh == 24); }
            else if k == 5 { assert(sh == 32); }
            else if k == 6 { assert(sh == 40); }
            else if k == 7 { assert(sh == 48); }
            else { assert(sh == 56); }
        }
        assert((y & spec_low_bytes_mask((kk - 1) as u64)) | (((#[verifier::truncate] (((y >> sh) & 0xff) as u8)) as u64) << sh)
            == y & spec_low_bytes_mask(kk)) by (bit_vector)
            requires 1 <= kk <= 8, sh == 8 * (kk - 1);
    }
}

/// The facts about one non-zero XOR that decoding needs.
proof fn lemma_xor_piece_facts(x: u64)
    requires
        x != 0,
    ensures
        0 <= u64_leading_zeros(x) < 64,
        0 <= u64_trailing_zeros(x) < 64,
        1 <= spec_meaningful(x) <= 64,
        u64_leading_zeros(x) + spec_meaningful(x) == 64 - u64_trailing_zeros(x),
        spec_byte_count(spec_meaningful(x)) <= 8,
        spec_xor_mask(x) << (u64_trailing_zeros(x) as u64) == x,
        spec_xor_mask(x) & spec_low_bytes_mask(spec_byte_count(spec_meaningful(x)) as u64) == spec_xor_mask(x),
{
    axiom_u64_leading_zeros(x);
    axiom_u64_trailing_zeros(x);
    let l = u64_leading_zeros(x) as u64;
    let t = u64_trailing_zeros(x) as u64;
    assert(x >> ((64 - l) as u64) == 0);
    assert(x << ((64 - t) as u64) == 0);
    assert(t + l <= 63) by (bit_vector)
        requires
            x != 0,
            t < 64,
            l < 64,
            (x >> t) & 1u64 == 1u64,
            x >> ((64 - l) as u64) == 0;
    let m = (64 - l - t) as u64;
    let mask = spec_xor_mask(x);
    let bc = ((m + 7) / 8) as u64;
    if m == 64 {
        assert(x << 0u64 == x) by (bit_vector);
        assert(x & spec_low_bytes_mask(8) == x) by (bit_vector);
    } else {
        assert(mask == (x >> t) & (((1u64 << m) - 1) as u64));
        assert((((x >> t) & (((1u64 << m) - 1) as u64)) << t) == x
            && ((x >> t) & (((1u64 << m) - 1) as u64)) >> m == 0) by (bit_vector)
            requires
                t + l <= 63,
                m == 64 - l - t,
                x >> ((64 - l) as u64) == 0,
                x << ((64 - t) as u64) == 0;
        assert(mask & spec_low_bytes_mask(bc) == mask) by (bit_vector)
            requires
                mask >> m == 0,
                1 <= m < 64,
                bc == (m + 7) / 8;
    }
}

/// Where one entry stands at `pos`, decoding it after `prev` gives the
/// pattern that XORs with `prev` to the entry's XOR.
proof fn lemma_xor_decode_tail(values: Seq<u64>, i: int, bytes: Seq<u8>, pos: int)
    requires
        1 <= i <= values.len(),
        0 <= pos,
        pos + spec_xor_tail(values, i).len() <= bytes.len(),
        bytes.subrange(pos, pos + spec_xor_tail(values, i).len()) == spec_xor_tail(values, i),
    ensures
        spec_xor_decode_from(bytes, pos, values[i - 1], (values.len() - i) as nat)
            == Some(values.subrange(i, values.len() as int)),
    decreases values.len() - i,
{
    if i < values.len() {
        let prev = values[i - 1];
        let v = values[i];
        let x = prev ^ v;
        let piece = spec_xor_piece(x);
        let tail = spec_xor_tail(values, i + 1);
        assert(spec_xor_tail(values, i) == piece + tail);
        let all = piece + tail;
        assert(bytes.subrange(pos + piece.len(), pos + piece.len() + tail.len()) =~= all.subrange(piece.len() as int, all.len() as int));
        assert(all.subrange(piece.len() as int, all.len() as int) =~= tail);
        assert(bytes[pos] == piece[0]) by {
            assert(bytes.subrange(pos, pos + all.len())[0] == all[0]);
        }
        if x == 0 {
            assert(prev ^ v == 0 ==> v == prev) by (bit_vector);
            lemma_xor_decode_tail(values, i + 1, bytes, pos + 1);
        } else {
            lemma_xor_piece_facts(x);
            let l = u64_leading_zeros(x);
            let m = spec_meaningful(x);
            let bc = spec_byte_count(m);
            let mask = spec_xor_mask(x);
            lemma_le_lens(0, 0, l as u16);
            lemma_le_lens(0, 0, m as u16);
            lemma_le_lens(mask, 0, 0);
            let lb = spec_u16_to_le_bytes(l as u16);
            let mb = spec_u16_to_le_bytes(m as u16);
            let kb = spec_u64_to_le_bytes(mask).subrange(0, bc);
            assert(piece == seq![1u8] + lb + mb + kb);
            assert(piece.len() == 5 + bc);
            assert(bytes.subrange(pos + 1, pos + 3) =~= all.subrange(1, 3));
            assert(all.subrange(1, 3) =~= lb);
            lemma_u16_at(l as u16, bytes, pos + 1);
            assert(bytes.subrange(pos + 3, pos + 5) =~= all.subrange(3, 5));
            assert(all.subrange(3, 5) =~= mb);
            lemma_u16_at(m as u16, bytes, pos + 3);
            assert(bytes.subrange(pos + 5, pos + 5 + bc) =~= all.subrange(5, 5 + bc));
            assert(all.subrange(5, 5 + bc) =~= kb);
            lemma_le_value_prefix(mask, bc);
            let t = u64_trailing_zeros(x) as u64;
            assert((64 - (l as u16) - (m as u16)) as u64 == t);
            assert(prev ^ (prev ^ v) == v) by (bit_vector);
            lemma_xor_decode_tail(values, i + 1, bytes, pos + 5 + bc);
        }
        assert(values.subrange(i, values.len() as int) =~= seq![v] + values.subrange(i + 1, values.len() as int));
    } else {
        assert(values.subrange(i, values.len() as int) =~= Seq::<u64>::empty());
    }
}

/// Decoding the XOR encoding of `values`, with any bytes after it, gives
/// `values` back.
pub proof fn lemma_xor_roundtrip(values: Seq<u64>, rest: Seq<u8>)
    ensures
        spec_xor_decode(spec_xor_encode(values) + rest, values.len()) == Some(values),
{
    if values.len() > 0 {
        let bytes = spec_xor_encode(values) + rest;
        let head = spec_u64_to_le_bytes(values[0]);
        let tail = spec_xor_tail(values, 1);
        lemma_le_lens(values[0], 0, 0);
        assert(bytes.subrange(0, 8) =~= head);
        lemma_u64_at(values[0], bytes, 0);
        assert(bytes.subrange(8, 8 + tail.len() as int) =~= tail);
        lemma_xor_decode_tail(values, 1, bytes, 8);
        assert(values =~= seq![values[0]] + values.subrange(1, values.len() as int));
    }
}

/// XOR encoder for `Float64` columns.
pub struct XorEncoder;

impl XorEncoder {
    /// The XOR encoding of a `Float64` column's bit patterns.
    pub fn encode(&self, data: &ColumnData) -> (r: Vec<u8>)
        requires
            data is Float64,
        ensures
            r@ == spec_xor_encode(data->Float64_0@),
    {
        let values = match data {
            ColumnData::Float64(values) => values,
            _ => {
                return Vec::new();
            },
        };
        let mut buf: Vec<u8> = Vec::new();
        if values.len() == 0 {
            return buf;
        }
        write_u64(values[0], &mut buf);
        let mut prev = values[0];
        let mut i: usize = 1;
        while i < values.len()
            invariant
                1 <= i <= values.len(),
                prev == values@[i - 1],
                buf@ + spec_xor_tail(values@, i as int) == spec_xor_encode(values@),
            decreases values.len() - i,
        {
            let bits = values[i];
            let xor = prev ^ bits;
            let ghost before = buf@;
            if xor == 0 {
                buf.push(0u8);
            } else {
                proof {
                    lemma_xor_piece_facts(xor);
                }
                let leading = xor.leading_zeros() as u16;
                let trailing = xor.trailing_zeros() as u16;
                let meaningful: u16 = 64 - leading - trailing;
                buf.push(1u8);
                write_u16(leading, &mut buf);
                write_u16(meaningful, &mut buf);
                assert(meaningful < 64 ==> (1u64 << (meaningful as u64)) >= 1) by (bit_vector);
                let mask = if meaningful == 64 {
                    xor
                } else {
                    (xor >> (trailing as u64)) & ((1u64 << (meaningful as u64)) - 1)
                };
                assert(mask == spec_xor_mask(xor));
                let byte_count = ((meaningful + 7) / 8) as usize;
                let mb = vstd::bytes::u64_to_le_bytes(mask);
                let ghost mid = buf@;
                let mut j: usize = 0;
                while j < byte_count
                    invariant
                        byte_count <= 8,
                        mb@.len() == 8,
                        j <= byte_count,
                        buf@ == mid + mb@.subrange(0, j as int),
                    decreases byte_count - j,
                {
                    buf.push(mb[j]);
                    j = j + 1;
                    assert(buf@ =~= mid + mb@.subrange(0, j as int));
                }
                assert(buf@ =~= before + spec_xor_piece(xor));
            }
            assert(spec_xor_tail(values@, i as int) == spec_xor_piece(xor) + spec_xor_tail(values@, i + 1));
            assert(buf@ + spec_xor_tail(values@, i + 1) =~= before + spec_xor_tail(values@, i as int));
            prev = bits;
            i = i + 1;
        }
        assert(buf@ =~= buf@ + spec_xor_tail(values@, i as int));
        buf
    }

    pub fn encoding_id(&self) -> (id: u16)
        ensures
            id == 2,
    {
        2
    }
}

/// XOR decoder for `Float64` columns.
pub struct XorDecoder;

impl XorDecoder {
    /// The bit patterns that `bytes` holds, at most `count` of them.
    pub fn decode(&self, bytes: &[u8], count: usize) -> (r: ColumnData)
        requires
            spec_xor_decode(bytes@, count as nat) is Some,
        ensures
            r matches ColumnData::Float64(v) && v@ == spec_xor_decode(bytes@, count as nat).unwrap(),
    {
        match self.try_decode(bytes, count) {
            Some(r) => r,
            None => ColumnData::Float64(Vec::new()),
        }
    }

    /// As `decode`, or `None` where an entry cannot be read.
    pub fn try_decode(&self, bytes: &[u8], count: usize) -> (r: Option<ColumnData>)
        ensures
            match r {
                Some(c) => (c matches ColumnData::Float64(v) && spec_xor_decode(bytes@, count as nat) == Some(v@)),
                None => spec_xor_decode(bytes@, count as nat) is None,
            },
    {
        let mut values: Vec<u64> = Vec::new();
        if count == 0 {
            return Some(ColumnData::Float64(values));
        }
        if bytes.len() < 8 {
            return None;
        }
        let first = read_u64(bytes, 0);
        values.push(first);
        let mut prev = first;
        let mut pos: usize = 8;
        let blen = bytes.len();
        while values.len() < count
            invariant
                blen == bytes@.len(),
                1 <= values.len() <= count,
                bytes@.len() >= 8,
                spec_xor_decode(bytes@, count as nat) == (match spec_xor_decode_from(bytes@, pos as int, prev, (count - values.len()) as nat) {
                    None => None,
                    Some(rest) => Some(values@ + rest),
                }),
            ensures
                values.len() == count || pos >= blen,
            decreases count - values.len(),
        {
            let ghost rem = (count - values.len()) as nat;
            let ghost old_values = values@;
            let ghost old_pos = pos;
            let ghost old_prev = prev;
            if pos >= blen {
                break;
            }
            let control = bytes[pos];
            if control == 0 {
                values.push(prev);
                pos = pos + 1;
                proof {
                    match spec_xor_decode_from(bytes@, pos as int, prev, (rem - 1) as nat) {
                        None => {},
                        Some(rest) => { assert(values@ + rest =~= old_values + (seq![old_prev] + rest)); },
                    }
                }
            } else {
                if blen - pos < 5 {
                    return None;
                }
                let leading = read_u16(bytes, pos + 1);
                let meaningful = read_u16(bytes, pos + 3);
                let byte_count = ((meaningful as usize) + 7) / 8;
                let start = pos + 5;
                if byte_count > 8 || byte_count > blen - start || leading as u32 + meaningful as u32 > 64
                    || leading as u32 + meaningful as u32 == 0 {
                    return None;
                }
                let mut mask: u64 = 0;
                let mut j: usize = 0;
                while j < byte_count
                    invariant
                        blen == bytes@.len(),
                        byte_count <= 8,
                        start + byte_count <= bytes@.len(),
                        j <= byte_count,
                        mask == spec_le_value(bytes@.subrange(start as int, start + j)),
                    decreases byte_count - j,
                {
                    assert(bytes@.subrange(start as int, start + j + 1).drop_last() =~= bytes@.subrange(start as int, start + j));
                    mask = mask | ((bytes[start + j] as u64) << ((j * 8) as u64));
                    j = j + 1;
                }
                let trailing = 64 - leading as u32 - meaningful as u32;
                let xor = mask << (trailing as u64);
                let bits = prev ^ xor;
                values.push(bits);
                prev = bits;
                pos = start + byte_count;
                proof {
                    match spec_xor_decode_from(bytes@, pos as int, prev, (rem - 1) as nat) {
                        None => {},
                        Some(rest) => { assert(values@ + rest =~= old_values + (seq![bits] + rest)); },
                    }
                }
            }
        }
        assert(values@ =~= values@ + Seq::<u64>::empty());
        Some(ColumnData::Float64(values))
    }

    pub fn decoding_id(&self) -> (id: u16)
        ensures
            id == 2,
    {
        2
    }
}

} // verus!
