//! Delta encoding of 64-bit integers: the first value as eight raw
//! little-endian bytes, then each difference to the previous value as a
//! signed varint. Differences wrap, so every sequence round-trips.
use vstd::prelude::*;
use vstd::bytes::*;
use crate::exec::batch::ColumnData;
use crate::varint::{
    spec_decode_varint_from, spec_encode_varint_signed, spec_unzigzag, spec_zigzag,
    lemma_zigzag_roundtrip, lemma_decode_varint_at, encode_varint_signed, decode_varint_signed,
};
use crate::storage::le_bytes::{spec_u64_at, lemma_le_lens, lemma_u64_at, lemma_i64_u64_cast, read_u64, write_u64};

verus! {

/// `a - b`, wrapping on overflow.
pub open spec fn spec_wrapping_sub(a: i64, b: i64) -> i64 {
    vstd::wrapping::i64_specs::wrapping_sub(a, b)
}

/// `a + b`, wrapping on overflow.
pub open spec fn spec_wrapping_add(a: i64, b: i64) -> i64 {
    vstd::wrapping::i64_specs::wrapping_add(a, b)
}

/// The encoded differences of `values` from position `i` on.
pub open spec fn spec_delta_tail(values: Seq<i64>, i: int) -> Seq<u8>
    decreases values.len() - i,
{
    if i <= 0 || i >= values.len() {
        Seq::empty()
    } else {
        spec_encode_varint_signed(spec_wrapping_sub(values[i], values[i - 1])) + spec_delta_tail(values, i + 1)
    }
}

/// The delta encoding of `values`.
pub open spec fn spec_delta_encode(values: Seq<i64>) -> Seq<u8> {
    if values.len() == 0 {
        Seq::empty()
    } else {
        spec_u64_to_le_bytes(values[0] as u64) + spec_delta_tail(values, 1)
    }
}

/// Reading `remaining` differences from `pos` on, starting from `prev`.
pub open spec fn spec_delta_decode_from(bytes: Seq<u8>, pos: int, prev: i64, remaining: nat) -> Option<Seq<i64>>
    decreases remaining,
{
    if remaining == 0 {
        Some(Seq::empty())
    } else {
        match spec_decode_varint_from(bytes, pos, 0, 0) {
            None => None,
            Some((u, end)) => {
                let v = spec_wrapping_add(prev, spec_unzigzag(u));
                match spec_delta_decode_from(bytes, end, v, (remaining - 1) as nat) {
                    None => None,
                    Some(rest) => Some(seq![v] + rest),
                }
            },
        }
    }
}

/// The `count` values that `bytes` holds, or `None` where the bytes run out
/// before all of them are read.
pub open spec fn spec_delta_decode(bytes: Seq<u8>, count: nat) -> Option<Seq<i64>> {
    if count == 0 {
        Some(Seq::empty())
    } else if bytes.len() < 8 {
        None
    } else {
        let base = spec_u64_at(bytes, 0) as i64;
        match spec_delta_decode_from(bytes, 8, base, (count - 1) as nat) {
            None => None,
            Some(rest) => Some(seq![base] + rest),
        }
    }
}

proof fn lemma_delta_step(a: i64, b: i64)
    ensures
        spec_wrapping_add(a, spec_unzigzag(spec_zigzag(spec_wrapping_sub(b, a)))) == b,
{
    lemma_zigzag_roundtrip(spec_wrapping_sub(b, a));
}

proof fn lemma_delta_decode_tail(values: Seq<i64>, i: int, bytes: Seq<u8>, pos: int)
    requires
        1 <= i <= values.len(),
        0 <= pos,
        pos + spec_delta_tail(values, i).len() <= bytes.len(),
        bytes.subrange(pos, pos + spec_delta_tail(values, i).len()) == spec_delta_tail(values, i),
    ensures
        spec_delta_decode_from(bytes, pos, values[i - 1], (values.len() - i) as nat)
            == Some(values.subrange(i, values.len() as int)),
    decreases values.len() - i,
{
    if i < values.len() {
        let d = spec_wrapping_sub(values[i], values[i - 1]);
        let enc = spec_encode_varint_signed(d);
        let tail = spec_delta_tail(values, i + 1);
        assert(spec_delta_tail(values, i) == enc + tail);
        assert(bytes.subrange(pos, pos + enc.len()) == enc) by {
            assert(bytes.subrange(pos, pos + enc.len()) =~= (enc + tail).subrange(0, enc.len() as int));
        }
        lemma_decode_varint_at(spec_zigzag(d), bytes, pos);
        lemma_delta_step(values[i - 1], values[i]);
        assert(bytes.subrange(pos + enc.len(), pos + enc.len() + tail.len()) == tail) by {
            assert(bytes.subrange(pos + enc.len(), pos + enc.len() + tail.len())
                =~= (enc + tail).subrange(enc.len() as int, (enc.len() + tail.len()) as int));
        }
        lemma_delta_decode_tail(values, i + 1, bytes, pos + enc.len());
        assert(values.subrange(i, values.len() as int) =~= seq![values[i]] + values.subrange(i + 1, values.len() as int));
    } else {
        assert(values.subrange(i, values.len() as int) =~= Seq::<i64>::empty());
    }
}

/// Decoding the delta encoding of `values`, with any bytes after it, gives
/// `values` back.
pub proof fn lemma_delta_roundtrip(values: Seq<i64>, rest: Seq<u8>)
    ensures
        spec_delta_decode(spec_delta_encode(values) + rest, values.len()) == Some(values),
{
    if values.len() > 0 {
        let bytes = spec_delta_encode(values) + rest;
        let head = spec_u64_to_le_bytes(values[0] as u64);
        let tail = spec_delta_tail(values, 1);
        lemma_le_lens(values[0] as u64, 0, 0);
        assert(bytes.subrange(0, 8) =~= head);
        lemma_u64_at(values[0] as u64, bytes, 0);
        lemma_i64_u64_cast(values[0]);
        assert(bytes.subrange(8, 8 + tail.len() as int) =~= tail);
        lemma_delta_decode_tail(values, 1, bytes, 8);
        assert(values =~= seq![values[0]] + values.subrange(1, values.len() as int));
    }
}

/// Delta encoder for `Int64` columns.
pub struct DeltaBitpackEncoder;

impl DeltaBitpackEncoder {
    /// The delta encoding of an `Int64` column.
    pub fn encode(&self, data: &ColumnData) -> (r: Vec<u8>)
        requires
            data is Int64,
        ensures
            r@ == spec_delta_encode(data->Int64_0@),
    {
        match data {
            ColumnData::Int64(values) => encode_i64_values(values),
            _ => Vec::new(),
        }
    }

    pub fn encoding_id(&self) -> (id: u16)
        ensures
            id == 1,
    {
        1
    }
}

/// The delta encoding of `values`.
pub fn encode_i64_values(values: &Vec<i64>) -> (r: Vec<u8>)
    ensures
        r@ == spec_delta_encode(values@),
{
    let mut buf: Vec<u8> = Vec::new();
    if values.len() == 0 {
        return buf;
    }
    let base = values[0];
    write_u64(base as u64, &mut buf);
    let mut prev = base;
    let mut i: usize = 1;
    while i < values.len()
        invariant
            1 <= i <= values.len(),
            prev == values@[i - 1],
            buf@ + spec_delta_tail(values@, i as int) == spec_delta_encode(values@),
        decreases values.len() - i,
    {
        let v = values[i];
        let delta = v.wrapping_sub(prev);
        let ghost before = buf@;
        encode_varint_signed(delta, &mut buf);
        assert(spec_delta_tail(values@, i as int)
            == spec_encode_varint_signed(delta) + spec_delta_tail(values@, i + 1));
        assert(buf@ + spec_delta_tail(values@, i + 1) =~= before + spec_delta_tail(values@, i as int));
        prev = v;
        i = i + 1;
    }
    assert(spec_delta_tail(values@, i as int) =~= Seq::<u8>::empty());
    assert(buf@ =~= buf@ + spec_delta_tail(values@, i as int));
    buf
}

/// Delta decoder for `Int64` columns.
pub struct DeltaBitpackDecoder;

impl DeltaBitpackDecoder {
    /// The `count` values that `bytes` holds.
    pub fn decode(&self, bytes: &[u8], count: usize) -> (r: ColumnData)
        requires
            spec_delta_decode(bytes@, count as nat) is Some,
        ensures
            r matches ColumnData::Int64(v) && v@ == spec_delta_decode(bytes@, count as nat).unwrap(),
    {
        match self.try_decode(bytes, count) {
            Some(r) => r,
            None => ColumnData::Int64(Vec::new()),
        }
    }

    /// The `count` values that `bytes` holds, or `None` where the bytes run
    /// out first.
    pub fn try_decode(&self, bytes: &[u8], count: usize) -> (r: Option<ColumnData>)
        ensures
            match r {
                Some(c) => (c matches ColumnData::Int64(v) && spec_delta_decode(bytes@, count as nat) == Some(v@)),
                None => spec_delta_decode(bytes@, count as nat) is None,
            },
    {
        match decode_i64_values(bytes, count) {
            Some(v) => Some(ColumnData::Int64(v)),
            None => None,
        }
    }

    pub fn decoding_id(&self) -> (id: u16)
        ensures
            id == 1,
    {
        1
    }
}

/// The `count` values that the delta encoding in `bytes` holds, or `None`
/// where the bytes run out first.
pub fn decode_i64_values(bytes: &[u8], count: usize) -> (r: Option<Vec<i64>>)
    ensures
        match r {
            Some(v) => spec_delta_decode(bytes@, count as nat) == Some(v@),
            None => spec_delta_decode(bytes@, count as nat) is None,
        },
{
    let mut values: Vec<i64> = Vec::new();
    if count == 0 {
        return Some(values);
    }
    if bytes.len() < 8 {
        return None;
    }
    let base = read_u64(bytes, 0) as i64;
    values.push(base);
    let mut prev = base;
    let mut pos: usize = 8;
    while values.len() < count
        invariant
            1 <= values.len() <= count,
            count > 0,
            bytes@.len() >= 8,
            prev == values@[values.len() - 1],
            spec_delta_decode(bytes@, count as nat) == (match spec_delta_decode_from(bytes@, pos as int, prev, (count - values.len()) as nat) {
                None => None,
                Some(rest) => Some(values@ + rest),
            }),
        decreases count - values.len(),
    {
        let ghost rem = (count - values.len()) as nat;
        let ghost old_values = values@;
        match decode_varint_signed(bytes, pos) {
            Some((delta, end)) => {
                let v = prev.wrapping_add(delta);
                values.push(v);
                prev = v;
                pos = end;
                proof {
                    match spec_delta_decode_from(bytes@, pos as int, prev, (rem - 1) as nat) {
                        None => {},
                        Some(rest) => {
                            assert(values@ + rest =~= old_values + (seq![v] + rest));
                        },
                    }
                }
            },
            None => {
                return None;
            },
        }
    }
    assert(values@ =~= values@ + Seq::<i64>::empty());
    Some(values)
}

} // verus!
