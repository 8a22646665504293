//! Run-length encoding of 64-bit integers: each run of equal values as the
//! value (a signed varint) followed by the run's length (a varint).
use vstd::prelude::*;
use crate::exec::batch::ColumnData;
use crate::varint::{
    spec_decode_varint_from, spec_encode_varint, spec_encode_varint_signed, spec_unzigzag,
    spec_zigzag, lemma_zigzag_roundtrip, lemma_decode_varint_at, lemma_decode_advances,
    encode_varint, encode_varint_signed, decode_varint, decode_varint_signed,
};

verus! {

/// The position just after the run of values equal to `values[i]` that
/// starts at `i`.
pub open spec fn spec_run_end(values: Seq<i64>, i: int) -> int
    decreases values.len() - i,
{
    if 0 <= i && i + 1 < values.len() && values[i + 1] == values[i] {
        spec_run_end(values, i + 1)
    } else {
        i + 1
    }
}

/// The run-length encoding of `values` from position `i` on.
pub open spec fn spec_rle_from(values: Seq<i64>, i: int) -> Seq<u8>
    decreases values.len() - i,
{
    if i < 0 || i >= values.len() {
        Seq::empty()
    } else {
        let end = spec_run_end(values, i);
        proof {
            lemma_run_end(values, i);
        }
        spec_encode_varint_signed(values[i]) + spec_encode_varint((end - i) as u64) + spec_rle_from(values, end)
    }
}

/// The run-length encoding of `values`.
pub open spec fn spec_rle_encode(values: Seq<i64>) -> Seq<u8> {
    spec_rle_from(values, 0)
}

/// Reading runs from `pos` on, with `have` values already read, until at
/// least `count` values are read. The last run is taken whole, so more than
/// `count` values may come out. `None` where the bytes run out first.
pub open spec fn spec_rle_decode_from(bytes: Seq<u8>, pos: int, have: nat, count: nat) -> Option<Seq<i64>>
    decreases bytes.len() - pos,
{
    if have >= count {
        Some(Seq::empty())
    } else {
        match spec_decode_varint_from(bytes, pos, 0, 0) {
            None => None,
            Some((u, e1)) => match spec_decode_varint_from(bytes, e1, 0, 0) {
                None => None,
                Some((run, e2)) => {
                    proof {
                        lemma_decode_advances(bytes, pos);
                        lemma_decode_advances(bytes, e1);
                    }
                    match spec_rle_decode_from(bytes, e2, (have + run) as nat, count) {
                        None => None,
                        Some(rest) => Some(Seq::new(run as nat, |k: int| spec_unzigzag(u)) + rest),
                    }
                },
            },
        }
    }
}

/// The values that the runs in `bytes` hold, read until at least `count`
/// are read.
pub open spec fn spec_rle_decode(bytes: Seq<u8>, count: nat) -> Option<Seq<i64>> {
    if count == 0 {
        Some(Seq::empty())
    } else {
        spec_rle_decode_from(bytes, 0, 0, count)
    }
}

/// A run ends after it starts, and every value in it equals its first.
pub proof fn lemma_run_end(values: Seq<i64>, i: int)
    requires
        0 <= i < values.len(),
    ensures
        i < spec_run_end(values, i) <= values.len(),
        forall|k: int| i <= k < spec_run_end(values, i) ==> values[k] == values[i],
        spec_run_end(values, i) < values.len() ==> values[spec_run_end(values, i)] != values[i],
    decreases values.len() - i,
{
    if i + 1 < values.len() && values[i + 1] == values[i] {
        lemma_run_end(values, i + 1);
    }
}

proof fn lemma_rle_decode_tail(values: Seq<i64>, i: int, bytes: Seq<u8>, pos: int)
    requires
        0 <= i <= values.len(),
        values.len() <= u64::MAX,
        0 <= pos,
        pos + spec_rle_from(values, i).len() <= bytes.len(),
        bytes.subrange(pos, pos + spec_rle_from(values, i).len()) == spec_rle_from(values, i),
    ensures
        spec_rle_decode_from(bytes, pos, i as nat, values.len()) == Some(values.subrange(i, values.len() as int)),
    decreases values.len() - i,
{
    if i < values.len() {
        let end = spec_run_end(values, i);
        lemma_run_end(values, i);
        let e1 = spec_encode_varint_signed(values[i]);
        let e2 = spec_encode_varint((end - i) as u64);
        let tail = spec_rle_from(values, end);
        assert(spec_rle_from(values, i) == e1 + e2 + tail);
        let all = e1 + e2 + tail;
        assert(bytes.subrange(pos, pos + e1.len()) =~= all.subrange(0, e1.len() as int));
        assert(all.subrange(0, e1.len() as int) =~= e1);
        assert(all.subrange(e1.len() as int, (e1.len() + e2.len()) as int) =~= e2);
        assert(all.subrange((e1.len() + e2.len()) as int, all.len() as int) =~= tail);
        lemma_decode_varint_at(spec_zigzag(values[i]), bytes, pos);
        assert(bytes.subrange(pos + e1.len(), pos + e1.len() + e2.len())
            =~= all.subrange(e1.len() as int, (e1.len() + e2.len()) as int));
        lemma_decode_varint_at((end - i) as u64, bytes, pos + e1.len());
        assert(bytes.subrange(pos + e1.len() + e2.len(), pos + e1.len() + e2.len() + tail.len())
            =~= all.subrange((e1.len() + e2.len()) as int, all.len() as int));
        lemma_rle_decode_tail(values, end, bytes, pos + e1.len() + e2.len());
        lemma_zigzag_roundtrip(values[i]);
        assert(values.subrange(i, values.len() as int)
            =~= Seq::new((end - i) as nat, |k: int| values[i]) + values.subrange(end, values.len() as int));
    } else {
        assert(values.subrange(i, values.len() as int) =~= Seq::<i64>::empty());
    }
}

/// Decoding the run-length encoding of `values`, with any bytes after it,
/// gives `values` back.
pub proof fn lemma_rle_roundtrip(values: Seq<i64>, rest: Seq<u8>)
    requires
        values.len() <= u64::MAX,
    ensures
        spec_rle_decode(spec_rle_encode(values) + rest, values.len()) == Some(values),
{
    let bytes = spec_rle_encode(values) + rest;
    assert(bytes.subrange(0, spec_rle_encode(values).len() as int) =~= spec_rle_encode(values));
    lemma_rle_decode_tail(values, 0, bytes, 0);
    assert(values.subrange(0, values.len() as int) =~= values);
}

/// Run-length encoder for `Int64` columns.
pub struct RleEncoder;

impl RleEncoder {
    /// The run-length encoding of an `Int64` column.
    pub fn encode(&self, data: &ColumnData) -> (r: Vec<u8>)
        requires
            data is Int64,
        ensures
            r@ == spec_rle_encode(data->Int64_0@),
    {
        let values = match data {
            ColumnData::Int64(values) => values,
            _ => {
                return Vec::new();
            },
        };
        let mut buf: Vec<u8> = Vec::new();
        let n = values.len();
        let mut i: usize = 0;
        while i < n
            invariant
                n == values.len(),
                0 <= i <= n,
                buf@ + spec_rle_from(values@, i as int) == spec_rle_encode(values@),
            decreases n - i,
        {
            let v = values[i];
            let mut run_len: usize = 1;
            proof {
                lemma_run_end(values@, i as int);
            }
            while i + run_len < n && values[i + run_len] == v
                invariant
                    n == values.len(),
                    i < n,
                    1 <= run_len,
                    i + run_len <= n,
                    v == values@[i as int],
                    values@[i + run_len - 1] == v,
                    spec_run_end(values@, i as int) == spec_run_end(values@, i + run_len - 1),
                decreases n - i - run_len,
            {
                run_len = run_len + 1;
            }
            assert(spec_run_end(values@, i as int) == i + run_len);
            let ghost before = buf@;
            encode_varint_signed(v, &mut buf);
            encode_varint(run_len as u64, &mut buf);
            assert(buf@ + spec_rle_from(values@, (i + run_len) as int) =~= before + spec_rle_from(values@, i as int));
            i = i + run_len;
        }
        assert(buf@ =~= buf@ + spec_rle_from(values@, i as int));
        buf
    }

    pub fn encoding_id(&self) -> (id: u16)
        ensures
            id == 5,
    {
        5
    }
}

/// Run-length decoder for `Int64` columns.
pub struct RleDecoder;

impl RleDecoder {
    /// The values that the runs in `bytes` hold, read until at least
    /// `count` are read.
    pub fn decode(&self, bytes: &[u8], count: usize) -> (r: ColumnData)
        requires
            spec_rle_decode(bytes@, count as nat) is Some,
        ensures
            r matches ColumnData::Int64(v) && v@ == spec_rle_decode(bytes@, count as nat).unwrap(),
    {
        match self.try_decode(bytes, count) {
            Some(r) => r,
            None => ColumnData::Int64(Vec::new()),
        }
    }

    /// As `decode`, or `None` where the bytes run out first.
    pub fn try_decode(&self, bytes: &[u8], count: usize) -> (r: Option<ColumnData>)
        ensures
            match r {
                Some(c) => (c matches ColumnData::Int64(v) && spec_rle_decode(bytes@, count as nat) == Some(v@)),
                None => spec_rle_decode(bytes@, count as nat) is None,
            },
    {
        let mut values: Vec<i64> = Vec::new();
        if count == 0 {
            return Some(ColumnData::Int64(values));
        }
        let mut pos: usize = 0;
        while values.len() < count
            invariant
                count > 0,
                spec_rle_decode(bytes@, count as nat) == (match spec_rle_decode_from(bytes@, pos as int, values.len() as nat, count as nat) {
                    None => None,
                    Some(rest) => Some(values@ + rest),
                }),
            decreases bytes@.len() - pos,
        {
            let ghost old_values = values@;
            let ghost old_pos = pos;
            let (v, p1) = match decode_varint_signed(bytes, pos) {
                Some(x) => x,
                None => {
                    return None;
                },
            };
            let (run_len, p2) = match decode_varint(bytes, p1) {
                Some(x) => x,
                None => {
                    return None;
                },
            };
            proof {
                lemma_decode_advances(bytes@, old_pos as int);
                lemma_decode_advances(bytes@, p1 as int);
            }
            let mut k: u64 = 0;
            while k < run_len
                invariant
                    k <= run_len,
                    values@ == old_values + Seq::new(k as nat, |j: int| v),
                decreases run_len - k,
            {
                values.push(v);
                k = k + 1;
                assert(values@ =~= old_values + Seq::new(k as nat, |j: int| v));
            }
            pos = p2;
            proof {
                match spec_rle_decode_from(bytes@, pos as int, values.len() as nat, count as nat) {
                    None => {},
                    Some(rest) => {
                        assert(values@ + rest =~= old_values + (Seq::new(run_len as nat, |j: int| v) + rest));
                    },
                }
            }
        }
        assert(values@ =~= values@ + Seq::<i64>::empty());
        Some(ColumnData::Int64(values))
    }

    pub fn decoding_id(&self) -> (id: u16)
        ensures
            id == 5,
    {
        5
    }
}

} // verus!
