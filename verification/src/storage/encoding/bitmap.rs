//! Bitmap encoding of 0/1 integer columns: the number of values as a varint,
//! then one little-endian 64-bit word per 64 values, bit `i` of a word set
//! where the corresponding value is non-zero.
use vstd::prelude::*;
use vstd::bytes::spec_u64_to_le_bytes;
use crate::exec::batch::ColumnData;
use crate::varint::{spec_decode_varint_from, spec_encode_varint, lemma_decode_varint_at, encode_varint, decode_varint};
use crate::storage::le_bytes::{spec_u64_at, lemma_le_lens, lemma_u64_at, read_u64, write_u64};

verus! {

/// Whether bit `j` of `w` is set.
pub open spec fn spec_bit(w: u64, j: int) -> bool {
    (w >> (j as u64)) & 1 == 1
}

/// The word for the values from `start` on, with only its lowest `n` bits
/// considered: bit `i` set where `values[start + i]` exists and is non-zero.
pub open spec fn spec_bitmap_word(values: Seq<i64>, start: int, n: nat) -> u64
    decreases n,
{
    if n == 0 {
        0
    } else {
        let w = spec_bitmap_word(values, start, (n - 1) as nat);
        if 0 <= start + n - 1 < values.len() && values[start + n - 1] != 0 {
            w | (1u64 << ((n - 1) as u64))
        } else {
            w
        }
    }
}

/// The number of words for `n` values.
pub open spec fn spec_word_count(n: nat) -> nat {
    ((n + 63) / 64) as nat
}

/// The first `k` words of the bitmap of `values`, as bytes.
pub open spec fn spec_bitmap_words(values: Seq<i64>, k: nat) -> Seq<u8>
    decreases k,
{
    if k == 0 {
        Seq::empty()
    } else {
        spec_bitmap_words(values, (k - 1) as nat) + spec_u64_to_le_bytes(spec_bitmap_word(values, 64 * (k - 1), 64))
    }
}

/// The bitmap encoding of `values`.
pub open spec fn spec_bitmap_encode(values: Seq<i64>) -> Seq<u8> {
    spec_encode_varint(values.len() as u64) + spec_bitmap_words(values, spec_word_count(values.len()))
}

/// The `count` values that `bytes` holds: 1 where a bit is set, 0 where it is
/// not. `None` where the stored count differs from `count` or the bytes run
/// out.
pub open spec fn spec_bitmap_decode(bytes: Seq<u8>, count: nat) -> Option<Seq<i64>> {
    if count == 0 {
        Some(Seq::empty())
    } else {
        match spec_decode_varint_from(bytes, 0, 0, 0) {
            None => None,
            Some((stored, pos)) => if stored != count || pos + 8 * spec_word_count(count) > bytes.len() {
                None
            } else {
                Some(Seq::new(count, |k: int| if spec_bit(spec_u64_at(bytes, pos + 8 * (k / 64)), k % 64) { 1i64 } else { 0i64 }))
            },
        }
    }
}

proof fn lemma_bit_or(w: u64, m: u64, j: u64)
    requires
        m < 64,
        j < 64,
    ensures
        ((w | (1u64 << m)) >> j) & 1 == 1 <==> ((w >> j) & 1 == 1 || j == m),
{
    assert(((w | (1u64 << m)) >> j) & 1 == 1 <==> ((w >> j) & 1 == 1 || j == m)) by (bit_vector)
        requires m < 64, j < 64;
}

/// Bit `j` of a word is set exactly where the value it stands for is non-zero.
pub proof fn lemma_bitmap_word_bit(values: Seq<i64>, start: int, n: nat, j: int)
    requires
        n <= 64,
        0 <= j < 64,
    ensures
        spec_bit(spec_bitmap_word(values, start, n), j)
            <==> (j < n && 0 <= start + j < values.len() && values[start + j] != 0),
    decreases n,
{
    if n == 0 {
        let jj = j as u64;
        assert((0u64 >> jj) & 1 == 0) by (bit_vector);
    } else {
        lemma_bitmap_word_bit(values, start, (n - 1) as nat, j);
        let w = spec_bitmap_word(values, start, (n - 1) as nat);
        if 0 <= start + n - 1 < values.len() && values[start + n - 1] != 0 {
            lemma_bit_or(w, (n - 1) as u64, j as u64);
        }
    }
}

proof fn lemma_bitmap_words_layout(values: Seq<i64>, k: nat)
    ensures
        spec_bitmap_words(values, k).len() == 8 * k,
        forall|m: int| 0 <= m < k ==> #[trigger] spec_bitmap_words(values, k).subrange(8 * m, 8 * m + 8)
            == spec_u64_to_le_bytes(spec_bitmap_word(values, 64 * m, 64)),
    decreases k,
{
    if k > 0 {
        lemma_bitmap_words_layout(values, (k - 1) as nat);
        let prev = spec_bitmap_words(values, (k - 1) as nat);
        let last = spec_u64_to_le_bytes(spec_bitmap_word(values, 64 * (k - 1), 64));
        lemma_le_lens(spec_bitmap_word(values, 64 * (k - 1), 64), 0, 0);
        assert forall|m: int| 0 <= m < k implies #[trigger] spec_bitmap_words(values, k).subrange(8 * m, 8 * m + 8)
            == spec_u64_to_le_bytes(spec_bitmap_word(values, 64 * m, 64)) by {
            if m < k - 1 {
                assert((prev + last).subrange(8 * m, 8 * m + 8) =~= prev.subrange(8 * m, 8 * m + 8));
            } else {
                assert((prev + last).subrange(8 * m, 8 * m + 8) =~= last);
            }
        }
    }
}

/// Decoding the bitmap encoding of `values`, with any bytes after it, gives
/// 1 for every non-zero value and 0 for every zero.
pub proof fn lemma_bitmap_roundtrip(values: Seq<i64>, rest: Seq<u8>)
    requires
        values.len() <= u64::MAX,
    ensures
        spec_bitmap_decode(spec_bitmap_encode(values) + rest, values.len())
            == Some(values.map_values(|v: i64| if v != 0 { 1i64 } else { 0i64 })),
{
    let n = values.len();
    if n > 0 {
        let head = spec_encode_varint(n as u64);
        let wc = spec_word_count(n);
        let words = spec_bitmap_words(values, wc);
        let bytes = head + words + rest;
        assert(spec_bitmap_encode(values) + rest == bytes);
        assert(bytes.subrange(0, head.len() as int) =~= head);
        lemma_decode_varint_at(n as u64, bytes, 0);
        lemma_bitmap_words_layout(values, wc);
        let pos = head.len() as int;
        let decoded = Seq::new(n, |k: int| if spec_bit(spec_u64_at(bytes, pos + 8 * (k / 64)), k % 64) { 1i64 } else { 0i64 });
        assert forall|k: int| 0 <= k < n implies decoded[k] == (if values[k] != 0 { 1i64 } else { 0i64 }) by {
            let m = k / 64;
            assert(0 <= m < wc);
            assert(bytes.subrange(pos + 8 * m, pos + 8 * m + 8) =~= words.subrange(8 * m, 8 * m + 8));
            lemma_u64_at(spec_bitmap_word(values, 64 * m, 64), bytes, pos + 8 * m);
            lemma_bitmap_word_bit(values, 64 * m, 64, k % 64);
            assert(64 * m + k % 64 == k);
        }
        assert(decoded =~= values.map_values(|v: i64| if v != 0 { 1i64 } else { 0i64 }));
    } else {
        assert(values.map_values(|v: i64| if v != 0 { 1i64 } else { 0i64 }) =~= Seq::<i64>::empty());
    }
}

/// Bitmap encoder for `Int64` columns of zeros and ones.
pub struct BitmapEncoder;

impl BitmapEncoder {
    /// The bitmap encoding of an `Int64` column.
    pub fn encode(&self, data: &ColumnData) -> (r: Vec<u8>)
        requires
            data is Int64,
        ensures
            r@ == spec_bitmap_encode(data->Int64_0@),
    {
        let values = match data {
            ColumnData::Int64(values) => values,
            _ => {
                return Vec::new();
            },
        };
        let n = values.len();
        let mut buf: Vec<u8> = Vec::new();
        encode_varint(n as u64, &mut buf);
        let ghost head = buf@;
        let word_count = n / 64 + if n % 64 != 0 { 1 } else { 0 };
        assert(word_count == spec_word_count(n as nat));
        let mut k: usize = 0;
        while k < word_count
            invariant
                n == values.len(),
                word_count == spec_word_count(n as nat),
                k <= word_count,
                head == spec_encode_varint(n as u64),
                buf@ == head + spec_bitmap_words(values@, k as nat),
            decreases word_count - k,
        {
            let start = 64 * k;
            assert(start < n);
            let end = if n - start < 64 { n } else { start + 64 };
            let mut word: u64 = 0;
            let mut i: usize = 0;
            while start + i < end
                invariant
                    n == values.len(),
                    start < n,
                    end <= n,
                    end - start <= 64,
                    end == n || end == start + 64,
                    start + i <= end,
                    word == spec_bitmap_word(values@, start as int, i as nat),
                decreases end - start - i,
            {
                if values[start + i] != 0 {
                    word = word | (1u64 << (i as u64));
                }
                i = i + 1;
            }
            if i < 64 {
                proof {
                    lemma_word_tail(values@, start as int, i as nat, 64);
                }
            }
            let ghost before = buf@;
            write_u64(word, &mut buf);
            assert(buf@ =~= head + spec_bitmap_words(values@, (k + 1) as nat));
            k = k + 1;
        }
        buf
    }

    pub fn encoding_id(&self) -> (id: u16)
        ensures
            id == 6,
    {
        6
    }
}

/// Bits for values past the end are never set, so the word stops changing
/// once the values run out.
proof fn lemma_word_tail(values: Seq<i64>, start: int, i: nat, n: nat)
    requires
        i <= n,
        start + i >= values.len(),
    ensures
        spec_bitmap_word(values, start, n) == spec_bitmap_word(values, start, i),
    decreases n,
{
    if n > i {
        lemma_word_tail(values, start, i, (n - 1) as nat);
    }
}

/// Bitmap decoder for `Int64` columns.
pub struct BitmapDecoder;

impl BitmapDecoder {
    /// The `count` values that `bytes` holds.
    pub fn decode(&self, bytes: &[u8], count: usize) -> (r: ColumnData)
        requires
            spec_bitmap_decode(bytes@, count as nat) is Some,
        ensures
            r matches ColumnData::Int64(v) && v@ == spec_bitmap_decode(bytes@, count as nat).unwrap(),
    {
        match self.try_decode(bytes, count) {
            Some(r) => r,
            None => ColumnData::Int64(Vec::new()),
        }
    }

    /// As `decode`, or `None` where the stored count differs or the bytes
    /// run out.
    pub fn try_decode(&self, bytes: &[u8], count: usize) -> (r: Option<ColumnData>)
        ensures
            match r {
                Some(c) => (c matches ColumnData::Int64(v) && spec_bitmap_decode(bytes@, count as nat) == Some(v@)),
                None => spec_bitmap_decode(bytes@, count as nat) is None,
            },
    {
        let mut values: Vec<i64> = Vec::new();
        if count == 0 {
            return Some(ColumnData::Int64(values));
        }
        let (stored, mut pos) = match decode_varint(bytes, 0) {
            Some(x) => x,
            None => {
                return None;
            },
        };
        proof {
            crate::varint::lemma_decode_advances(bytes@, 0);
        }
        let blen = bytes.len();
        let word_count = count / 64 + if count % 64 != 0 { 1 } else { 0 };
        assert(word_count == spec_word_count(count as nat));
        if stored != count as u64 || word_count > (blen - pos) / 8 {
            return None;
        }
        let ghost pos0 = pos as int;
        let ghost expected = spec_bitmap_decode(bytes@, count as nat).unwrap();
        let mut wi: usize = 0;
        while wi < word_count
            invariant
                blen == bytes@.len(),
                word_count == spec_word_count(count as nat),
                wi <= word_count,
                pos == pos0 + 8 * wi,
                pos0 + 8 * word_count <= bytes@.len(),
                values@.len() == (if 64 * wi <= count { 64 * wi } else { count as int }),
                forall|k: int| 0 <= k < values@.len() ==> values@[k] == expected[k],
                expected.len() == count,
                expected == Seq::new(count as nat, |k: int| if spec_bit(spec_u64_at(bytes@, pos0 + 8 * (k / 64)), k % 64) { 1i64 } else { 0i64 }),
            decreases word_count - wi,
        {
            assert(pos + 8 <= pos0 + 8 * word_count) by (nonlinear_arith)
                requires pos == pos0 + 8 * wi, wi < word_count;
            let word = read_u64(bytes, pos);
            pos = pos + 8;
            let bits_in_word: usize = if wi == word_count - 1 && count % 64 != 0 { count % 64 } else { 64 };
            let mut i: usize = 0;
            let ghost base = values@.len();
            while i < bits_in_word
                invariant
                    i <= bits_in_word <= 64,
                    values@.len() == base + i,
                    base == 64 * wi,
                    base + bits_in_word <= count,
                    wi < word_count,
                    base + bits_in_word == (if 64 * (wi + 1) <= count { 64 * (wi + 1) } else { count as int }),
                    word == spec_u64_at(bytes@, pos0 + 8 * wi),
                    forall|k: int| 0 <= k < values@.len() ==> values@[k] == expected[k],
                    expected.len() == count,
                    expected == Seq::new(count as nat, |k: int| if spec_bit(spec_u64_at(bytes@, pos0 + 8 * (k / 64)), k % 64) { 1i64 } else { 0i64 }),
                decreases bits_in_word - i,
            {
                let set = word & (1u64 << (i as u64)) != 0;
                assert(set == spec_bit(word, i as int)) by (bit_vector)
                    requires i < 64, set == (word & (1u64 << (i as u64)) != 0);
                let ghost k = base + i;
                assert(k / 64 == wi && k % 64 == i);
                if set {
                    values.push(1);
                } else {
                    values.push(0);
                }
                i = i + 1;
            }
            wi = wi + 1;
        }
        assert(values@ =~= expected);
        Some(ColumnData::Int64(values))
    }

    pub fn decoding_id(&self) -> (id: u16)
        ensures
            id == 6,
    {
        6
    }
}

} // verus!
