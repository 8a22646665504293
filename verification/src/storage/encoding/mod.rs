//! Column encodings, one per value type, and the choice between them.
pub mod int64;
pub mod timestamp;
pub mod rle;
pub mod bitmap;
pub mod float64;
pub mod utf8;

use vstd::prelude::*;
use crate::exec::batch::{ColumnData, ColumnValues};
use crate::storage::encoding::int64::{spec_delta_encode, spec_delta_decode, lemma_delta_roundtrip, DeltaBitpackEncoder, DeltaBitpackDecoder};
use crate::storage::encoding::timestamp::{TimestampEncoder, TimestampDecoder};
use crate::storage::encoding::rle::{spec_rle_encode, spec_rle_decode, RleEncoder, RleDecoder};
use crate::storage::encoding::bitmap::{spec_bitmap_encode, spec_bitmap_decode, lemma_bitmap_roundtrip, BitmapEncoder, BitmapDecoder};
use crate::storage::encoding::float64::{spec_xor_encode, spec_xor_decode, lemma_xor_roundtrip, XorEncoder, XorDecoder};
use crate::storage::encoding::utf8::{spec_utf8_encode, spec_utf8_decode, spec_dict_payload, lemma_utf8_roundtrip, DictZstdEncoder, DictZstdDecoder};
use crate::storage::compress::{zstd_encode_all, zstd_decode_all};
use crate::text::spec_utf8;

verus! {

/// Whether every value is 0 or 1.
pub open spec fn spec_all_bits(values: Seq<i64>) -> bool {
    forall|i: int| 0 <= i < values.len() ==> values[i] == 0 || values[i] == 1
}

/// A column encoding: the columns it takes, the bytes it writes for them,
/// and the id that marks them.
pub trait Encoder {
    /// Whether the encoding takes the column `data`.
    spec fn accepts(&self, data: ColumnValues) -> bool;

    /// The bytes the encoding writes for `data`.
    spec fn encoding(&self, data: ColumnValues) -> Seq<u8>;

    /// The id of the encoding.
    spec fn encoding_id_spec(&self) -> u16;

    /// The bytes of `data`.
    fn encode(&self, data: &ColumnData) -> (r: Vec<u8>)
        requires
            self.accepts(data@),
        ensures
            r@ == self.encoding(data@),
    ;

    fn encoding_id(&self) -> (id: u16)
        ensures
            id == self.encoding_id_spec(),
    ;
}

/// A column decoding: the id of the encoding it reads, and the columns it
/// reads back.
pub trait Decoder {
    /// The id of the encoding it reads.
    spec fn decoding_id_spec(&self) -> u16;

    /// The column that `bytes` hold for `count` values under the encoding;
    /// `None` for bytes that cannot be read.
    fn decode(&self, bytes: &[u8], count: usize) -> (r: Option<ColumnData>)
        ensures
            match r {
                Some(c) => spec_decode_column(self.decoding_id_spec(), bytes@, count as nat) == Some(c@),
                None => spec_decode_column(self.decoding_id_spec(), bytes@, count as nat) is None,
            },
    ;

    fn decoding_id(&self) -> (id: u16)
        ensures
            id == self.decoding_id_spec(),
    ;
}

impl Encoder for DeltaBitpackEncoder {
    open spec fn accepts(&self, data: ColumnValues) -> bool {
        data is Int64
    }

    open spec fn encoding(&self, data: ColumnValues) -> Seq<u8> {
        spec_delta_encode(data->Int64_0)
    }

    open spec fn encoding_id_spec(&self) -> u16 {
        1
    }

    fn encode(&self, data: &ColumnData) -> (r: Vec<u8>) {
        DeltaBitpackEncoder::encode(self, data)
    }

    fn encoding_id(&self) -> (id: u16) {
        1
    }
}

impl Encoder for BitmapEncoder {
    open spec fn accepts(&self, data: ColumnValues) -> bool {
        data is Int64
    }

    open spec fn encoding(&self, data: ColumnValues) -> Seq<u8> {
        spec_bitmap_encode(data->Int64_0)
    }

    open spec fn encoding_id_spec(&self) -> u16 {
        6
    }

    fn encode(&self, data: &ColumnData) -> (r: Vec<u8>) {
        BitmapEncoder::encode(self, data)
    }

    fn encoding_id(&self) -> (id: u16) {
        6
    }
}

impl Encoder for RleEncoder {
    open spec fn accepts(&self, data: ColumnValues) -> bool {
        data is Int64
    }

    open spec fn encoding(&self, data: ColumnValues) -> Seq<u8> {
        spec_rle_encode(data->Int64_0)
    }

    open spec fn encoding_id_spec(&self) -> u16 {
        5
    }

    fn encode(&self, data: &ColumnData) -> (r: Vec<u8>) {
        RleEncoder::encode(self, data)
    }

    fn encoding_id(&self) -> (id: u16) {
        5
    }
}

impl Encoder for XorEncoder {
    open spec fn accepts(&self, data: ColumnValues) -> bool {
        data is Float64
    }

    open spec fn encoding(&self, data: ColumnValues) -> Seq<u8> {
        spec_xor_encode(data->Float64_0)
    }

    open spec fn encoding_id_spec(&self) -> u16 {
        2
    }

    fn encode(&self, data: &ColumnData) -> (r: Vec<u8>) {
        XorEncoder::encode(self, data)
    }

    fn encoding_id(&self) -> (id: u16) {
        2
    }
}

impl Encoder for TimestampEncoder {
    open spec fn accepts(&self, data: ColumnValues) -> bool {
        data is Timestamp
    }

    open spec fn encoding(&self, data: ColumnValues) -> Seq<u8> {
        spec_delta_encode(data->Timestamp_0)
    }

    open spec fn encoding_id_spec(&self) -> u16 {
        4
    }

    fn encode(&self, data: &ColumnData) -> (r: Vec<u8>) {
        TimestampEncoder::encode(self, data)
    }

    fn encoding_id(&self) -> (id: u16) {
        4
    }
}

impl Encoder for DictZstdEncoder {
    open spec fn accepts(&self, data: ColumnValues) -> bool {
        data is Utf8
    }

    open spec fn encoding(&self, data: ColumnValues) -> Seq<u8> {
        spec_utf8_encode(data->Utf8_0)
    }

    open spec fn encoding_id_spec(&self) -> u16 {
        3
    }

    fn encode(&self, data: &ColumnData) -> (r: Vec<u8>) {
        DictZstdEncoder::encode(self, data)
    }

    fn encoding_id(&self) -> (id: u16) {
        3
    }
}

impl Decoder for DeltaBitpackDecoder {
    open spec fn decoding_id_spec(&self) -> u16 {
        1
    }

    fn decode(&self, bytes: &[u8], count: usize) -> (r: Option<ColumnData>) {
        self.try_decode(bytes, count)
    }

    fn decoding_id(&self) -> (id: u16) {
        1
    }
}

impl Decoder for XorDecoder {
    open spec fn decoding_id_spec(&self) -> u16 {
        2
    }

    fn decode(&self, bytes: &[u8], count: usize) -> (r: Option<ColumnData>) {
        self.try_decode(bytes, count)
    }

    fn decoding_id(&self) -> (id: u16) {
        2
    }
}

impl Decoder for DictZstdDecoder {
    open spec fn decoding_id_spec(&self) -> u16 {
        3
    }

    fn decode(&self, bytes: &[u8], count: usize) -> (r: Option<ColumnData>) {
        DictZstdDecoder::decode(self, bytes, count)
    }

    fn decoding_id(&self) -> (id: u16) {
        3
    }
}

impl Decoder for TimestampDecoder {
    open spec fn decoding_id_spec(&self) -> u16 {
        4
    }

    fn decode(&self, bytes: &[u8], count: usize) -> (r: Option<ColumnData>) {
        self.try_decode(bytes, count)
    }

    fn decoding_id(&self) -> (id: u16) {
        4
    }
}

impl Decoder for RleDecoder {
    open spec fn decoding_id_spec(&self) -> u16 {
        5
    }

    fn decode(&self, bytes: &[u8], count: usize) -> (r: Option<ColumnData>) {
        self.try_decode(bytes, count)
    }

    fn decoding_id(&self) -> (id: u16) {
        5
    }
}

impl Decoder for BitmapDecoder {
    open spec fn decoding_id_spec(&self) -> u16 {
        6
    }

    fn decode(&self, bytes: &[u8], count: usize) -> (r: Option<ColumnData>) {
        self.try_decode(bytes, count)
    }

    fn decoding_id(&self) -> (id: u16) {
        6
    }
}

/// The encoding chosen for a column, and its bytes. Integer columns of only
/// zeros and ones are bitmaps, other integer columns and timestamps are
/// delta-encoded, floats are XOR-encoded and strings dictionary-encoded.
pub open spec fn spec_encode_column(data: ColumnValues) -> (u16, Seq<u8>) {
    match data {
        ColumnValues::Int64(v) => if spec_all_bits(v) {
            (6, spec_bitmap_encode(v))
        } else {
            (1, spec_delta_encode(v))
        },
        ColumnValues::Float64(v) => (2, spec_xor_encode(v)),
        ColumnValues::Utf8(v) => (3, spec_utf8_encode(v)),
        ColumnValues::Timestamp(v) => (4, spec_delta_encode(v)),
    }
}

/// The values that `bytes`, written with encoding `id`, hold for `count`
/// values. `None` for an unknown encoding or bytes that cannot be read.
pub open spec fn spec_decode_column(id: u16, bytes: Seq<u8>, count: nat) -> Option<ColumnValues> {
    if id == 1 {
        match spec_delta_decode(bytes, count) { Some(v) => Some(ColumnValues::Int64(v)), None => None }
    } else if id == 2 {
        match spec_xor_decode(bytes, count) { Some(v) => Some(ColumnValues::Float64(v)), None => None }
    } else if id == 3 {
        match spec_utf8_decode(bytes, count) { Some(v) => Some(ColumnValues::Utf8(v)), None => None }
    } else if id == 4 {
        match spec_delta_decode(bytes, count) { Some(v) => Some(ColumnValues::Timestamp(v)), None => None }
    } else if id == 5 {
        match spec_rle_decode(bytes, count) { Some(v) => Some(ColumnValues::Int64(v)), None => None }
    } else if id == 6 {
        match spec_bitmap_decode(bytes, count) { Some(v) => Some(ColumnValues::Int64(v)), None => None }
    } else {
        None
    }
}

/// The number of values in a column.
pub open spec fn spec_values_len(data: ColumnValues) -> nat {
    match data {
        ColumnValues::Int64(v) => v.len(),
        ColumnValues::Float64(v) => v.len(),
        ColumnValues::Utf8(v) => v.len(),
        ColumnValues::Timestamp(v) => v.len(),
    }
}

/// Whether the encoding of a column decodes to the column.
pub open spec fn spec_decodes_back(v: ColumnValues) -> bool {
    spec_decode_column(spec_encode_column(v).0, spec_encode_column(v).1, spec_values_len(v)) == Some(v)
}

/// The encoding id and bytes of a column. They decode to the column.
pub fn encode_column(data: &ColumnData) -> (r: (u16, Vec<u8>))
    ensures
        (r.0, r.1@) == spec_encode_column(data@),
        spec_decode_column(r.0, r.1@, data.spec_len()) == Some(data@),
        spec_decodes_back(data@),
{
    match data {
        ColumnData::Int64(v) => {
            let mut all_bits = true;
            let mut i: usize = 0;
            while i < v.len()
                invariant
                    i <= v.len(),
                    all_bits == forall|j: int| 0 <= j < i ==> v@[j] == 0 || v@[j] == 1,
                decreases v.len() - i,
            {
                if !(v[i] == 0 || v[i] == 1) {
                    all_bits = false;
                }
                i = i + 1;
            }
            if all_bits {
                let enc = BitmapEncoder;
                let b = enc.encode(data);
                proof {
                    lemma_bitmap_roundtrip(v@, Seq::empty());
                    assert(b@ + Seq::<u8>::empty() =~= b@);
                    assert(v@.map_values(|x: i64| if x != 0 { 1i64 } else { 0i64 }) =~= v@);
                }
                (enc.encoding_id(), b)
            } else {
                let enc = DeltaBitpackEncoder;
                let b = enc.encode(data);
                proof {
                    lemma_delta_roundtrip(v@, Seq::empty());
                    assert(b@ + Seq::<u8>::empty() =~= b@);
                }
                (enc.encoding_id(), b)
            }
        },
        ColumnData::Float64(v) => {
            let enc = XorEncoder;
            let b = enc.encode(data);
            proof {
                lemma_xor_roundtrip(v@, Seq::empty());
                assert(b@ + Seq::<u8>::empty() =~= b@);
            }
            (enc.encoding_id(), b)
        },
        ColumnData::Utf8(v) => {
            let enc = DictZstdEncoder;
            let b = enc.encode(data);
            (enc.encoding_id(), b)
        },
        ColumnData::Timestamp(v) => {
            let enc = TimestampEncoder;
            let b = enc.encode(data);
            proof {
                lemma_delta_roundtrip(v@, Seq::empty());
                assert(b@ + Seq::<u8>::empty() =~= b@);
            }
            (enc.encoding_id(), b)
        },
    }
}

/// The column that `bytes`, written with the known encoding `encoding_id`,
/// holds for `count` values; `None` for bytes that cannot be read.
pub fn decode_column(encoding_id: u16, bytes: &[u8], count: usize) -> (r: Option<ColumnData>)
    requires
        1 <= encoding_id <= 6,
    ensures
        match r {
            Some(c) => spec_decode_column(encoding_id, bytes@, count as nat) == Some(c@),
            None => spec_decode_column(encoding_id, bytes@, count as nat) is None,
        },
{
    if encoding_id == 1 {
        DeltaBitpackDecoder.try_decode(bytes, count)
    } else if encoding_id == 2 {
        XorDecoder.try_decode(bytes, count)
    } else if encoding_id == 3 {
        DictZstdDecoder.decode(bytes, count)
    } else if encoding_id == 4 {
        TimestampDecoder.try_decode(bytes, count)
    } else if encoding_id == 5 {
        RleDecoder.try_decode(bytes, count)
    } else {
        BitmapDecoder.try_decode(bytes, count)
    }
}

/// Whether the encoding of a column can be read back: always, but for a
/// string column, whose strings must each fit a length field and whose
/// dictionary must come back from the compressor.
pub open spec fn spec_restorable(v: ColumnValues) -> bool {
    match v {
        ColumnValues::Utf8(s) => {
            &&& forall|j: int| 0 <= j < s.len() ==> spec_utf8(#[trigger] s[j]).len() <= u64::MAX
            &&& s.len() > 0 ==> zstd_decode_all(zstd_encode_all(spec_dict_payload(s), 3)) == Some(spec_dict_payload(s))
        },
        _ => true,
    }
}

/// The encoding of a column decodes to the column.
pub proof fn lemma_column_roundtrip(v: ColumnValues)
    requires
        spec_values_len(v) <= u64::MAX,
        spec_restorable(v),
    ensures
        spec_decodes_back(v),
{
    match v {
        ColumnValues::Int64(x) => {
            if spec_all_bits(x) {
                lemma_bitmap_roundtrip(x, Seq::empty());
                assert(spec_bitmap_encode(x) + Seq::<u8>::empty() =~= spec_bitmap_encode(x));
                assert(x.map_values(|y: i64| if y != 0 { 1i64 } else { 0i64 }) =~= x);
            } else {
                lemma_delta_roundtrip(x, Seq::empty());
                assert(spec_delta_encode(x) + Seq::<u8>::empty() =~= spec_delta_encode(x));
            }
        },
        ColumnValues::Float64(x) => {
            lemma_xor_roundtrip(x, Seq::empty());
            assert(spec_xor_encode(x) + Seq::<u8>::empty() =~= spec_xor_encode(x));
        },
        ColumnValues::Utf8(x) => {
            lemma_utf8_roundtrip(x);
        },
        ColumnValues::Timestamp(x) => {
            lemma_delta_roundtrip(x, Seq::empty());
            assert(spec_delta_encode(x) + Seq::<u8>::empty() =~= spec_delta_encode(x));
        },
    }
}

} // verus!
