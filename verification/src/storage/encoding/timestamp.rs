//! Timestamps are stored with the delta encoding of 64-bit integers.
use vstd::prelude::*;
use crate::exec::batch::ColumnData;
use crate::storage::encoding::int64::{spec_delta_encode, spec_delta_decode, encode_i64_values, decode_i64_values};

verus! {

/// Encoder for `Timestamp` columns.
pub struct TimestampEncoder;

impl TimestampEncoder {
    /// The delta encoding of the timestamps.
    pub fn encode(&self, data: &ColumnData) -> (r: Vec<u8>)
        requires
            data is Timestamp,
        ensures
            r@ == spec_delta_encode(data->Timestamp_0@),
    {
        match data {
            ColumnData::Timestamp(values) => encode_i64_values(values),
            _ => Vec::new(),
        }
    }

    pub fn encoding_id(&self) -> (id: u16)
        ensures
            id == 4,
    {
        4
    }
}

/// Decoder for `Timestamp` columns.
pub struct TimestampDecoder;

impl TimestampDecoder {
    /// The `count` timestamps that `bytes` holds.
    pub fn decode(&self, bytes: &[u8], count: usize) -> (r: ColumnData)
        requires
            spec_delta_decode(bytes@, count as nat) is Some,
        ensures
            r matches ColumnData::Timestamp(v) && v@ == spec_delta_decode(bytes@, count as nat).unwrap(),
    {
        match self.try_decode(bytes, count) {
            Some(r) => r,
            None => ColumnData::Timestamp(Vec::new()),
        }
    }

    /// The `count` timestamps that `bytes` holds, or `None` where the bytes
    /// run out first.
    pub fn try_decode(&self, bytes: &[u8], count: usize) -> (r: Option<ColumnData>)
        ensures
            match r {
                Some(c) => (c matches ColumnData::Timestamp(v) && spec_delta_decode(bytes@, count as nat) == Some(v@)),
                None => spec_delta_decode(bytes@, count as nat) is None,
            },
    {
        match decode_i64_values(bytes, count) {
            Some(v) => Some(ColumnData::Timestamp(v)),
            None => None,
        }
    }

    pub fn decoding_id(&self) -> (id: u16)
        ensures
            id == 4,
    {
        4
    }
}

} // verus!
