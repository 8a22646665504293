use tuckdb::exec::batch::ColumnData;
use tuckdb::storage::encoding::bitmap::{BitmapDecoder, BitmapEncoder};
use tuckdb::storage::encoding::float64::{XorDecoder, XorEncoder};
use tuckdb::storage::encoding::int64::{DeltaBitpackDecoder, DeltaBitpackEncoder};
use tuckdb::storage::encoding::rle::{RleDecoder, RleEncoder};
use tuckdb::storage::encoding::timestamp::{TimestampDecoder, TimestampEncoder};
use tuckdb::storage::encoding::utf8::{DictZstdDecoder, DictZstdEncoder};
use tuckdb::storage::encoding::{Decoder, Encoder};

fn through_traits<E: Encoder, D: Decoder>(e: &E, d: &D, data: &ColumnData) -> ColumnData {
    assert_eq!(Encoder::encoding_id(e), Decoder::decoding_id(d));
    let bytes = Encoder::encode(e, data);
    Decoder::decode(d, &bytes, data.len()).unwrap()
}

fn same(a: &ColumnData, b: &ColumnData) -> bool {
    format!("{:?}", a) == format!("{:?}", b)
}

#[test]
fn encoder_and_decoder_traits_roundtrip() {
    let ints = ColumnData::Int64(vec![5, 5, -3, 7, 7, 7]);
    let bits = ColumnData::Int64(vec![1, 0, 0, 1]);
    let floats = ColumnData::Float64(vec![1.5f64.to_bits(), (-0.25f64).to_bits()]);
    let times = ColumnData::Timestamp(vec![100, 90, 250]);
    let texts = ColumnData::Utf8(vec!["a".into(), "b".into(), "a".into()]);
    assert!(same(&through_traits(&DeltaBitpackEncoder, &DeltaBitpackDecoder, &ints), &ints));
    assert!(same(&through_traits(&RleEncoder, &RleDecoder, &ints), &ints));
    assert!(same(&through_traits(&BitmapEncoder, &BitmapDecoder, &bits), &bits));
    assert!(same(&through_traits(&XorEncoder, &XorDecoder, &floats), &floats));
    assert!(same(&through_traits(&TimestampEncoder, &TimestampDecoder, &times), &times));
    assert!(same(&through_traits(&DictZstdEncoder, &DictZstdDecoder, &texts), &texts));
    assert!(Decoder::decode(&RleDecoder, &[0xff], 3).is_none());
}
