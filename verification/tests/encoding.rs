use tuckdb::exec::batch::ColumnData;
use tuckdb::storage::encoding::bitmap::{BitmapDecoder, BitmapEncoder};
use tuckdb::storage::encoding::float64::{XorDecoder, XorEncoder};
use tuckdb::storage::encoding::int64::{DeltaBitpackDecoder, DeltaBitpackEncoder};
use tuckdb::storage::encoding::rle::{RleDecoder, RleEncoder};
use tuckdb::storage::encoding::timestamp::{TimestampDecoder, TimestampEncoder};
use tuckdb::storage::encoding::utf8::{DictZstdDecoder, DictZstdEncoder};

#[test]
fn roundtrip_bitmap() {
    let data = ColumnData::Int64(vec![1, 0, 1, 1, 0, 0, 1, 0]);
    let bytes = BitmapEncoder.encode(&data);
    match BitmapDecoder.decode(&bytes, 8) {
        ColumnData::Int64(v) => assert_eq!(v, vec![1, 0, 1, 1, 0, 0, 1, 0]),
        _ => panic!("wrong type"),
    }
}

#[test]
fn all_zeros() {
    let data = ColumnData::Int64(vec![0, 0, 0]);
    let bytes = BitmapEncoder.encode(&data);
    match BitmapDecoder.decode(&bytes, 3) {
        ColumnData::Int64(v) => assert_eq!(v, vec![0, 0, 0]),
        _ => panic!("wrong type"),
    }
}

#[test]
fn all_ones() {
    let data = ColumnData::Int64(vec![1; 100]);
    let bytes = BitmapEncoder.encode(&data);
    match BitmapDecoder.decode(&bytes, 100) {
        ColumnData::Int64(v) => assert_eq!(v, vec![1; 100]),
        _ => panic!("wrong type"),
    }
}

#[test]
fn empty_bitmap() {
    let data = ColumnData::Int64(vec![]);
    let bytes = BitmapEncoder.encode(&data);
    match BitmapDecoder.decode(&bytes, 0) {
        ColumnData::Int64(v) => assert!(v.is_empty()),
        _ => panic!("wrong type"),
    }
}

#[test]
fn roundtrip_float64() {
    let values = vec![1.0f64, 2.5, 3.14, 0.0, -1.0, 1e10, 1.0, 1.0];
    let data = ColumnData::Float64(values.iter().map(|f| f.to_bits()).collect());
    let bytes = XorEncoder.encode(&data);
    match XorDecoder.decode(&bytes, 8) {
        ColumnData::Float64(v) => {
            assert_eq!(v.len(), 8);
            for (a, b) in v.iter().zip(values.iter()) {
                assert!((f64::from_bits(*a) - b).abs() < 1e-10);
            }
        }
        _ => panic!("wrong type"),
    }
}

#[test]
fn roundtrip_int64() {
    let data = ColumnData::Int64(vec![100, 105, 110, 200, -5, 0, i64::MAX]);
    let bytes = DeltaBitpackEncoder.encode(&data);
    match DeltaBitpackDecoder.decode(&bytes, 7) {
        ColumnData::Int64(v) => assert_eq!(v, vec![100, 105, 110, 200, -5, 0, i64::MAX]),
        _ => panic!("wrong type"),
    }
}

#[test]
fn empty_int64() {
    let data = ColumnData::Int64(vec![]);
    let bytes = DeltaBitpackEncoder.encode(&data);
    match DeltaBitpackDecoder.decode(&bytes, 0) {
        ColumnData::Int64(v) => assert!(v.is_empty()),
        _ => panic!("wrong type"),
    }
}

#[test]
fn roundtrip_rle() {
    let data = ColumnData::Int64(vec![5, 5, 5, 3, 3, 7]);
    let bytes = RleEncoder.encode(&data);
    match RleDecoder.decode(&bytes, 6) {
        ColumnData::Int64(v) => assert_eq!(v, vec![5, 5, 5, 3, 3, 7]),
        _ => panic!("wrong type"),
    }
}

#[test]
fn no_runs() {
    let data = ColumnData::Int64(vec![1, 2, 3, 4]);
    let bytes = RleEncoder.encode(&data);
    match RleDecoder.decode(&bytes, 4) {
        ColumnData::Int64(v) => assert_eq!(v, vec![1, 2, 3, 4]),
        _ => panic!("wrong type"),
    }
}

#[test]
fn empty_rle() {
    let data = ColumnData::Int64(vec![]);
    let bytes = RleEncoder.encode(&data);
    match RleDecoder.decode(&bytes, 0) {
        ColumnData::Int64(v) => assert!(v.is_empty()),
        _ => panic!("wrong type"),
    }
}

#[test]
fn roundtrip_timestamp() {
    let data = ColumnData::Timestamp(vec![1700000000, 1700003600, 1700007200]);
    let bytes = TimestampEncoder.encode(&data);
    match TimestampDecoder.decode(&bytes, 3) {
        ColumnData::Timestamp(v) => assert_eq!(v, vec![1700000000, 1700003600, 1700007200]),
        _ => panic!("wrong type"),
    }
}

#[test]
fn roundtrip_utf8() {
    let data = ColumnData::Utf8(vec![
        "hello".to_string(),
        "world".to_string(),
        "hello".to_string(),
        "rust".to_string(),
        "world".to_string(),
        "tuckdb".to_string(),
    ]);
    let bytes = DictZstdEncoder.encode(&data);
    match DictZstdDecoder.decode(&bytes, 6) {
        Some(ColumnData::Utf8(v)) => {
            assert_eq!(v, vec!["hello", "world", "hello", "rust", "world", "tuckdb"]);
        }
        _ => panic!("wrong type"),
    }
}
