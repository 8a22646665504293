use tuckdb::exec::batch::{Column, ColumnData, RecordBatch};
use tuckdb::schema::{DataType, Field, Schema};
use tuckdb::storage::chunk::ColumnStats;
use tuckdb::storage::format::{BlobReader, BlobWriter};

#[test]
fn roundtrip_blob() {
    let schema = Schema::new(vec![
        Field::new("id", DataType::Int64, false),
        Field::new("name", DataType::Utf8, false),
        Field::new("score", DataType::Float64, true),
    ]);

    let batch = RecordBatch::new(
        schema.clone(),
        vec![
            Column::new(schema.fields[0].clone(), ColumnData::Int64(vec![1, 2, 3])),
            Column::new(
                schema.fields[1].clone(),
                ColumnData::Utf8(vec!["a".into(), "b".into(), "c".into()]),
            ),
            Column::new(
                schema.fields[2].clone(),
                ColumnData::Float64(vec![1.0f64.to_bits(), 2.0f64.to_bits(), 3.0f64.to_bits()]),
            ),
        ],
    );
    let stats = vec![
        ColumnStats::new(Some(1.0f64.to_bits()), Some(3.0f64.to_bits()), 0),
        ColumnStats::new(None, None, 0),
        ColumnStats::new(Some(1.0f64.to_bits()), Some(3.0f64.to_bits()), 0),
    ];

    let blob = BlobWriter::write(&[batch], &stats);
    assert!(!blob.is_empty());
    let batches = BlobReader::read_all(&blob).unwrap();
    assert_eq!(batches.len(), 1);
    assert_eq!(batches[0].num_rows, 3);

    let (schema_read, _) = BlobReader::read_header(&blob).unwrap();
    assert_eq!(schema_read.fields.len(), 3);
}
