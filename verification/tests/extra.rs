use tuckdb::api::query::Query;
use tuckdb::cache::result_cache::QueryKey;
use tuckdb::embedding::provider::{default_embedding_provider, MockEmbeddingProvider, DEFAULT_EMBEDDING_DIM};
use tuckdb::exec::batch::{Column, ColumnData, RecordBatch};
use tuckdb::exec::expr::{col, lit_int, lit_str, referenced_columns, Expr};
use tuckdb::exec::logical_plan::{AggOp, LogicalPlan};
use tuckdb::exec::optimizer::Optimizer;
use tuckdb::exec::physical::{chunk_columns, filter_batch, project_batch};
use tuckdb::lifecycle::chunk::{chunk_text, ChunkTracker};
use tuckdb::lifecycle::split::split_paragraphs;
use tuckdb::lifecycle::state::{fnv1a, LifecycleManager};
use tuckdb::schema::{DataType, Field, Schema};
use tuckdb::storage::chunk::{ChunkMeta, ColumnStats};
use tuckdb::storage::encoding::{decode_column, encode_column};
use tuckdb::storage::format::{deserialize_schema, serialize_schema, BlobReader, BlobWriter};
use tuckdb::varint::{decode_varint, decode_varint_signed, encode_varint, encode_varint_signed, unzigzag, zigzag};

fn schema3() -> Schema {
    Schema::new(vec![
        Field::new("id", DataType::Int64, false),
        Field::new("name", DataType::Utf8, false),
        Field::new("ts", DataType::Timestamp, true),
    ])
}

fn batch3(ids: Vec<i64>, names: Vec<&str>, ts: Vec<i64>) -> RecordBatch {
    let s = schema3();
    RecordBatch::new(
        s.clone(),
        vec![
            Column::new(s.fields[0].clone(), ColumnData::Int64(ids)),
            Column::new(s.fields[1].clone(), ColumnData::Utf8(names.into_iter().map(|n| n.to_string()).collect())),
            Column::new(s.fields[2].clone(), ColumnData::Timestamp(ts)),
        ],
    )
}

#[test]
fn varint_roundtrip_values() {
    for v in [0u64, 1, 127, 128, 300, 16384, u64::MAX] {
        let mut buf = Vec::new();
        encode_varint(v, &mut buf);
        assert_eq!(decode_varint(&buf, 0), Some((v, buf.len())));
    }
    let mut buf = Vec::new();
    encode_varint(300, &mut buf);
    assert_eq!(buf, vec![0xac, 0x02]);
}

#[test]
fn varint_truncated_is_none() {
    assert_eq!(decode_varint(&[0x80, 0x80], 0), None);
    assert_eq!(decode_varint(&[], 0), None);
}

#[test]
fn zigzag_roundtrip_values() {
    assert_eq!(zigzag(0), 0);
    assert_eq!(zigzag(-1), 1);
    assert_eq!(zigzag(1), 2);
    assert_eq!(zigzag(-2), 3);
    for v in [0i64, -1, 1, i64::MIN, i64::MAX, -123456789] {
        assert_eq!(unzigzag(zigzag(v)), v);
        let mut buf = Vec::new();
        encode_varint_signed(v, &mut buf);
        assert_eq!(decode_varint_signed(&buf, 0), Some((v, buf.len())));
    }
}

#[test]
fn fnv1a_known_values() {
    assert_eq!(fnv1a(b""), 0xcbf2_9ce4_8422_2325);
    assert_eq!(fnv1a(b"a"), 0xaf63_dc4c_8601_ec8c);
}

#[test]
fn encode_column_roundtrips_each_type() {
    let cols = vec![
        ColumnData::Int64(vec![5, -3, 1 << 40]),
        ColumnData::Int64(vec![1, 0, 1]),
        ColumnData::Float64(vec![1.5f64.to_bits(), (-2.25f64).to_bits()]),
        ColumnData::Utf8(vec!["x".into(), "y".into(), "x".into()]),
        ColumnData::Timestamp(vec![10, 20, 15]),
    ];
    let expected_ids = [1u16, 6, 2, 3, 4];
    for (c, id) in cols.iter().zip(expected_ids.iter()) {
        let (enc, bytes) = encode_column(c);
        assert_eq!(enc, *id);
        let back = decode_column(enc, &bytes, c.len()).unwrap();
        assert_eq!(format!("{:?}", back), format!("{:?}", c));
    }
}

#[test]
fn stats_and_meta_roundtrip() {
    let s = ColumnStats::new(Some(7), None, 42);
    let b = s.to_bytes();
    assert_eq!(b.len(), 1 + 8 + 1 + 8);
    assert_eq!(ColumnStats::from_bytes(&b), Some((s, b.len())));
    let m = ChunkMeta {
        col_idx: 2,
        chunk_idx: 5,
        encoding: 3,
        offset: 1000,
        compressed_size: 77,
        uncompressed_size: 9,
        stats: s,
    };
    let mut mb = m.to_bytes();
    let n = mb.len();
    mb.extend_from_slice(&[9, 9, 9]);
    assert_eq!(ChunkMeta::from_bytes(&mb), Some((m, n)));
    assert_eq!(ChunkMeta::from_bytes(&mb[..10]), None);
}

#[test]
fn schema_bytes_roundtrip_and_errors() {
    let s = schema3();
    let b = serialize_schema(&s);
    let back = deserialize_schema(&b).unwrap();
    assert_eq!(back.fields.len(), 3);
    assert_eq!(back.fields[1].name, "name");
    assert_eq!(back.fields[2].data_type, DataType::Timestamp);
    assert!(back.fields[2].nullable);
    let mut bad = b.clone();
    let type_pos = 4 + 4 + 2;
    bad[type_pos] = 9;
    assert!(deserialize_schema(&bad).is_none());
    let mut not_utf8 = b.clone();
    not_utf8[8] = 0xff;
    assert!(deserialize_schema(&not_utf8).is_none());
    assert!(deserialize_schema(&b[..b.len() - 1]).is_none());
}

#[test]
fn blob_header_lists_every_chunk() {
    let b1 = batch3(vec![1, 2], vec!["a", "b"], vec![100, 200]);
    let b2 = batch3(vec![3], vec!["c"], vec![300]);
    let stats = vec![ColumnStats::new(None, None, 0); 6];
    let blob = BlobWriter::write(&[b1, b2], &stats);
    let (schema, metas) = BlobReader::read_header(&blob).unwrap();
    assert_eq!(schema.fields.len(), 3);
    assert_eq!(metas.len(), 6);
    let ids: Vec<(u32, u32)> = metas.iter().map(|m| (m.col_idx, m.chunk_idx)).collect();
    assert_eq!(ids, vec![(0, 0), (1, 0), (2, 0), (0, 1), (1, 1), (2, 1)]);
    for w in metas.windows(2) {
        assert_eq!(w[0].offset + w[0].compressed_size, w[1].offset);
    }
    let last = metas.last().unwrap();
    assert_eq!((last.offset + last.compressed_size) as usize, blob.len());
    let batches = BlobReader::read_all(&blob).unwrap();
    assert_eq!(batches.len(), 2);
    assert_eq!(batches[0].num_rows, 2);
    assert_eq!(batches[1].num_rows, 1);
    match &batches[1].columns[1].data {
        ColumnData::Utf8(v) => assert_eq!(v, &vec!["c".to_string()]),
        _ => panic!("wrong type"),
    }
    let cols = chunk_columns(&blob, &schema.fields, &metas, 1).unwrap();
    assert_eq!(cols.len(), 3);
    assert!(chunk_columns(&blob[..blob.len() - 1], &schema.fields, &metas, 1).is_none());
}

#[test]
fn blob_of_no_batches_is_empty() {
    assert!(BlobWriter::write(&[], &[]).is_empty());
    let (schema, metas) = BlobReader::read_header(&[1, 2, 3]).unwrap();
    assert!(schema.fields.is_empty() && metas.is_empty());
    assert!(BlobReader::read_all(&[1, 2, 3]).unwrap().is_empty());
    assert!(BlobReader::read_header(&[0u8; 10]).is_none());
}

#[test]
fn chunks_respect_the_byte_limit() {
    let text = "alpha beta gamma delta epsilon zeta eta theta iota kappa lambda mu";
    let chunks = chunk_text(text, 16);
    assert!(chunks.len() > 1);
    for c in &chunks {
        assert!(!c.is_empty() && c.len() <= 16, "{:?}", c);
    }
    assert_eq!(chunks.join(" "), text);
    let wide = "ééééééééééé";
    let pieces = chunk_text(wide, 4);
    for p in &pieces {
        assert!(p.len() <= 4 && !p.is_empty());
    }
    assert_eq!(pieces.concat(), wide);
}

#[test]
fn paragraphs_are_trimmed_and_blank_ones_dropped() {
    let parts = split_paragraphs("  one \n two\n\n\n\n   \n\nthree  \n\n");
    assert_eq!(parts, vec!["one \n two", "three"]);
    assert!(split_paragraphs("").is_empty());
    assert_eq!(split_paragraphs("\u{3000} x \t"), vec!["x"]);
}

#[test]
fn tracker_holds_what_was_registered() {
    let mut t = ChunkTracker::new();
    let chunks = t.register(7, 3, "a\n\nb");
    assert_eq!(chunks.len(), 2);
    assert_eq!(t.get(7).unwrap(), &chunks[..]);
    assert_eq!(t.len(), 1);
    assert_eq!(t.iter().len(), 1);
    let removed = t.remove(7).unwrap();
    assert_eq!(removed, chunks);
    assert!(t.is_empty());
    let back = ChunkTracker::from_entries(vec![(1, 1, chunks.clone()), (1, 2, Vec::new())]);
    assert_eq!(back.get(1).unwrap().len(), 0);
}

#[test]
fn lifecycle_entries_and_removal() {
    let mut lm = LifecycleManager::new();
    lm.register(1, &["x"]);
    lm.register(2, &["y"]);
    assert_eq!(lm.iter().len(), 2);
    let again = LifecycleManager::from_entries(lm.iter());
    assert_eq!(again.len(), 2);
    assert!(lm.remove(1).is_some());
    assert!(lm.remove(1).is_none());
    assert_eq!(lm.len(), 1);
}

#[test]
fn referenced_columns_in_first_order_without_repeats() {
    let e = col("b").gt(lit_int(1)).and(col("a").eq(col("b"))).or(col("c").lte(lit_str("z")));
    assert_eq!(referenced_columns(&e), vec!["b".to_string(), "a".to_string(), "c".to_string()]);
    assert!(referenced_columns(&lit_int(3)).is_empty());
}

#[test]
fn optimizer_pushes_projection_and_filter_into_scan() {
    let plan = LogicalPlan::scan("t").filter(col("id").gt(lit_int(1))).project(&["id", "missing"]);
    let optimized = Optimizer::optimize(plan, &schema3());
    match optimized {
        LogicalPlan::Project { input, columns } => {
            assert_eq!(columns, vec!["id".to_string(), "missing".to_string()]);
            match *input {
                LogicalPlan::Scan { table, projection, filter } => {
                    // The filter sits between the projection and the scan when
                    // projections are pushed, so the scan keeps reading every column.
                    assert_eq!(table, "t");
                    assert!(projection.is_empty());
                    assert!(matches!(filter, Some(Expr::Gt(_, _))));
                }
                other => panic!("unexpected {:?}", other),
            }
        }
        other => panic!("unexpected {:?}", other),
    }
    let projected = Optimizer::optimize(LogicalPlan::scan("t").project(&["id", "missing"]), &schema3());
    match projected {
        LogicalPlan::Project { input, .. } => match *input {
            LogicalPlan::Scan { projection, filter, .. } => {
                assert_eq!(projection, vec!["id".to_string()]);
                assert!(filter.is_none());
            }
            other => panic!("unexpected {:?}", other),
        },
        other => panic!("unexpected {:?}", other),
    }
    let agg = LogicalPlan::scan("t").aggregate(vec![(AggOp::Sum, "id", "total")], vec!["name".to_string()]);
    assert!(matches!(Optimizer::optimize(agg, &schema3()), LogicalPlan::Aggregate { .. }));
}

#[test]
fn filter_and_project_batches() {
    let b = batch3(vec![1, 2, 3], vec!["a", "b", "c"], vec![10, 20, 30]);
    let f = filter_batch(&b, &[true, false, true]);
    assert_eq!(f.num_rows, 2);
    match &f.columns[1].data {
        ColumnData::Utf8(v) => assert_eq!(v, &vec!["a".to_string(), "c".to_string()]),
        _ => panic!("wrong type"),
    }
    let p = project_batch(&b, &vec!["ts".to_string(), "nope".to_string(), "id".to_string()]);
    assert_eq!(p.schema.fields.len(), 2);
    assert_eq!(p.schema.fields[0].name, "ts");
    assert_eq!(p.columns[1].field.name, "id");
    assert_eq!(p.num_rows, 3);
}

#[test]
fn query_builder_and_keys() {
    let _q = Query::scan("events").project(&["a", "b"]).filter("a > 1");
    let k1 = QueryKey { query_hash: 1, data_version: 2 };
    let k2 = k1;
    assert_eq!(k1, k2);
    let p = default_embedding_provider();
    assert_eq!(p.model_id(), "model-v1");
    assert_eq!(p.dimension(), DEFAULT_EMBEDDING_DIM);
    let m = MockEmbeddingProvider::new("m", 4);
    assert_eq!((m.model_id(), m.dimension()), ("m", 4));
}

#[test]
fn dimension_and_model_id() {
    let provider = MockEmbeddingProvider::new("model-x", 64);
    assert_eq!(provider.model_id(), "model-x");
    assert_eq!(provider.dimension(), 64);
}
