use tuckdb::api::input::{data_type_named, parse_csv_names, parse_field_object, parse_schema_json};
use tuckdb::api::parse::{sql_float_literals, sql_to_logical_plan};
use tuckdb::api::result::ResultSet;
use tuckdb::api::rows::{build_row_batch, concat_columns, RowError};
use tuckdb::api::sql::{
    int_literal, sql_to_tk_expr, statements_to_plan, SqlBinaryOp, SqlExpr, SqlSelect, SqlSelectItem, SqlStatement,
    SqlTable,
};
use tuckdb::api::table::Table;
use tuckdb::backend::memory::InMemoryBackend;
use tuckdb::backend::BlobBackend;
use tuckdb::cache::data_cache::{DataCache, EvictionPolicy};
use tuckdb::cache::result_cache::{QueryKey, ResultCache};
use tuckdb::embedding::features::{char_ngrams, related_terms, stem};
use tuckdb::exec::batch::{Column, ColumnData, RecordBatch};
use tuckdb::exec::expr::{Expr, Value};
use tuckdb::exec::logical_plan::LogicalPlan;
use tuckdb::schema::{DataType, Field, Schema};
use tuckdb::storage::chunk::{ChunkMeta, ColumnStats, EncodedChunk};
use tuckdb::storage::format::BlobReader;
use tuckdb::storage::manager::TableManager;
use tuckdb::text::{split_char, str_lt, str_starts_with};

fn ints(name: &str, v: Vec<i64>) -> RecordBatch {
    let f = Field::new(name, DataType::Int64, false);
    RecordBatch::new(Schema::new(vec![f.clone()]), vec![Column::new(f, ColumnData::Int64(v))])
}

fn stats0() -> ColumnStats {
    ColumnStats::new(None, None, 0)
}

fn chunk(size: u64) -> EncodedChunk {
    let meta = ChunkMeta {
        col_idx: 0,
        chunk_idx: 0,
        encoding: 0,
        offset: 0,
        compressed_size: size,
        uncompressed_size: size,
        stats: stats0(),
    };
    EncodedChunk::new(meta, vec![7u8; size as usize])
}

#[test]
fn result_set_hands_out_batches_in_order() {
    let mut rs = ResultSet::new(vec![ints("a", vec![1]), ints("a", vec![2, 3])]);
    assert_eq!(rs.next_batch().unwrap().num_rows, 1);
    assert_eq!(rs.next_batch().unwrap().num_rows, 2);
    assert!(rs.next_batch().is_none());
    assert_eq!(rs.collect().len(), 2);
}

#[test]
fn result_cache_evicts_oldest_when_full() {
    let key = |h| QueryKey { query_hash: h, data_version: 1 };
    let mut c = ResultCache::new(2);
    c.insert(key(1), vec![ints("a", vec![1])]);
    c.insert(key(2), vec![]);
    c.insert(key(1), vec![ints("a", vec![1]), ints("a", vec![2])]);
    assert_eq!(c.len(), 2);
    assert_eq!(c.get(&key(1)).unwrap().len(), 2);
    c.insert(key(3), vec![]);
    assert_eq!(c.len(), 2);
    assert!(c.get(&key(1)).is_none());
    assert!(c.get(&key(2)).is_some());
    c.invalidate();
    assert_eq!(c.len(), 0);
}

#[test]
fn data_cache_lru_evicts_least_recently_used() {
    let mut c = DataCache::new(100, EvictionPolicy::LRU);
    c.insert("b", 0, 0, chunk(40));
    c.insert("b", 0, 1, chunk(40));
    assert!(c.get("b", 0, 0).is_some());
    c.insert("b", 0, 2, chunk(40));
    assert_eq!(c.len(), 2);
    assert!(c.get("b", 0, 1).is_none());
    assert_eq!(c.get("b", 0, 0).unwrap().data, vec![7u8; 40]);
    c.clear();
    assert!(c.is_empty());
}

#[test]
fn data_cache_lfu_evicts_least_used() {
    let mut c = DataCache::new(100, EvictionPolicy::LFU);
    c.insert("b", 0, 0, chunk(40));
    c.insert("b", 0, 1, chunk(40));
    c.get("b", 0, 1);
    c.get("b", 0, 1);
    c.get("b", 0, 0);
    c.insert("b", 0, 2, chunk(40));
    assert!(c.get("b", 0, 0).is_none());
    assert!(c.get("b", 0, 1).is_some());
    assert!(c.get("b", 0, 2).is_some());
}

#[test]
fn data_cache_keeps_an_oversized_chunk_alone() {
    let mut c = DataCache::new(10, EvictionPolicy::LRU);
    c.insert("b", 0, 0, chunk(5));
    c.insert("b", 1, 0, chunk(50));
    assert_eq!(c.len(), 1);
    assert!(c.get("b", 1, 0).is_some());
}

#[test]
fn memory_backend_reads_writes_and_lists() {
    let mut b = InMemoryBackend::new();
    assert!(b.write("t/b.tuck", &[1, 2, 3, 4]).is_ok());
    assert!(b.write("t/a.tuck", &[9]).is_ok());
    assert!(b.write("u/c.tuck", &[]).is_ok());
    assert_eq!(b.read("t/b.tuck", 1, 2).unwrap(), vec![2, 3]);
    assert!(b.read("t/b.tuck", 3, 2).unwrap_err().starts_with("read out of bounds"));
    assert_eq!(b.read("nope", 0, 0).unwrap_err(), "not found: nope");
    assert!(b.blob_exists("t/a.tuck"));
    assert!(!b.blob_exists("t/z.tuck"));
    assert_eq!(b.list("t/").unwrap(), vec!["t/a.tuck".to_string(), "t/b.tuck".to_string()]);
    assert_eq!(b.list("").unwrap().len(), 3);
    assert!(b.write("t/a.tuck", &[5, 6]).is_ok());
    assert_eq!(b.read("t/a.tuck", 0, 2).unwrap(), vec![5, 6]);
}

#[test]
fn string_order_and_prefix() {
    assert!(str_lt("a", "b"));
    assert!(str_lt("ab", "abc"));
    assert!(!str_lt("abc", "ab"));
    assert!(!str_lt("x", "x"));
    assert!(str_starts_with("table.tuck", "table"));
    assert!(!str_starts_with("tab", "table"));
    assert_eq!(split_char("a,,b,", ','), vec!["a", "", "b", ""]);
}

#[test]
fn table_manager_paths_schemas_and_versions() {
    let mut m = TableManager::new("data");
    assert_eq!(m.blob_path("t"), "data/t.tuck");
    assert_eq!(TableManager::new("data/").blob_path("t"), "data/t.tuck");
    assert_eq!(TableManager::new("").blob_path("t"), "t.tuck");
    assert_eq!(m.blob_path("/abs/t"), "/abs/t.tuck");
    assert_eq!(m.data_version("t"), 0);
    assert!(m.get_schema("t").is_none());
    let batch = ints("v", vec![1, 2, 3]);
    let (path, bytes) = m.write_table("t", &[batch], &[stats0()]);
    assert_eq!(path, "data/t.tuck");
    assert_eq!(BlobReader::read_all(&bytes).unwrap()[0].num_rows, 3);
    assert_eq!(m.data_version("t"), 1);
    assert_eq!(m.get_schema("t").unwrap().fields[0].name, "v");
    let (_, empty) = m.write_table("t", &[], &[]);
    assert!(empty.is_empty());
    assert_eq!(m.data_version("t"), 2);
}

#[test]
fn table_inserts_flushes_and_reopens() {
    let schema = Schema::new(vec![Field::new("v", DataType::Int64, false)]);
    let mut t = Table::create("t", schema, "base");
    assert_eq!(t.name(), "t");
    assert_eq!(t.data_version(), 0);
    t.insert_batch(ints("v", vec![1, 2]));
    t.insert_batch(ints("v", vec![3]));
    assert_eq!(t.num_rows(), 3);
    assert_eq!(t.data_version(), 2);
    let mut scan = t.scan_all();
    assert_eq!(scan.next_batch().unwrap().num_rows, 2);
    let (path, blob) = t.flush(&[stats0(), stats0()]);
    assert_eq!(path, "base/t.tuck");
    assert!(t.is_persisted());
    assert_eq!(t.blob_bytes().unwrap(), &blob);
    let again = Table::open("t", "base", Some(blob)).unwrap();
    assert_eq!(again.num_rows(), 3);
    assert_eq!(again.data_version(), 1);
    assert_eq!(again.schema().fields[0].name, "v");
    let empty = Table::open("t", "base", None).unwrap();
    assert_eq!(empty.num_rows(), 0);
    assert!(Table::open("t", "base", Some(vec![1, 2, 3, 4, 5, 6, 7, 8, 9])).is_none());
}

fn row_schema() -> Schema {
    Schema::new(vec![
        Field::new("id", DataType::Int64, true),
        Field::new("score", DataType::Float64, true),
        Field::new("name", DataType::Utf8, true),
        Field::new("at", DataType::Timestamp, true),
    ])
}

fn strings(v: &[&str]) -> Vec<String> {
    v.iter().map(|s| s.to_string()).collect()
}

#[test]
fn row_batch_takes_named_values() {
    let b = build_row_batch(
        &row_schema(),
        &strings(&["at", "id"]),
        &vec![99, 7],
        &strings(&["score"]),
        &vec![1.5f64.to_bits()],
        &strings(&["name"]),
        &strings(&["x"]),
    )
    .unwrap();
    assert_eq!(b.num_rows, 1);
    assert!(matches!(&b.columns[0].data, ColumnData::Int64(v) if v == &vec![7]));
    assert!(matches!(&b.columns[1].data, ColumnData::Float64(v) if v == &vec![1.5f64.to_bits()]));
    assert!(matches!(&b.columns[2].data, ColumnData::Utf8(v) if v == &strings(&["x"])));
    assert!(matches!(&b.columns[3].data, ColumnData::Timestamp(v) if v == &vec![99]));
}

#[test]
fn row_batch_errors() {
    let e = build_row_batch(&row_schema(), &strings(&["id"]), &vec![1], &vec![], &vec![], &vec![], &vec![]);
    assert_eq!(e.unwrap_err(), RowError::ColumnCountMismatch { expected: 4, got: 1 });
    let e = build_row_batch(
        &row_schema(),
        &strings(&["id", "at"]),
        &vec![1, 2],
        &strings(&["other"]),
        &vec![0],
        &strings(&["name"]),
        &strings(&["x"]),
    );
    assert_eq!(e.unwrap_err(), RowError::MissingColumn { name: "score".to_string(), data_type: DataType::Float64 });
}

#[test]
fn concat_lays_columns_end_to_end() {
    let batches = vec![ints("a", vec![1, 2]), ints("a", vec![3])];
    let (cols, rows) = concat_columns(&batches, 1);
    assert_eq!(rows, 3);
    assert!(matches!(&cols[0], ColumnData::Int64(v) if v == &vec![1, 2, 3]));
    let (cols, rows) = concat_columns(&batches, 2);
    assert_eq!(rows, 3);
    assert!(matches!(&cols[1], ColumnData::Int64(v) if v.is_empty()));
}

#[test]
fn csv_names_are_trimmed_and_nonempty() {
    assert_eq!(parse_csv_names(" a , b,,c "), strings(&["a", "b", "c"]));
    assert!(parse_csv_names("   ").is_empty());
}

#[test]
fn field_objects_parse() {
    let f = parse_field_object(r#" {"name": "price", "type": "DOUBLE"} "#).unwrap();
    assert_eq!(f.name, "price");
    assert_eq!(f.data_type, DataType::Float64);
    assert!(f.nullable);
    assert_eq!(parse_field_object("[1]").unwrap_err(), "Field must be a JSON object");
    assert_eq!(parse_field_object(r#"{"type": "int64"}"#).unwrap_err(), "Field missing 'name'");
    assert_eq!(
        parse_field_object(r#"{"name": "x", "type": "blob"}"#).unwrap_err(),
        "Unknown type 'blob' for field 'x'"
    );
    assert_eq!(data_type_named("string"), Some(DataType::Utf8));
    assert_eq!(data_type_named("String"), None);
}

#[test]
fn schema_json_parses() {
    let s = parse_schema_json(r#"[{"name":"id","type":"int64"}, {"name":"ts","type":"timestamp"}]"#).unwrap();
    assert_eq!(s.fields.len(), 2);
    assert_eq!(s.fields[1].data_type, DataType::Timestamp);
    assert!(parse_schema_json(" [ ] ").unwrap().fields.is_empty());
    assert_eq!(parse_schema_json("{}").unwrap_err(), "Schema JSON must be an array");
    assert_eq!(parse_schema_json(r#"[{"name":"a","type":"utf8"},]"#).unwrap().fields.len(), 1);
    assert_eq!(parse_schema_json(r#"[{"name":"a","type":"utf8"},,]"#).unwrap_err(), "Field must be a JSON object");
}

fn select(table: &str, projection: Vec<SqlSelectItem>, selection: Option<SqlExpr>) -> Vec<SqlStatement> {
    vec![SqlStatement::Select(SqlSelect { from: vec![SqlTable::Named(table.to_string())], projection, selection })]
}

#[test]
fn statements_become_scans() {
    let cond = SqlExpr::BinaryOp(
        Box::new(SqlExpr::Identifier("id".to_string())),
        SqlBinaryOp::GtEq,
        Box::new(SqlExpr::Number("5".to_string())),
    );
    let plan = statements_to_plan(
        &select("t", vec![SqlSelectItem::Column("id".to_string()), SqlSelectItem::Aliased("n".to_string())], Some(cond)),
        "t",
        &vec![],
    )
    .unwrap();
    match plan {
        LogicalPlan::Scan { table, projection, filter } => {
            assert_eq!(table, "t");
            assert_eq!(projection, strings(&["id", "n"]));
            assert_eq!(
                filter,
                Some(Expr::Gte(Box::new(Expr::Column("id".to_string())), Box::new(Expr::Literal(Value::Int(5)))))
            );
        }
        other => panic!("unexpected {:?}", other),
    }
    let star = statements_to_plan(&select("t", vec![SqlSelectItem::Column("a".to_string()), SqlSelectItem::Wildcard], None), "t", &vec![]);
    assert!(matches!(star, Ok(LogicalPlan::Scan { projection, filter: None, .. }) if projection.is_empty()));
}

#[test]
fn statement_errors() {
    assert_eq!(statements_to_plan(&vec![], "t", &vec![]).unwrap_err(), "Expected a single SQL statement");
    assert_eq!(statements_to_plan(&vec![SqlStatement::Other], "t", &vec![]).unwrap_err(), "Only SELECT queries are supported");
    assert_eq!(
        statements_to_plan(&vec![SqlStatement::Select(SqlSelect { from: vec![], projection: vec![], selection: None })], "t", &vec![])
            .unwrap_err(),
        "FROM clause is required"
    );
    assert_eq!(
        statements_to_plan(&vec![SqlStatement::Select(SqlSelect { from: vec![SqlTable::Other], projection: vec![], selection: None })], "t", &vec![])
            .unwrap_err(),
        "Only simple table references are supported"
    );
    assert_eq!(statements_to_plan(&select("u", vec![], None), "t", &vec![]).unwrap_err(), "Table 'u' not found (expected 't')");
    assert_eq!(
        statements_to_plan(&select("t", vec![SqlSelectItem::Other], None), "t", &vec![]).unwrap_err(),
        "Only column references are supported in SELECT"
    );
}

fn float_bits(texts: &[&str]) -> Vec<(String, Result<u64, String>)> {
    texts
        .iter()
        .map(|t| (t.to_string(), t.parse::<f64>().map(f64::to_bits).map_err(|e| e.to_string())))
        .collect()
}

#[test]
fn sql_expressions_translate() {
    let num = |t: &str| SqlExpr::Number(t.to_string());
    let floats = float_bits(&["2.5", "1.x"]);
    assert_eq!(sql_to_tk_expr(&num("2.5"), &floats).unwrap(), Expr::Literal(Value::Float(2.5f64.to_bits())));
    assert_eq!(sql_to_tk_expr(&num("-3"), &floats).unwrap(), Expr::Literal(Value::Int(-3)));
    assert!(sql_to_tk_expr(&num("99999999999999999999"), &floats).unwrap_err().starts_with("Invalid number: "));
    assert_eq!(sql_to_tk_expr(&num("1.x"), &floats).unwrap_err(), "Invalid number: invalid float literal");
    assert_eq!(sql_to_tk_expr(&num("7.5"), &floats).unwrap_err(), "Invalid number: 7.5");
    assert_eq!(sql_to_tk_expr(&SqlExpr::OtherValue, &floats).unwrap_err(), "Unsupported literal value");
    assert_eq!(sql_to_tk_expr(&SqlExpr::Other, &floats).unwrap_err(), "Unsupported SQL expression");
    let nested = SqlExpr::Nested(Box::new(SqlExpr::SingleQuoted("x".to_string())));
    assert_eq!(sql_to_tk_expr(&nested, &floats).unwrap(), Expr::Literal(Value::Str("x".to_string())));
    let bad_op = SqlExpr::BinaryOp(Box::new(num("1")), SqlBinaryOp::Other, Box::new(num("2")));
    assert_eq!(sql_to_tk_expr(&bad_op, &floats).unwrap_err(), "Unsupported binary operator");
    assert_eq!(int_literal(Err("boom".to_string())).unwrap_err(), "Invalid number: boom");
}

#[test]
fn sql_text_becomes_scan() {
    let sql = "SELECT id, name AS n FROM t WHERE (id >= 5 AND score < 2.5) OR name = 'x'";
    assert_eq!(sql_float_literals(sql), strings(&["2.5"]));
    let plan = sql_to_logical_plan(sql, "t", &float_bits(&["2.5"])).unwrap();
    let col = |c: &str| Box::new(Expr::Column(c.to_string()));
    let want = Expr::Or(
        Box::new(Expr::And(
            Box::new(Expr::Gte(col("id"), Box::new(Expr::Literal(Value::Int(5))))),
            Box::new(Expr::Lt(col("score"), Box::new(Expr::Literal(Value::Float(2.5f64.to_bits()))))),
        )),
        Box::new(Expr::Eq(col("name"), Box::new(Expr::Literal(Value::Str("x".to_string()))))),
    );
    match plan {
        LogicalPlan::Scan { table, projection, filter } => {
            assert_eq!(table, "t");
            assert_eq!(projection, strings(&["id", "n"]));
            assert_eq!(filter, Some(want));
        }
        other => panic!("unexpected {:?}", other),
    }
    let star = sql_to_logical_plan("SELECT * FROM t", "t", &vec![]).unwrap();
    assert!(matches!(star, LogicalPlan::Scan { projection, filter: None, .. } if projection.is_empty()));
}

#[test]
fn sql_text_errors() {
    assert!(sql_to_logical_plan("SELEC id FROM t", "t", &vec![]).unwrap_err().starts_with("SQL parse error: "));
    assert!(sql_float_literals("SELEC id FROM t").is_empty());
    assert_eq!(sql_to_logical_plan("SELECT a FROM u", "t", &vec![]).unwrap_err(), "Table 'u' not found (expected 't')");
    assert_eq!(sql_to_logical_plan("SELECT 1; SELECT 2", "t", &vec![]).unwrap_err(), "Expected a single SQL statement");
    assert_eq!(sql_to_logical_plan("INSERT INTO t VALUES (1)", "t", &vec![]).unwrap_err(), "Only SELECT queries are supported");
    assert_eq!(sql_to_logical_plan("SELECT 1", "t", &vec![]).unwrap_err(), "FROM clause is required");
    assert_eq!(
        sql_to_logical_plan("SELECT a + 1 FROM t", "t", &vec![]).unwrap_err(),
        "Only column references are supported in SELECT"
    );
    assert_eq!(sql_to_logical_plan("SELECT a FROM t WHERE a + 1 = 2", "t", &vec![]).unwrap_err(), "Unsupported binary operator");
    assert_eq!(sql_to_logical_plan("SELECT a FROM t WHERE a > 1.5", "t", &vec![]).unwrap_err(), "Invalid number: 1.5");
}

#[test]
fn text_features() {
    assert_eq!(stem("running"), "runn");
    assert_eq!(stem("classes"), "class");
    assert_eq!(stem("moved"), "mov");
    assert_eq!(stem("s"), "s");
    assert_eq!(stem("raii"), "raii");
    assert_eq!(related_terms("virtual"), Some(strings(&["polymorphism", "function"])));
    assert_eq!(related_terms("nothing"), None);
    assert_eq!(char_ngrams("abcd", 2), strings(&["ab", "bc", "cd"]));
    assert!(char_ngrams("ab", 3).is_empty());
}

#[test]
fn data_version_counts_writes_of_each_table() {
    let mut m = TableManager::new("data");
    let writes = ["a", "b", "a", "c", "a", "b"];
    for name in writes.iter() {
        m.write_table(name, &[], &[]);
    }
    assert_eq!(m.data_version("a"), 3);
    assert_eq!(m.data_version("b"), 2);
    assert_eq!(m.data_version("c"), 1);
    assert_eq!(m.data_version("d"), 0);
}

#[test]
fn out_of_bounds_reads_name_the_sizes() {
    let mut b = InMemoryBackend::new();
    b.write("t/b.tuck", &[1, 2, 3, 4]).unwrap();
    assert_eq!(b.read("t/b.tuck", 3, 2).unwrap_err(), "read out of bounds: offset=3 len=2 file_size=4");
}
