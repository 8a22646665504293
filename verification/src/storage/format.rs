//! The blob format: a header with the schema and the metadata of every
//! column chunk, followed by the encoded chunk data.
use vstd::prelude::*;
use vstd::bytes::{spec_u32_to_le_bytes, spec_u64_to_le_bytes};
use vstd::utf8::{valid_utf8, encode_utf8, decode_utf8, encode_utf8_valid_utf8, encode_utf8_decode_utf8};
use crate::schema::{DataType, Field, Schema, spec_fields_view, spec_field_view};
use crate::storage::le_bytes::{spec_u32_at, read_u32, write_u32, lemma_u32_at, lemma_le_lens};
use crate::storage::chunk::{
    ChunkMeta, ColumnStats, spec_meta_bytes, spec_stats_bytes, spec_opt_bytes, spec_read_meta, read_meta_at,
    lemma_meta_roundtrip_at,
};
use crate::storage::encoding::{encode_column, decode_column, spec_encode_column, spec_decode_column, spec_values_len, spec_decodes_back};
use crate::exec::batch::{Column, ColumnData, ColumnValues, RecordBatch};
use crate::schema::clone_fields;
use crate::text::{string_bytes, string_from_utf8, append_bytes, copy_range};

verus! {

/// The id of a data type in a serialized schema.
pub open spec fn spec_type_id(t: DataType) -> u8 {
    match t {
        DataType::Int64 => 0,
        DataType::Float64 => 1,
        DataType::Utf8 => 2,
        DataType::Timestamp => 3,
    }
}

/// The data type with a given id, if any.
pub open spec fn spec_type_of(id: u8) -> Option<DataType> {
    if id == 0 {
        Some(DataType::Int64)
    } else if id == 1 {
        Some(DataType::Float64)
    } else if id == 2 {
        Some(DataType::Utf8)
    } else if id == 3 {
        Some(DataType::Timestamp)
    } else {
        None
    }
}

/// The bytes of a field: the byte length of its name as a little-endian
/// `u32`, the name's UTF-8 bytes, the type id, and 1 or 0 for nullable.
pub open spec fn spec_field_bytes(f: (Seq<char>, DataType, bool)) -> Seq<u8> {
    spec_u32_to_le_bytes(encode_utf8(f.0).len() as u32) + encode_utf8(f.0) + seq![
        spec_type_id(f.1),
        if f.2 {
            1u8
        } else {
            0u8
        },
    ]
}

/// The bytes of the fields, one after another.
pub open spec fn spec_fields_bytes(fs: Seq<(Seq<char>, DataType, bool)>) -> Seq<u8>
    decreases fs.len(),
{
    if fs.len() == 0 {
        seq![]
    } else {
        spec_fields_bytes(fs.drop_last()) + spec_field_bytes(fs.last())
    }
}

/// The bytes of a schema: the number of fields as a little-endian `u32`,
/// then the fields.
pub open spec fn spec_schema_bytes(fs: Seq<(Seq<char>, DataType, bool)>) -> Seq<u8> {
    spec_u32_to_le_bytes(fs.len() as u32) + spec_fields_bytes(fs)
}

/// Reads a field at `pos`, giving it and the position after it; `None`
/// where the bytes run out, the name is not UTF-8 or the type id is unknown.
pub open spec fn spec_read_field(b: Seq<u8>, pos: int) -> Option<((Seq<char>, DataType, bool), int)> {
    if pos < 0 || pos + 4 > b.len() {
        None
    } else {
        let n = spec_u32_at(b, pos) as int;
        let p = pos + 4;
        if p + n + 2 > b.len() || !valid_utf8(b.subrange(p, p + n)) {
            None
        } else {
            match spec_type_of(b[p + n]) {
                Some(t) => Some(((decode_utf8(b.subrange(p, p + n)), t, b[p + n + 1] != 0), p + n + 2)),
                None => None,
            }
        }
    }
}

/// Reads `k` fields one after another from `pos`.
pub open spec fn spec_read_fields(b: Seq<u8>, pos: int, k: nat) -> Option<(Seq<(Seq<char>, DataType, bool)>, int)>
    decreases k,
{
    if k == 0 {
        Some((seq![], pos))
    } else {
        match spec_read_fields(b, pos, (k - 1) as nat) {
            Some((fs, p)) => match spec_read_field(b, p) {
                Some((f, q)) => Some((fs.push(f), q)),
                None => None,
            },
            None => None,
        }
    }
}

/// The fields that the bytes of a schema hold.
pub open spec fn spec_read_schema(b: Seq<u8>) -> Option<Seq<(Seq<char>, DataType, bool)>> {
    if b.len() < 4 {
        None
    } else {
        match spec_read_fields(b, 4, spec_u32_at(b, 0) as nat) {
            Some((fs, _)) => Some(fs),
            None => None,
        }
    }
}

fn type_id(t: DataType) -> (r: u8)
    ensures
        r == spec_type_id(t),
{
    match t {
        DataType::Int64 => 0,
        DataType::Float64 => 1,
        DataType::Utf8 => 2,
        DataType::Timestamp => 3,
    }
}

fn type_of(id: u8) -> (r: Option<DataType>)
    ensures
        r == spec_type_of(id),
{
    if id == 0 {
        Some(DataType::Int64)
    } else if id == 1 {
        Some(DataType::Float64)
    } else if id == 2 {
        Some(DataType::Utf8)
    } else if id == 3 {
        Some(DataType::Timestamp)
    } else {
        None
    }
}

/// The bytes of a schema.
pub fn serialize_schema(schema: &Schema) -> (r: Vec<u8>)
    ensures
        r@ == spec_schema_bytes(spec_fields_view(schema.fields@)),
{
    let ghost fs = spec_fields_view(schema.fields@);
    let mut buf: Vec<u8> = Vec::new();
    write_u32(schema.fields.len() as u32, &mut buf);
    let ghost head = buf@;
    let mut i: usize = 0;
    while i < schema.fields.len()
        invariant
            fs == spec_fields_view(schema.fields@),
            i <= fs.len(),
            head == spec_u32_to_le_bytes(fs.len() as u32),
            buf@ == head + spec_fields_bytes(fs.take(i as int)),
        decreases fs.len() - i,
    {
        let field = &schema.fields[i];
        let name = string_bytes(&field.name);
        let ghost before = buf@;
        write_u32(name.len() as u32, &mut buf);
        append_bytes(&mut buf, name);
        buf.push(type_id(field.data_type));
        buf.push(if field.nullable { 1u8 } else { 0u8 });
        assert(fs.take(i + 1).drop_last() =~= fs.take(i as int));
        assert(fs.take(i + 1).last() == fs[i as int]);
        assert(buf@ =~= before + spec_field_bytes(fs[i as int]));
        i = i + 1;
    }
    assert(fs.take(i as int) =~= fs);
    buf
}

/// The schema that `bytes` hold; `None` where they run out, a name is not
/// UTF-8 or a type id is unknown.
pub fn deserialize_schema(bytes: &[u8]) -> (r: Option<Schema>)
    ensures
        match spec_read_schema(bytes@) {
            Some(fs) => r matches Some(s) && spec_fields_view(s.fields@) == fs,
            None => r is None,
        },
{
    if bytes.len() < 4 {
        return None;
    }
    let num_fields = read_u32(bytes, 0);
    let mut fields: Vec<Field> = Vec::new();
    let mut pos: usize = 4;
    let mut k: u32 = 0;
    while k < num_fields
        invariant
            k <= num_fields,
            num_fields == spec_u32_at(bytes@, 0),
            bytes@.len() >= 4,
            spec_read_fields(bytes@, 4, k as nat) == Some((spec_fields_view(fields@), pos as int)),
        decreases num_fields - k,
    {
        if pos > bytes.len() || bytes.len() - pos < 4 {
            proof {
                lemma_read_fields_fails(bytes@, 4, (k + 1) as nat, num_fields as nat);
            }
            return None;
        }
        let name_len = read_u32(bytes, pos) as usize;
        let p = pos + 4;
        if bytes.len() - p < 2 || bytes.len() - p - 2 < name_len {
            proof {
                lemma_read_fields_fails(bytes@, 4, (k + 1) as nat, num_fields as nat);
            }
            return None;
        }
        let name = match string_from_utf8(copy_range(bytes, p, p + name_len)) {
            Some(s) => s,
            None => {
                proof {
                    lemma_read_fields_fails(bytes@, 4, (k + 1) as nat, num_fields as nat);
                }
                return None;
            },
        };
        let data_type = match type_of(bytes[p + name_len]) {
            Some(t) => t,
            None => {
                proof {
                    lemma_read_fields_fails(bytes@, 4, (k + 1) as nat, num_fields as nat);
                }
                return None;
            },
        };
        let nullable = bytes[p + name_len + 1] != 0;
        let ghost before = spec_fields_view(fields@);
        fields.push(Field { name, data_type, nullable });
        assert(spec_fields_view(fields@) =~= before.push((name@, data_type, nullable)));
        pos = p + name_len + 2;
        k = k + 1;
    }
    Some(Schema { fields })
}

/// Once reading the fields fails, reading more of them fails too.
proof fn lemma_read_fields_fails(b: Seq<u8>, pos: int, k: nat, m: nat)
    requires
        spec_read_fields(b, pos, k) is None,
        k <= m,
    ensures
        spec_read_fields(b, pos, m) is None,
    decreases m - k,
{
    if k < m {
        lemma_read_fields_fails(b, pos, k + 1, m);
    }
}

proof fn lemma_type_roundtrip(t: DataType)
    ensures
        spec_type_of(spec_type_id(t)) == Some(t),
{
}

/// A field read back from its bytes, wherever they stand.
proof fn lemma_read_field(f: (Seq<char>, DataType, bool), pre: Seq<u8>, rest: Seq<u8>)
    requires
        encode_utf8(f.0).len() <= u32::MAX,
    ensures
        spec_read_field(pre + spec_field_bytes(f) + rest, pre.len() as int) == Some((
            f,
            (pre.len() + spec_field_bytes(f).len()) as int,
        )),
{
    let b = pre + spec_field_bytes(f) + rest;
    let name = encode_utf8(f.0);
    let n = name.len();
    let p0 = pre.len() as int;
    lemma_le_lens(0, n as u32, 0);
    assert(b.subrange(p0, p0 + 4) =~= spec_u32_to_le_bytes(n as u32));
    lemma_u32_at(n as u32, b, p0);
    assert(b.subrange(p0 + 4, p0 + 4 + n) =~= name);
    encode_utf8_valid_utf8(f.0);
    encode_utf8_decode_utf8(f.0);
    assert(b[p0 + 4 + n] == spec_type_id(f.1));
    lemma_type_roundtrip(f.1);
}

/// Fields read back from their bytes, wherever they stand.
proof fn lemma_read_fields(fs: Seq<(Seq<char>, DataType, bool)>, pre: Seq<u8>, rest: Seq<u8>)
    requires
        forall|i: int| 0 <= i < fs.len() ==> encode_utf8(#[trigger] fs[i].0).len() <= u32::MAX,
    ensures
        spec_read_fields(pre + spec_fields_bytes(fs) + rest, pre.len() as int, fs.len()) == Some((
            fs,
            (pre.len() + spec_fields_bytes(fs).len()) as int,
        )),
    decreases fs.len(),
{
    if fs.len() > 0 {
        let init = fs.drop_last();
        let last = fs.last();
        assert(last == fs[fs.len() - 1]);
        assert forall|i: int| 0 <= i < init.len() implies encode_utf8(#[trigger] init[i].0).len() <= u32::MAX by {
            assert(init[i] == fs[i]);
        }
        let b = pre + spec_fields_bytes(fs) + rest;
        assert(b =~= pre + spec_fields_bytes(init) + (spec_field_bytes(last) + rest));
        lemma_read_fields(init, pre, spec_field_bytes(last) + rest);
        assert(b =~= (pre + spec_fields_bytes(init)) + spec_field_bytes(last) + rest);
        lemma_read_field(last, pre + spec_fields_bytes(init), rest);
        assert(init.push(last) =~= fs);
    }
}

/// Reading the bytes of a schema gives its fields back, where there are
/// fewer than 2^32 fields and each name has fewer than 2^32 bytes.
pub proof fn lemma_schema_roundtrip(fs: Seq<(Seq<char>, DataType, bool)>)
    requires
        fs.len() <= u32::MAX,
        forall|i: int| 0 <= i < fs.len() ==> encode_utf8(#[trigger] fs[i].0).len() <= u32::MAX,
    ensures
        spec_read_schema(spec_schema_bytes(fs)) == Some(fs),
{
    let head = spec_u32_to_le_bytes(fs.len() as u32);
    lemma_le_lens(0, fs.len() as u32, 0);
    let b = spec_schema_bytes(fs);
    assert(b.subrange(0, 4) =~= head);
    lemma_u32_at(fs.len() as u32, b, 0);
    lemma_read_fields(fs, head, Seq::<u8>::empty());
    assert(head + spec_fields_bytes(fs) + Seq::<u8>::empty() =~= b);
}

/// Format version of a blob.
pub const VERSION: u32 = 1;

/// The magic bytes that open a blob: "TCKB".
pub open spec fn spec_magic() -> Seq<u8> {
    seq![0x54u8, 0x43u8, 0x4bu8, 0x42u8]
}

/// The columns of a batch, each with its position in the batch.
pub open spec fn spec_batch_columns(b: RecordBatch) -> Seq<(int, ColumnValues)> {
    b.columns@.map(|ci: int, c: Column| (ci, c.data@))
}

/// The columns of the batches, batch after batch.
pub open spec fn spec_flat_columns(bs: Seq<RecordBatch>) -> Seq<(int, ColumnValues)>
    decreases bs.len(),
{
    if bs.len() == 0 {
        seq![]
    } else {
        spec_flat_columns(bs.drop_last()) + spec_batch_columns(bs.last())
    }
}

/// How many of the entries are of column `ci`.
pub open spec fn spec_count_col(flat: Seq<(int, ColumnValues)>, ci: int) -> nat
    decreases flat.len(),
{
    if flat.len() == 0 {
        0
    } else {
        spec_count_col(flat.drop_last(), ci) + if flat.last().0 == ci {
            1nat
        } else {
            0nat
        }
    }
}

/// The encoded bytes of the entries, one after another.
pub open spec fn spec_data_bytes(flat: Seq<(int, ColumnValues)>) -> Seq<u8>
    decreases flat.len(),
{
    if flat.len() == 0 {
        seq![]
    } else {
        spec_data_bytes(flat.drop_last()) + spec_encode_column(flat.last().1).1
    }
}

/// The metadata of entry `k`, whose data follows the data of the entries
/// before it from `data_start` on. Its chunk index counts the earlier
/// entries of the same column.
pub open spec fn spec_entry_meta(flat: Seq<(int, ColumnValues)>, stats: Seq<ColumnStats>, k: int, data_start: int) -> ChunkMeta {
    let ci = flat[k].0;
    let enc = spec_encode_column(flat[k].1);
    ChunkMeta {
        col_idx: ci as u32,
        chunk_idx: spec_count_col(flat.take(k), ci) as u32,
        encoding: enc.0,
        offset: (data_start + spec_data_bytes(flat.take(k)).len()) as u64,
        compressed_size: enc.1.len() as u64,
        uncompressed_size: spec_values_len(flat[k].1) as u64,
        stats: stats[k],
    }
}

/// The metadata of every entry.
pub open spec fn spec_entry_metas(flat: Seq<(int, ColumnValues)>, stats: Seq<ColumnStats>, data_start: int) -> Seq<ChunkMeta> {
    Seq::new(flat.len(), |k: int| spec_entry_meta(flat, stats, k, data_start))
}

/// The bytes of the metadata, one after another.
pub open spec fn spec_metas_bytes(ms: Seq<ChunkMeta>) -> Seq<u8>
    decreases ms.len(),
{
    if ms.len() == 0 {
        seq![]
    } else {
        spec_metas_bytes(ms.drop_last()) + spec_meta_bytes(ms.last())
    }
}

/// The start of a blob: magic, version, the schema with its length, and
/// the number of chunks.
pub open spec fn spec_blob_prefix(fields: Seq<(Seq<char>, DataType, bool)>, n: nat) -> Seq<u8> {
    let schema = spec_schema_bytes(fields);
    spec_magic() + spec_u32_to_le_bytes(VERSION) + spec_u32_to_le_bytes(schema.len() as u32) + schema
        + spec_u32_to_le_bytes(n as u32)
}

/// The blob of the entries under the schema: the header with the metadata
/// of every entry, the data offsets counted from the start of the blob,
/// then the data.
pub open spec fn spec_blob(fields: Seq<(Seq<char>, DataType, bool)>, flat: Seq<(int, ColumnValues)>, stats: Seq<ColumnStats>) -> Seq<u8> {
    spec_blob_prefix(fields, flat.len()) + spec_metas_bytes(spec_entry_metas(flat, stats, spec_header_len(fields, flat, stats)))
        + spec_data_bytes(flat)
}

/// The byte length of the header of a blob, where its data starts.
pub open spec fn spec_header_len(fields: Seq<(Seq<char>, DataType, bool)>, flat: Seq<(int, ColumnValues)>, stats: Seq<ColumnStats>) -> int {
    (spec_blob_prefix(fields, flat.len()).len() + spec_metas_bytes(spec_entry_metas(flat, stats, 0)).len()) as int
}

/// The byte length of the metadata with the given statistics.
pub open spec fn spec_meta_len(s: ColumnStats) -> nat {
    34 + (if s.min is Some { 9nat } else { 1nat }) + (if s.max is Some { 9nat } else { 1nat }) + 8
}

proof fn lemma_meta_len(m: ChunkMeta)
    ensures
        spec_meta_bytes(m).len() == spec_meta_len(m.stats),
{
    lemma_le_lens(m.offset, m.col_idx, m.encoding);
    lemma_le_lens(m.compressed_size, m.chunk_idx, 0);
    lemma_le_lens(m.uncompressed_size, 0, 0);
    lemma_le_lens(m.stats.null_count as u64, 0, 0);
    match m.stats.min {
        Some(x) => lemma_le_lens(x, 0, 0),
        None => {},
    }
    match m.stats.max {
        Some(x) => lemma_le_lens(x, 0, 0),
        None => {},
    }
}

/// Metadata that differ only in where their data lies take as many bytes.
pub(crate) proof fn lemma_metas_len(a: Seq<ChunkMeta>, b: Seq<ChunkMeta>)
    requires
        a.len() == b.len(),
        forall|i: int| 0 <= i < a.len() ==> (#[trigger] a[i]).stats == b[i].stats,
    ensures
        spec_metas_bytes(a).len() == spec_metas_bytes(b).len(),
    decreases a.len(),
{
    if a.len() > 0 {
        assert forall|i: int| 0 <= i < a.drop_last().len() implies (#[trigger] a.drop_last()[i]).stats == b.drop_last()[i].stats by {
            assert(a.drop_last()[i] == a[i]);
            assert(b.drop_last()[i] == b[i]);
        }
        lemma_metas_len(a.drop_last(), b.drop_last());
        lemma_meta_len(a.last());
        lemma_meta_len(b.last());
        assert(a.last().stats == b.last().stats);
    }
}

pub(crate) proof fn lemma_data_bytes_prefix(flat: Seq<(int, ColumnValues)>, j: int)
    requires
        0 <= j <= flat.len(),
    ensures
        spec_data_bytes(flat.take(j)).len() <= spec_data_bytes(flat).len(),
    decreases flat.len(),
{
    if j < flat.len() {
        assert(flat.drop_last().take(j) =~= flat.take(j));
        lemma_data_bytes_prefix(flat.drop_last(), j);
    } else {
        assert(flat.take(j) =~= flat);
    }
}

/// The entries of one batch count each column once.
pub(crate) proof fn lemma_count_batch(cols: Seq<(int, ColumnValues)>, n: int, c: int)
    requires
        0 <= n <= cols.len(),
        forall|i: int| 0 <= i < cols.len() ==> (#[trigger] cols[i]).0 == i,
    ensures
        spec_count_col(cols.take(n), c) == if 0 <= c < n { 1nat } else { 0nat },
    decreases n,
{
    if n > 0 {
        assert(cols.take(n).drop_last() =~= cols.take(n - 1));
        lemma_count_batch(cols, n - 1, c);
        assert(cols.take(n).last() == cols[n - 1]);
    }
}

pub(crate) proof fn lemma_count_concat(a: Seq<(int, ColumnValues)>, b: Seq<(int, ColumnValues)>, c: int)
    ensures
        spec_count_col(a + b, c) == spec_count_col(a, c) + spec_count_col(b, c),
    decreases b.len(),
{
    if b.len() == 0 {
        assert(a + b =~= a);
    } else {
        assert((a + b).drop_last() =~= a + b.drop_last());
        lemma_count_concat(a, b.drop_last(), c);
    }
}

/// Each batch adds at most one entry of a column.
proof fn lemma_count_flat(bs: Seq<RecordBatch>, c: int)
    ensures
        spec_count_col(spec_flat_columns(bs), c) <= bs.len(),
    decreases bs.len(),
{
    if bs.len() > 0 {
        lemma_count_flat(bs.drop_last(), c);
        let cols = spec_batch_columns(bs.last());
        lemma_count_concat(spec_flat_columns(bs.drop_last()), cols, c);
        lemma_count_batch(cols, cols.len() as int, c);
        assert(cols.take(cols.len() as int) =~= cols);
    }
}

/// The byte length of metadata with the given statistics.
fn meta_serialized_size(m: &ChunkMeta) -> (n: usize)
    ensures
        n == spec_meta_len(m.stats),
{
    let stats_size: usize = (if m.stats.min.is_some() { 9 } else { 1 }) + (if m.stats.max.is_some() { 9 } else { 1 }) + 8;
    4 + 4 + 2 + 8 + 8 + 8 + stats_size
}

/// Writes column batches as one blob.
pub struct BlobWriter;

impl BlobWriter {
    /// The blob of `batches` under the schema of the first: every column of
    /// every batch encoded, with the given statistics of each, in the order
    /// of the columns batch after batch. No batches give no bytes. Every
    /// column it encodes decodes back.
    pub fn write(batches: &[RecordBatch], stats: &[ColumnStats]) -> (r: Vec<u8>)
        requires
            batches@.len() <= u32::MAX,
            forall|b: int| 0 <= b < batches@.len() ==> (#[trigger] batches@[b]).columns@.len() <= batches@[0].schema.fields@.len(),
            stats@.len() == spec_flat_columns(batches@).len(),
        ensures
            batches@.len() == 0 ==> r@.len() == 0,
            batches@.len() > 0 ==> r@ == spec_blob(
                spec_fields_view(batches@[0].schema.fields@),
                spec_flat_columns(batches@),
                stats@,
            ),
            forall|b: int, c: int|
                #![trigger batches@[b].columns@[c]]
                0 <= b < batches@.len() && 0 <= c < batches@[b].columns@.len() ==> spec_decodes_back(
                    batches@[b].columns@[c].data@,
                ),
    {
        if batches.len() == 0 {
            return Vec::new();
        }
        let ghost flat = spec_flat_columns(batches@);
        let schema = &batches[0].schema;
        let num_cols = schema.fields.len();
        let schema_bytes = serialize_schema(schema);
        let mut metas: Vec<ChunkMeta> = Vec::new();
        let mut datas: Vec<Vec<u8>> = Vec::new();
        let mut chunk_counts: Vec<u32> = Vec::new();
        let mut c: usize = 0;
        while c < num_cols
            invariant
                c <= num_cols,
                chunk_counts@.len() == c,
                forall|j: int| 0 <= j < c ==> chunk_counts@[j] == 0,
            decreases num_cols - c,
        {
            chunk_counts.push(0);
            c = c + 1;
        }
        let mut bi: usize = 0;
        while bi < batches.len()
            invariant
                flat == spec_flat_columns(batches@),
                num_cols == batches@[0].schema.fields@.len(),
                forall|b: int| 0 <= b < batches@.len() ==> (#[trigger] batches@[b]).columns@.len() <= num_cols,
                stats@.len() == flat.len(),
                batches@.len() <= u32::MAX,
                bi <= batches@.len(),
                chunk_counts@.len() == num_cols,
                metas@.len() == spec_flat_columns(batches@.take(bi as int)).len(),
                datas@.len() == metas@.len(),
                flat.take(metas@.len() as int) == spec_flat_columns(batches@.take(bi as int)),
                forall|k: int| 0 <= k < metas@.len() ==> (#[trigger] metas@[k]) == (ChunkMeta { offset: 0, ..spec_entry_meta(flat, stats@, k, 0) }),
                forall|k: int| 0 <= k < datas@.len() ==> (#[trigger] datas@[k])@ == spec_encode_column(flat[k].1).1,
                forall|j: int| 0 <= j < num_cols ==> (#[trigger] chunk_counts@[j]) == spec_count_col(flat.take(metas@.len() as int), j),
                forall|j: int| 0 <= j < num_cols ==> spec_count_col(flat.take(metas@.len() as int), j) <= bi,
                forall|b: int, c: int|
                    #![trigger batches@[b].columns@[c]]
                    0 <= b < bi && 0 <= c < batches@[b].columns@.len() ==> spec_decodes_back(batches@[b].columns@[c].data@),
            decreases batches@.len() - bi,
        {
            let batch = &batches[bi];
            let ghost before = spec_flat_columns(batches@.take(bi as int));
            let ghost cols = spec_batch_columns(batches@[bi as int]);
            proof {
                assert(batches@.take(bi + 1).drop_last() =~= batches@.take(bi as int));
                assert(batches@.take(bi + 1).last() == batches@[bi as int]);
                assert(spec_flat_columns(batches@.take(bi + 1)) == before + cols);
                lemma_count_flat(batches@.take(bi + 1), 0);
            }
            let mut ci: usize = 0;
            while ci < batch.columns.len()
                invariant
                    flat == spec_flat_columns(batches@),
                    cols == spec_batch_columns(*batch),
                    *batch == batches@[bi as int],
                    num_cols == batches@[0].schema.fields@.len(),
                    batch.columns@.len() <= num_cols,
                    stats@.len() == flat.len(),
                    batches@.len() <= u32::MAX,
                    bi < batches@.len(),
                    ci <= batch.columns@.len(),
                    chunk_counts@.len() == num_cols,
                    spec_flat_columns(batches@.take(bi + 1)) == before + cols,
                    before == spec_flat_columns(batches@.take(bi as int)),
                    metas@.len() == before.len() + ci,
                    datas@.len() == metas@.len(),
                    flat.take(metas@.len() as int) == before + cols.take(ci as int),
                    forall|k: int| 0 <= k < metas@.len() ==> (#[trigger] metas@[k]) == (ChunkMeta { offset: 0, ..spec_entry_meta(flat, stats@, k, 0) }),
                    forall|k: int| 0 <= k < datas@.len() ==> (#[trigger] datas@[k])@ == spec_encode_column(flat[k].1).1,
                    forall|j: int| 0 <= j < num_cols ==> (#[trigger] chunk_counts@[j]) == spec_count_col(flat.take(metas@.len() as int), j),
                    forall|j: int| 0 <= j < num_cols ==> spec_count_col(before, j) <= bi,
                    forall|b: int, c: int|
                        #![trigger batches@[b].columns@[c]]
                        0 <= b < bi && 0 <= c < batches@[b].columns@.len() ==> spec_decodes_back(batches@[b].columns@[c].data@),
                    forall|c: int| 0 <= c < ci ==> spec_decodes_back(#[trigger] batch.columns@[c].data@),
                decreases batch.columns@.len() - ci,
            {
                let column = &batch.columns[ci];
                let k = metas.len();
                proof {
                    lemma_flat_take_len(batches@, bi + 1);
                    let whole = before + cols;
                    assert(flat.take(whole.len() as int) == whole);
                    assert(flat.take(whole.len() as int)[k as int] == flat[k as int]);
                    assert(whole[k as int] == cols[ci as int]);
                    assert(flat.take(k as int + 1) =~= flat.take(k as int).push(flat[k as int]));
                    assert(flat[k as int] == cols[ci as int]);
                }
                let (encoding_id, compressed) = encode_column(&column.data);
                proof {
                    lemma_count_concat(before, cols.take(ci as int), ci as int);
                    lemma_count_batch(cols, ci as int, ci as int);
                }
                let meta = ChunkMeta {
                    col_idx: ci as u32,
                    chunk_idx: chunk_counts[ci],
                    encoding: encoding_id,
                    offset: 0,
                    compressed_size: compressed.len() as u64,
                    uncompressed_size: column.data.len() as u64,
                    stats: stats[k],
                };
                metas.push(meta);
                datas.push(compressed);
                let next = chunk_counts[ci] + 1;
                chunk_counts.set(ci, next);
                ci = ci + 1;
                proof {
                    assert(cols.take(ci as int) =~= cols.take(ci - 1).push(cols[ci - 1]));
                    assert forall|j: int| 0 <= j < num_cols implies (#[trigger] chunk_counts@[j]) == spec_count_col(flat.take(metas@.len() as int), j) by {
                        assert(flat.take(metas@.len() as int).drop_last() =~= flat.take(k as int));
                    }
                }
            }
            bi = bi + 1;
            proof {
                assert(cols.take(ci as int) =~= cols);
                assert forall|j: int| 0 <= j < num_cols implies spec_count_col(flat.take(metas@.len() as int), j) <= bi by {
                    lemma_count_concat(before, cols, j);
                    lemma_count_batch(cols, cols.len() as int, j);
                    assert(cols.take(cols.len() as int) =~= cols);
                }
            }
        }
        proof {
            assert(batches@.take(bi as int) =~= batches@);
            assert(flat.take(metas@.len() as int) =~= flat);
        }
        let ghost stats_s = stats@;
        let ghost metas0 = metas@;
        proof {
            lemma_metas_len(metas0, spec_entry_metas(flat, stats_s, 0));
        }
        let mut out: Vec<u8> = Vec::new();
        out.push(0x54u8);
        out.push(0x43u8);
        out.push(0x4bu8);
        out.push(0x42u8);
        write_u32(VERSION, &mut out);
        write_u32(schema_bytes.len() as u32, &mut out);
        append_bytes(&mut out, schema_bytes.as_slice());
        write_u32(metas.len() as u32, &mut out);
        let ghost prefix = out@;
        assert(prefix =~= spec_blob_prefix(spec_fields_view(batches@[0].schema.fields@), flat.len()));
        // Where the data starts: after the prefix and all metadata.
        let mut data_start: u64 = out.len() as u64;
        let mut k: usize = 0;
        while k < metas.len()
            invariant
                metas@ == metas0,
                k <= metas0.len(),
                prefix.len() + spec_metas_bytes(metas0.take(k as int)).len() <= u64::MAX ==> data_start == prefix.len()
                    + spec_metas_bytes(metas0.take(k as int)).len(),
            decreases metas0.len() - k,
        {
            proof {
                assert(metas0.take(k + 1).drop_last() =~= metas0.take(k as int));
                lemma_meta_len(metas0[k as int]);
            }
            data_start = data_start.wrapping_add(meta_serialized_size(&metas[k]) as u64);
            k = k + 1;
        }
        let ghost header_len = prefix.len() + spec_metas_bytes(metas0).len();
        assert(metas0.take(k as int) =~= metas0);
        // The metadata, each with the offset of its data.
        let mut written: Vec<ChunkMeta> = Vec::new();
        let mut offset: u64 = data_start;
        let mut k: usize = 0;
        while k < metas.len()
            invariant
                metas@ == metas0,
                datas@.len() == metas0.len(),
                metas0.len() == flat.len(),
                forall|j: int| 0 <= j < datas@.len() ==> (#[trigger] datas@[j])@ == spec_encode_column(flat[j].1).1,
                forall|j: int| 0 <= j < metas0.len() ==> (#[trigger] metas0[j]).compressed_size == spec_encode_column(flat[j].1).1.len() as u64,
                k <= metas0.len(),
                written@.len() == k,
                out@ == prefix + spec_metas_bytes(written@),
                header_len <= u64::MAX ==> data_start == header_len,
                header_len + spec_data_bytes(flat.take(k as int)).len() <= u64::MAX ==> offset == header_len + spec_data_bytes(flat.take(k as int)).len(),
                forall|j: int| 0 <= j < k ==> (#[trigger] written@[j]).stats == metas0[j].stats,
                forall|j: int| 0 <= j < k && header_len + spec_data_bytes(flat.take(j)).len() <= u64::MAX ==> (#[trigger] written@[j]) == (ChunkMeta { offset: (header_len + spec_data_bytes(flat.take(j)).len()) as u64, ..metas0[j] }),
            decreases metas0.len() - k,
        {
            let mut m = metas[k];
            m.offset = offset;
            proof {
                assert(flat.take(k + 1).drop_last() =~= flat.take(k as int));
                assert(flat.take(k + 1).last() == flat[k as int]);
            }
            offset = offset.wrapping_add(m.compressed_size);
            let mut mb = m.to_bytes();
            out.append(&mut mb);
            let ghost w = written@;
            written.push(m);
            assert(written@.drop_last() =~= w);
            k = k + 1;
        }
        // The data.
        let mut k: usize = 0;
        let ghost mid = out@;
        while k < datas.len()
            invariant
                datas@.len() == flat.len(),
                forall|j: int| 0 <= j < datas@.len() ==> (#[trigger] datas@[j])@ == spec_encode_column(flat[j].1).1,
                k <= flat.len(),
                out@ == mid + spec_data_bytes(flat.take(k as int)),
            decreases flat.len() - k,
        {
            assert(flat.take(k + 1).drop_last() =~= flat.take(k as int));
            append_bytes(&mut out, datas[k].as_slice());
            k = k + 1;
        }
        assert(flat.take(k as int) =~= flat);
        let total = out.len();
        proof {
            lemma_metas_len(written@, metas0);
            assert(header_len + spec_data_bytes(flat).len() <= u64::MAX);
            let spec_metas = spec_entry_metas(flat, stats_s, spec_header_len(spec_fields_view(batches@[0].schema.fields@), flat, stats_s));
            assert forall|j: int| 0 <= j < flat.len() implies (#[trigger] written@[j]) == spec_metas[j] by {
                lemma_data_bytes_prefix(flat, j);
            }
            assert(written@ =~= spec_metas);
        }
        out
    }
}

/// The columns of the first `b` batches are the first entries of all.
pub(crate) proof fn lemma_flat_take_len(bs: Seq<RecordBatch>, b: int)
    requires
        0 <= b <= bs.len(),
    ensures
        spec_flat_columns(bs.take(b)).len() <= spec_flat_columns(bs).len(),
        spec_flat_columns(bs).take(spec_flat_columns(bs.take(b)).len() as int) == spec_flat_columns(bs.take(b)),
    decreases bs.len(),
{
    if b < bs.len() {
        assert(bs.drop_last().take(b) =~= bs.take(b));
        lemma_flat_take_len(bs.drop_last(), b);
        let f = spec_flat_columns(bs.drop_last());
        let n = spec_flat_columns(bs.take(b)).len() as int;
        assert((f + spec_batch_columns(bs.last())).take(n) =~= f.take(n));
    } else {
        assert(bs.take(b) =~= bs);
    }
}

/// Reads `k` chunk metadata one after another from `pos`.
pub open spec fn spec_read_metas(b: Seq<u8>, pos: int, k: nat) -> Option<(Seq<ChunkMeta>, int)>
    decreases k,
{
    if k == 0 {
        Some((seq![], pos))
    } else {
        match spec_read_metas(b, pos, (k - 1) as nat) {
            Some((ms, p)) => match spec_read_meta(b, p) {
                Some((m, q)) => Some((ms.push(m), q)),
                None => None,
            },
            None => None,
        }
    }
}

/// The schema fields and chunk metadata in the header of a blob. Fewer
/// than eight bytes hold an empty header; `None` where the header runs out
/// or its schema cannot be read.
pub open spec fn spec_read_header(b: Seq<u8>) -> Option<(Seq<(Seq<char>, DataType, bool)>, Seq<ChunkMeta>)> {
    if b.len() < 8 {
        Some((seq![], seq![]))
    } else if b.len() < 12 {
        None
    } else {
        let slen = spec_u32_at(b, 8) as int;
        if 12 + slen + 4 > b.len() {
            None
        } else {
            match spec_read_schema(b.subrange(12, 12 + slen)) {
                Some(fields) => match spec_read_metas(b, 16 + slen, spec_u32_at(b, 12 + slen) as nat) {
                    Some((ms, _)) => Some((fields, ms)),
                    None => None,
                },
                None => None,
            }
        }
    }
}

/// Once reading the metadata fails, reading more of it fails too.
proof fn lemma_read_metas_fails(b: Seq<u8>, pos: int, k: nat, m: nat)
    requires
        spec_read_metas(b, pos, k) is None,
        k <= m,
    ensures
        spec_read_metas(b, pos, m) is None,
    decreases m - k,
{
    if k < m {
        lemma_read_metas_fails(b, pos, k + 1, m);
    }
}

/// Reads blobs.
pub struct BlobReader;

impl BlobReader {
    /// The schema and chunk metadata in the header of a blob; `None` where
    /// the header runs out or its schema cannot be read.
    pub fn read_header(bytes: &[u8]) -> (r: Option<(Schema, Vec<ChunkMeta>)>)
        ensures
            match spec_read_header(bytes@) {
                Some((fs, ms)) => r matches Some((s, v)) && spec_fields_view(s.fields@) == fs && v@ == ms,
                None => r is None,
            },
    {
        if bytes.len() < 8 {
            return Some((Schema { fields: Vec::new() }, Vec::new()));
        }
        if bytes.len() < 12 {
            return None;
        }
        let schema_len = read_u32(bytes, 8) as usize;
        if bytes.len() - 12 < schema_len || bytes.len() - 12 - schema_len < 4 {
            return None;
        }
        let schema = match deserialize_schema(vstd::slice::slice_subrange(bytes, 12, 12 + schema_len)) {
            Some(s) => s,
            None => {
                return None;
            },
        };
        let mut pos: usize = 12 + schema_len;
        let num_chunks = read_u32(bytes, pos);
        pos = pos + 4;
        let mut chunks: Vec<ChunkMeta> = Vec::new();
        let mut k: u32 = 0;
        while k < num_chunks
            invariant
                k <= num_chunks,
                bytes@.len() >= 12,
                schema_len == spec_u32_at(bytes@, 8),
                12 + schema_len + 4 <= bytes@.len(),
                num_chunks == spec_u32_at(bytes@, 12 + schema_len),
                spec_read_schema(bytes@.subrange(12, 12 + schema_len)) == Some(spec_fields_view(schema.fields@)),
                spec_read_metas(bytes@, 16 + schema_len, k as nat) == Some((chunks@, pos as int)),
            decreases num_chunks - k,
        {
            let ghost k1 = (k + 1) as nat;
            assert(spec_read_metas(bytes@, 16 + schema_len, k1) == match spec_read_meta(bytes@, pos as int) {
                Some((m, q)) => Some((chunks@.push(m), q)),
                None => None::<(Seq<ChunkMeta>, int)>,
            });
            match read_meta_at(bytes, pos) {
                Some((m, p)) => {
                    chunks.push(m);
                    pos = p;
                },
                None => {
                    proof {
                        lemma_read_metas_fails(bytes@, 16 + schema_len, (k + 1) as nat, num_chunks as nat);
                    }
                    return None;
                },
            }
            k = k + 1;
        }
        Some((schema, chunks))
    }
}

/// Metadata read back from their bytes, wherever they stand.
proof fn lemma_read_metas(ms: Seq<ChunkMeta>, pre: Seq<u8>, rest: Seq<u8>)
    ensures
        spec_read_metas(pre + spec_metas_bytes(ms) + rest, pre.len() as int, ms.len()) == Some((
            ms,
            (pre.len() + spec_metas_bytes(ms).len()) as int,
        )),
    decreases ms.len(),
{
    if ms.len() > 0 {
        let init = ms.drop_last();
        let last = ms.last();
        let b = pre + spec_metas_bytes(ms) + rest;
        assert(b =~= pre + spec_metas_bytes(init) + (spec_meta_bytes(last) + rest));
        lemma_read_metas(init, pre, spec_meta_bytes(last) + rest);
        assert(b =~= (pre + spec_metas_bytes(init)) + spec_meta_bytes(last) + rest);
        lemma_meta_roundtrip_at(last, pre + spec_metas_bytes(init), rest);
        assert(init.push(last) =~= ms);
    }
}

/// The header of a written blob reads back as its schema and the metadata
/// of every chunk, where the schema's bytes, its fields, the names' bytes
/// and the chunks are each fewer than 2^32.
pub proof fn lemma_blob_header_roundtrip(
    fields: Seq<(Seq<char>, DataType, bool)>,
    flat: Seq<(int, ColumnValues)>,
    stats: Seq<ColumnStats>,
)
    requires
        fields.len() <= u32::MAX,
        forall|i: int| 0 <= i < fields.len() ==> encode_utf8(#[trigger] fields[i].0).len() <= u32::MAX,
        spec_schema_bytes(fields).len() <= u32::MAX,
        flat.len() <= u32::MAX,
    ensures
        spec_read_header(spec_blob(fields, flat, stats)) == Some((
            fields,
            spec_entry_metas(flat, stats, spec_header_len(fields, flat, stats)),
        )),
{
    let schema = spec_schema_bytes(fields);
    let slen = schema.len() as int;
    let n = flat.len();
    let prefix = spec_blob_prefix(fields, n);
    let ms = spec_entry_metas(flat, stats, spec_header_len(fields, flat, stats));
    let b = spec_blob(fields, flat, stats);
    lemma_le_lens(0, VERSION, 0);
    lemma_le_lens(0, slen as u32, 0);
    lemma_le_lens(0, n as u32, 0);
    assert(prefix.len() == 16 + slen);
    assert(b.subrange(8, 12) =~= spec_u32_to_le_bytes(slen as u32));
    lemma_u32_at(slen as u32, b, 8);
    assert(b.subrange(12, 12 + slen) =~= schema);
    lemma_schema_roundtrip(fields);
    assert(b.subrange(12 + slen, 16 + slen) =~= spec_u32_to_le_bytes(n as u32));
    lemma_u32_at(n as u32, b, 12 + slen);
    lemma_read_metas(ms, prefix, spec_data_bytes(flat));
}

/// Whether the data of a chunk lies within a blob of `len` bytes.
pub open spec fn spec_in_blob(m: ChunkMeta, len: int) -> bool {
    m.offset + m.compressed_size <= len
}

/// `s` with `x` put before its first entry not below `x`, unless that
/// entry is `x`: on an ascending sequence without repeats, the same with
/// `x` added.
pub open spec fn spec_insert_key(s: Seq<u32>, x: u32) -> Seq<u32>
    decreases s.len(),
{
    if s.len() == 0 {
        seq![x]
    } else if x < s[0] {
        seq![x] + s
    } else if x == s[0] {
        s
    } else {
        seq![s[0]] + spec_insert_key(s.drop_first(), x)
    }
}

/// The chunk indices of the chunks whose data lies within the blob,
/// ascending, each once.
pub open spec fn spec_chunk_keys(ms: Seq<ChunkMeta>, len: int) -> Seq<u32>
    decreases ms.len(),
{
    if ms.len() == 0 {
        seq![]
    } else if spec_in_blob(ms.last(), len) {
        spec_insert_key(spec_chunk_keys(ms.drop_last(), len), ms.last().chunk_idx)
    } else {
        spec_chunk_keys(ms.drop_last(), len)
    }
}

/// `s` with `m` put after its last entry whose column index is at most
/// that of `m`: a stable insertion by column index.
pub open spec fn spec_insert_by_col(s: Seq<ChunkMeta>, m: ChunkMeta) -> Seq<ChunkMeta>
    decreases s.len(),
{
    if s.len() == 0 {
        seq![m]
    } else if m.col_idx < s.last().col_idx {
        spec_insert_by_col(s.drop_last(), m).push(s.last())
    } else {
        s.push(m)
    }
}

/// The chunks of index `g` whose data lies within the blob, by column
/// index, in blob order among equal column indices.
pub open spec fn spec_group(ms: Seq<ChunkMeta>, len: int, g: u32) -> Seq<ChunkMeta>
    decreases ms.len(),
{
    if ms.len() == 0 {
        seq![]
    } else if spec_in_blob(ms.last(), len) && ms.last().chunk_idx == g {
        spec_insert_by_col(spec_group(ms.drop_last(), len, g), ms.last())
    } else {
        spec_group(ms.drop_last(), len, g)
    }
}

/// The type of the values of a column.
pub open spec fn spec_values_type(v: ColumnValues) -> DataType {
    match v {
        ColumnValues::Int64(_) => DataType::Int64,
        ColumnValues::Float64(_) => DataType::Float64,
        ColumnValues::Utf8(_) => DataType::Utf8,
        ColumnValues::Timestamp(_) => DataType::Timestamp,
    }
}

/// The column that a chunk within the blob holds: the field of its column
/// index and its decoded values. `None` where the column index has no
/// field, the data does not decode, or the values are not of the field's
/// type.
pub open spec fn spec_chunk_column(b: Seq<u8>, fields: Seq<(Seq<char>, DataType, bool)>, m: ChunkMeta) -> Option<((Seq<char>, DataType, bool), ColumnValues)> {
    if m.col_idx >= fields.len() {
        None
    } else {
        match spec_decode_column(
            m.encoding,
            b.subrange(m.offset as int, m.offset + m.compressed_size),
            (m.uncompressed_size as usize) as nat,
        ) {
            Some(v) => if spec_values_type(v) == fields[m.col_idx as int].1 {
                Some((fields[m.col_idx as int], v))
            } else {
                None
            },
            None => None,
        }
    }
}

/// The columns of a group of chunks, in order; `None` where one of them
/// cannot be read.
pub open spec fn spec_group_columns(b: Seq<u8>, fields: Seq<(Seq<char>, DataType, bool)>, group: Seq<ChunkMeta>) -> Option<Seq<((Seq<char>, DataType, bool), ColumnValues)>>
    decreases group.len(),
{
    if group.len() == 0 {
        Some(seq![])
    } else {
        match (spec_group_columns(b, fields, group.drop_last()), spec_chunk_column(b, fields, group.last())) {
            (Some(cs), Some(c)) => Some(cs.push(c)),
            _ => None,
        }
    }
}

/// Whether all the columns have as many values as the first.
pub open spec fn spec_same_len(cs: Seq<((Seq<char>, DataType, bool), ColumnValues)>) -> bool {
    forall|j: int| 0 <= j < cs.len() ==> spec_values_len(#[trigger] cs[j].1) == spec_values_len(cs[0].1)
}

/// The batch of each chunk index of a blob, ascending: the columns of its
/// chunks. `None` where a column cannot be read or the columns of a batch
/// differ in length.
pub open spec fn spec_read_batches(b: Seq<u8>, fields: Seq<(Seq<char>, DataType, bool)>, ms: Seq<ChunkMeta>, keys: Seq<u32>) -> Option<Seq<Seq<((Seq<char>, DataType, bool), ColumnValues)>>>
    decreases keys.len(),
{
    if keys.len() == 0 {
        Some(seq![])
    } else {
        match (spec_read_batches(b, fields, ms, keys.drop_last()), spec_group_columns(b, fields, spec_group(ms, b.len() as int, keys.last()))) {
            (Some(bs), Some(cs)) => if spec_same_len(cs) {
                Some(bs.push(cs))
            } else {
                None
            },
            _ => None,
        }
    }
}

/// Whether a batch holds the given columns under the given schema fields.
pub open spec fn spec_batch_is(batch: RecordBatch, fields: Seq<(Seq<char>, DataType, bool)>, cs: Seq<((Seq<char>, DataType, bool), ColumnValues)>) -> bool {
    &&& spec_fields_view(batch.schema.fields@) == fields
    &&& batch.columns@.len() == cs.len()
    &&& forall|j: int|
        0 <= j < cs.len() ==> spec_field_view((#[trigger] batch.columns@[j]).field) == cs[j].0 && batch.columns@[j].data@
            == cs[j].1
}

/// Adds `x` to ascending `keys` without repeats.
fn insert_key(keys: &mut Vec<u32>, x: u32)
    ensures
        final(keys)@ == spec_insert_key(old(keys)@, x),
{
    let ghost s = keys@;
    let mut i: usize = 0;
    assert(s.take(0) + s.skip(0) =~= s);
    assert(s.take(0) + spec_insert_key(s.skip(0), x) =~= spec_insert_key(s, x));
    while i < keys.len() && keys[i] < x
        invariant
            keys@ == s,
            i <= s.len(),
            forall|j: int| 0 <= j < i ==> s[j] < x,
            spec_insert_key(s, x) == s.take(i as int) + spec_insert_key(s.skip(i as int), x),
        decreases s.len() - i,
    {
        proof {
            assert(s.skip(i as int).drop_first() =~= s.skip(i + 1));
            assert(s.take(i + 1) =~= s.take(i as int) + seq![s[i as int]]);
            assert(spec_insert_key(s.skip(i as int), x) == seq![s[i as int]] + spec_insert_key(s.skip(i + 1), x));
            assert(s.take(i as int) + (seq![s[i as int]] + spec_insert_key(s.skip(i + 1), x)) =~= s.take(i + 1) + spec_insert_key(s.skip(i + 1), x));
        }
        i = i + 1;
    }
    if i < keys.len() && keys[i] == x {
        assert(s.take(i as int) + s.skip(i as int) =~= s);
    } else {
        proof {
            if i < s.len() {
                assert(spec_insert_key(s.skip(i as int), x) == seq![x] + s.skip(i as int));
            } else {
                assert(s.skip(i as int) =~= Seq::<u32>::empty());
            }
        }
        keys.insert(i, x);
        assert(keys@ =~= s.take(i as int) + spec_insert_key(s.skip(i as int), x));
    }
}

/// Inserts `m` into `group` after its last entry of a column index at most
/// that of `m`.
pub(crate) fn insert_by_col(group: &mut Vec<ChunkMeta>, m: ChunkMeta)
    ensures
        final(group)@ == spec_insert_by_col(old(group)@, m),
{
    let ghost s = group@;
    let mut p: usize = group.len();
    assert(s.take(p as int) =~= s);
    assert(spec_insert_by_col(s.take(p as int), m) + s.skip(p as int) =~= spec_insert_by_col(s, m));
    while p > 0 && m.col_idx < group[p - 1].col_idx
        invariant
            group@ == s,
            p <= s.len(),
            spec_insert_by_col(s, m) == spec_insert_by_col(s.take(p as int), m) + s.skip(p as int),
        decreases p,
    {
        proof {
            assert(s.take(p as int).drop_last() =~= s.take(p - 1));
            assert(s.take(p as int).last() == s[p - 1]);
            assert(spec_insert_by_col(s.take(p - 1), m).push(s[p - 1]) + s.skip(p as int) =~= spec_insert_by_col(s.take(p - 1), m) + s.skip(p - 1));
        }
        p = p - 1;
    }
    group.insert(p, m);
    if p == 0 {
        assert(s.take(0) =~= Seq::<ChunkMeta>::empty());
    }
    assert(group@ =~= spec_insert_by_col(s.take(p as int), m) + s.skip(p as int));
}

impl BlobReader {
    /// The batches of a blob, one per chunk index, ascending: the chunks of
    /// an index whose data lies within the blob, by column index, decoded
    /// under the blob's schema. `None` where the header cannot be read, a
    /// column cannot, or the columns of a batch differ in length.
    pub fn read_all(bytes: &[u8]) -> (r: Option<Vec<RecordBatch>>)
        ensures
            match spec_read_header(bytes@) {
                None => r is None,
                Some((fs, ms)) => if ms.len() == 0 {
                    r matches Some(v) && v@.len() == 0
                } else {
                    match spec_read_batches(bytes@, fs, ms, spec_chunk_keys(ms, bytes@.len() as int)) {
                        Some(bs) => r matches Some(v) && v@.len() == bs.len() && forall|i: int|
                            0 <= i < bs.len() ==> spec_batch_is(#[trigger] v@[i], fs, bs[i]),
                        None => r is None,
                    }
                },
            },
    {
        let (schema, chunks) = match Self::read_header(bytes) {
            Some(h) => h,
            None => {
                return None;
            },
        };
        if chunks.len() == 0 {
            return Some(Vec::new());
        }
        let ghost b = bytes@;
        let ghost len = b.len() as int;
        let ghost ms = chunks@;
        let ghost fields = spec_fields_view(schema.fields@);
        let blen = bytes.len();
        let len64 = bytes.len() as u64;
        let mut keys: Vec<u32> = Vec::new();
        let mut i: usize = 0;
        while i < chunks.len()
            invariant
                ms == chunks@,
                len == bytes@.len(),
                len64 == len,
                i <= ms.len(),
                keys@ == spec_chunk_keys(ms.take(i as int), len),
            decreases ms.len() - i,
        {
            let m = chunks[i];
            assert(ms.take(i + 1).drop_last() =~= ms.take(i as int));
            assert(ms.take(i + 1).last() == m);
            if m.offset <= len64 && m.compressed_size <= len64 - m.offset {
                insert_key(&mut keys, m.chunk_idx);
            }
            i = i + 1;
        }
        assert(ms.take(i as int) =~= ms);
        let ghost ks = keys@;
        let mut batches: Vec<RecordBatch> = Vec::new();
        let ghost mut out: Seq<Seq<((Seq<char>, DataType, bool), ColumnValues)>> = seq![];
        let mut g: usize = 0;
        while g < keys.len()
            invariant
                ms == chunks@,
                fields == spec_fields_view(schema.fields@),
                spec_read_header(bytes@) == Some((fields, ms)),
                ms.len() > 0,
                ks == spec_chunk_keys(ms, len),
                b == bytes@,
                len == b.len(),
                len64 == len,
                blen == len,
                ks == keys@,
                g <= ks.len(),
                spec_read_batches(b, fields, ms, ks.take(g as int)) == Some(out),
                batches@.len() == out.len(),
                forall|j: int| 0 <= j < out.len() ==> spec_batch_is(#[trigger] batches@[j], fields, out[j]),
            decreases ks.len() - g,
        {
            let key = keys[g];
            // The chunks of this index, by column index.
            let mut group: Vec<ChunkMeta> = Vec::new();
            let mut i: usize = 0;
            while i < chunks.len()
                invariant
                    ms == chunks@,
                    len == bytes@.len(),
                    len64 == len,
                    i <= ms.len(),
                    group@ == spec_group(ms.take(i as int), len, key),
                decreases ms.len() - i,
            {
                let m = chunks[i];
                assert(ms.take(i + 1).drop_last() =~= ms.take(i as int));
                assert(ms.take(i + 1).last() == m);
                if m.offset <= len64 && m.compressed_size <= len64 - m.offset && m.chunk_idx == key {
                    insert_by_col(&mut group, m);
                }
                i = i + 1;
            }
            assert(ms.take(i as int) =~= ms);
            // Its columns.
            let mut columns: Vec<Column> = Vec::new();
            let ghost mut cs: Seq<((Seq<char>, DataType, bool), ColumnValues)> = seq![];
            proof {
                lemma_group_in_blob(ms, len, key);
            }
            let mut j: usize = 0;
            while j < group.len()
                invariant
                    fields == spec_fields_view(schema.fields@),
                    spec_read_header(bytes@) == Some((fields, ms)),
                    ms.len() > 0,
                    ks == spec_chunk_keys(ms, len),
                    g < ks.len(),
                    key == ks[g as int],
                    spec_read_batches(b, fields, ms, ks.take(g as int)) == Some(out),
                    b == bytes@,
                    len == b.len(),
                    blen == len,
                    group@ == spec_group(ms, len, key),
                    j <= group@.len(),
                    forall|q: int| 0 <= q < group@.len() ==> spec_in_blob(#[trigger] group@[q], len),
                    spec_group_columns(b, fields, group@.take(j as int)) == Some(cs),
                    columns@.len() == cs.len(),
                    forall|q: int| 0 <= q < cs.len() ==> spec_field_view((#[trigger] columns@[q]).field) == cs[q].0 && columns@[q].data@ == cs[q].1,
                decreases group@.len() - j,
            {
                let m = group[j];
                assert(group@.take(j + 1).drop_last() =~= group@.take(j as int));
                assert(group@.take(j + 1).last() == m);
                assert(spec_in_blob(m, len));
                if m.col_idx as usize >= schema.fields.len() {
                    proof {
                        lemma_group_columns_fails(b, fields, group@, (j + 1) as int);
                        assert(ks.take(g + 1).drop_last() =~= ks.take(g as int));
                        lemma_read_batches_fails(b, fields, ms, ks, (g + 1) as int);
                    }
                    return None;
                }
                if m.encoding < 1 || m.encoding > 6 {
                    proof {
                        lemma_group_columns_fails(b, fields, group@, (j + 1) as int);
                        assert(ks.take(g + 1).drop_last() =~= ks.take(g as int));
                        lemma_read_batches_fails(b, fields, ms, ks, (g + 1) as int);
                    }
                    return None;
                }
                let start = m.offset as usize;
                let end = start + m.compressed_size as usize;
                let data = vstd::slice::slice_subrange(bytes, start, end);
                let decoded = match decode_column(m.encoding, data, m.uncompressed_size as usize) {
                    Some(d) => d,
                    None => {
                        proof {
                            lemma_group_columns_fails(b, fields, group@, (j + 1) as int);
                        assert(ks.take(g + 1).drop_last() =~= ks.take(g as int));
                        lemma_read_batches_fails(b, fields, ms, ks, (g + 1) as int);
                        }
                        return None;
                    },
                };
                let field = schema.fields[m.col_idx as usize].clone();
                if field.data_type != decoded.data_type() {
                    proof {
                        lemma_group_columns_fails(b, fields, group@, (j + 1) as int);
                        assert(ks.take(g + 1).drop_last() =~= ks.take(g as int));
                        lemma_read_batches_fails(b, fields, ms, ks, (g + 1) as int);
                    }
                    return None;
                }
                proof {
                    cs = cs.push((spec_field_view(field), decoded@));
                }
                columns.push(Column::new(field, decoded));
                j = j + 1;
            }
            assert(group@.take(j as int) =~= group@);
            // The batch, where its columns agree in length.
            let mut same = true;
            let mut q: usize = 0;
            while q < columns.len()
                invariant
                    columns@.len() == cs.len(),
                    q <= cs.len(),
                    forall|t: int| 0 <= t < cs.len() ==> (#[trigger] columns@[t]).data@ == cs[t].1,
                    same == forall|t: int| 0 <= t < q ==> spec_values_len(#[trigger] cs[t].1) == spec_values_len(cs[0].1),
                decreases cs.len() - q,
            {
                if columns[q].data.len() != columns[0].data.len() {
                    same = false;
                }
                q = q + 1;
            }
            assert(ks.take(g + 1).drop_last() =~= ks.take(g as int));
            assert(ks.take(g + 1).last() == key);
            if !same {
                proof {
                    lemma_read_batches_fails(b, fields, ms, ks, (g + 1) as int);
                }
                return None;
            }
            batches.push(RecordBatch::new(schema.clone(), columns));
            proof {
                out = out.push(cs);
            }
            g = g + 1;
        }
        assert(ks.take(g as int) =~= ks);
        Some(batches)
    }
}

proof fn lemma_group_columns_fails(b: Seq<u8>, fields: Seq<(Seq<char>, DataType, bool)>, group: Seq<ChunkMeta>, j: int)
    requires
        0 < j <= group.len(),
        spec_group_columns(b, fields, group.take(j)) is None,
    ensures
        spec_group_columns(b, fields, group) is None,
    decreases group.len() - j,
{
    if j < group.len() {
        assert(group.take(j + 1).drop_last() =~= group.take(j));
        lemma_group_columns_fails(b, fields, group, j + 1);
    } else {
        assert(group.take(j) =~= group);
    }
}

proof fn lemma_read_batches_fails(b: Seq<u8>, fields: Seq<(Seq<char>, DataType, bool)>, ms: Seq<ChunkMeta>, keys: Seq<u32>, g: int)
    requires
        0 < g <= keys.len(),
        spec_read_batches(b, fields, ms, keys.take(g)) is None,
    ensures
        spec_read_batches(b, fields, ms, keys) is None,
    decreases keys.len() - g,
{
    if g < keys.len() {
        assert(keys.take(g + 1).drop_last() =~= keys.take(g));
        lemma_read_batches_fails(b, fields, ms, keys, g + 1);
    } else {
        assert(keys.take(g) =~= keys);
    }
}

proof fn lemma_insert_by_col_in_blob(s: Seq<ChunkMeta>, m: ChunkMeta, len: int)
    requires
        forall|q: int| 0 <= q < s.len() ==> spec_in_blob(#[trigger] s[q], len),
        spec_in_blob(m, len),
    ensures
        forall|q: int| 0 <= q < spec_insert_by_col(s, m).len() ==> spec_in_blob(#[trigger] spec_insert_by_col(s, m)[q], len),
    decreases s.len(),
{
    if s.len() > 0 && m.col_idx < s.last().col_idx {
        let init = s.drop_last();
        assert forall|q: int| 0 <= q < init.len() implies spec_in_blob(#[trigger] init[q], len) by {
            assert(init[q] == s[q]);
        }
        lemma_insert_by_col_in_blob(init, m, len);
        assert(s.last() == s[s.len() - 1]);
        let r = spec_insert_by_col(init, m).push(s.last());
        assert forall|q: int| 0 <= q < r.len() implies spec_in_blob(#[trigger] r[q], len) by {
            if q < r.len() - 1 {
                assert(r[q] == spec_insert_by_col(init, m)[q]);
            }
        }
    } else if s.len() > 0 {
        let r = s.push(m);
        assert forall|q: int| 0 <= q < r.len() implies spec_in_blob(#[trigger] r[q], len) by {
            if q < s.len() {
                assert(r[q] == s[q]);
            }
        }
    }
}

/// The chunks of a group lie within the blob.
proof fn lemma_group_in_blob(ms: Seq<ChunkMeta>, len: int, g: u32)
    ensures
        forall|q: int| 0 <= q < spec_group(ms, len, g).len() ==> spec_in_blob(#[trigger] spec_group(ms, len, g)[q], len),
    decreases ms.len(),
{
    if ms.len() > 0 {
        lemma_group_in_blob(ms.drop_last(), len, g);
        if spec_in_blob(ms.last(), len) && ms.last().chunk_idx == g {
            lemma_insert_by_col_in_blob(spec_group(ms.drop_last(), len, g), ms.last(), len);
        }
    }
}

} // verus!
