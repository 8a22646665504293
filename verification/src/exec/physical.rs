//! The row and column selections that the physical operators apply to
//! batches, and the decoding of one chunk of a blob into columns.
use vstd::prelude::*;
use crate::exec::batch::{Column, ColumnData, ColumnValues, RecordBatch, spec_all_len};
use crate::schema::{DataType, Field, Schema, clone_fields, spec_index_of};
use crate::storage::chunk::ChunkMeta;
use crate::storage::encoding::{decode_column, spec_decode_column, spec_values_len};
use crate::storage::format::{spec_insert_by_col, spec_values_type, insert_by_col, spec_in_blob, spec_group_columns};
use crate::schema::{spec_fields_view, spec_field_view};
use crate::text::spec_views;

verus! {

/// Whether every column of the batch has `num_rows` values of its field's
/// type.
pub open spec fn spec_batch_wf(b: RecordBatch) -> bool {
    &&& spec_all_len(b.columns@, b.num_rows as nat)
    &&& forall|j: int| 0 <= j < b.columns@.len() ==> (#[trigger] b.columns@[j]).field.data_type == b.columns@[j].data.spec_data_type()
}

/// The values at the positions where the mask holds, in order.
pub open spec fn spec_select<T>(values: Seq<T>, mask: Seq<bool>) -> Seq<T>
    decreases values.len(),
{
    if values.len() == 0 {
        seq![]
    } else {
        let init = spec_select(values.drop_last(), mask);
        if mask[values.len() - 1] {
            init.push(values.last())
        } else {
            init
        }
    }
}

/// The column's values at the positions where the mask holds.
pub open spec fn spec_select_values(data: ColumnValues, mask: Seq<bool>) -> ColumnValues {
    match data {
        ColumnValues::Int64(v) => ColumnValues::Int64(spec_select(v, mask)),
        ColumnValues::Float64(v) => ColumnValues::Float64(spec_select(v, mask)),
        ColumnValues::Utf8(v) => ColumnValues::Utf8(spec_select(v, mask)),
        ColumnValues::Timestamp(v) => ColumnValues::Timestamp(spec_select(v, mask)),
    }
}

/// How many of the first `n` mask positions hold.
pub open spec fn spec_count_true(mask: Seq<bool>, n: int) -> nat
    decreases n,
{
    if n <= 0 {
        0
    } else {
        spec_count_true(mask, n - 1) + if mask[n - 1] {
            1nat
        } else {
            0nat
        }
    }
}

proof fn lemma_select_len<T>(values: Seq<T>, mask: Seq<bool>)
    ensures
        spec_select(values, mask).len() == spec_count_true(mask, values.len() as int),
    decreases values.len(),
{
    if values.len() > 0 {
        lemma_select_len(values.drop_last(), mask);
    }
}

fn select_i64(v: &Vec<i64>, mask: &[bool]) -> (r: Vec<i64>)
    requires
        mask@.len() >= v@.len(),
    ensures
        r@ == spec_select(v@, mask@),
{
    let mut r: Vec<i64> = Vec::new();
    let mut i: usize = 0;
    while i < v.len()
        invariant
            i <= v@.len() <= mask@.len(),
            r@ == spec_select(v@.take(i as int), mask@),
        decreases v@.len() - i,
    {
        assert(v@.take(i + 1).drop_last() =~= v@.take(i as int));
        if mask[i] {
            r.push(v[i]);
        }
        i = i + 1;
    }
    assert(v@.take(i as int) =~= v@);
    r
}

fn select_u64(v: &Vec<u64>, mask: &[bool]) -> (r: Vec<u64>)
    requires
        mask@.len() >= v@.len(),
    ensures
        r@ == spec_select(v@, mask@),
{
    let mut r: Vec<u64> = Vec::new();
    let mut i: usize = 0;
    while i < v.len()
        invariant
            i <= v@.len() <= mask@.len(),
            r@ == spec_select(v@.take(i as int), mask@),
        decreases v@.len() - i,
    {
        assert(v@.take(i + 1).drop_last() =~= v@.take(i as int));
        if mask[i] {
            r.push(v[i]);
        }
        i = i + 1;
    }
    assert(v@.take(i as int) =~= v@);
    r
}

fn select_strings(v: &Vec<String>, mask: &[bool]) -> (r: Vec<String>)
    requires
        mask@.len() >= v@.len(),
    ensures
        r@.map_values(|s: String| s@) == spec_select(v@.map_values(|s: String| s@), mask@),
{
    let ghost vv = v@.map_values(|s: String| s@);
    let mut r: Vec<String> = Vec::new();
    let mut i: usize = 0;
    while i < v.len()
        invariant
            i <= v@.len() <= mask@.len(),
            vv == v@.map_values(|s: String| s@),
            r@.map_values(|s: String| s@) == spec_select(vv.take(i as int), mask@),
        decreases v@.len() - i,
    {
        assert(vv.take(i + 1).drop_last() =~= vv.take(i as int));
        if mask[i] {
            let ghost before = r@.map_values(|s: String| s@);
            r.push(v[i].clone());
            assert(r@.map_values(|s: String| s@) =~= before.push(vv[i as int]));
        }
        i = i + 1;
    }
    assert(vv.take(i as int) =~= vv);
    r
}

/// The column's values at the positions where the mask holds.
pub fn filter_column_data(data: &ColumnData, mask: &[bool]) -> (r: ColumnData)
    requires
        mask@.len() >= data.spec_len(),
    ensures
        r@ == spec_select_values(data@, mask@),
        r.spec_len() == spec_count_true(mask@, data.spec_len() as int),
        r.spec_data_type() == data.spec_data_type(),
{
    let r = match data {
        ColumnData::Int64(v) => ColumnData::Int64(select_i64(v, mask)),
        ColumnData::Float64(v) => ColumnData::Float64(select_u64(v, mask)),
        ColumnData::Utf8(v) => ColumnData::Utf8(select_strings(v, mask)),
        ColumnData::Timestamp(v) => ColumnData::Timestamp(select_i64(v, mask)),
    };
    proof {
        match data {
            ColumnData::Int64(v) => lemma_select_len(v@, mask@),
            ColumnData::Float64(v) => lemma_select_len(v@, mask@),
            ColumnData::Utf8(v) => lemma_select_len(v@.map_values(|s: String| s@), mask@),
            ColumnData::Timestamp(v) => lemma_select_len(v@, mask@),
        }
    }
    r
}

/// The batch's rows where the mask holds: each column keeps its field and
/// its values at those positions.
pub fn filter_batch(batch: &RecordBatch, mask: &[bool]) -> (r: RecordBatch)
    requires
        spec_batch_wf(*batch),
        mask@.len() >= batch.num_rows,
    ensures
        r.schema.fields@ == batch.schema.fields@,
        r.columns@.len() == batch.columns@.len(),
        forall|j: int|
            0 <= j < r.columns@.len() ==> (#[trigger] r.columns@[j]).field == batch.columns@[j].field && r.columns@[j].data@
                == spec_select_values(batch.columns@[j].data@, mask@),
        r.columns@.len() > 0 ==> r.num_rows == spec_count_true(mask@, batch.num_rows as int),
{
    let mut new_cols: Vec<Column> = Vec::new();
    let mut i: usize = 0;
    while i < batch.columns.len()
        invariant
            i <= batch.columns@.len(),
            spec_batch_wf(*batch),
            mask@.len() >= batch.num_rows,
            new_cols@.len() == i,
            forall|j: int|
                0 <= j < i ==> (#[trigger] new_cols@[j]).field == batch.columns@[j].field && new_cols@[j].data@
                    == spec_select_values(batch.columns@[j].data@, mask@) && new_cols@[j].data.spec_len() == spec_count_true(
                    mask@,
                    batch.num_rows as int,
                ) && new_cols@[j].field.data_type == new_cols@[j].data.spec_data_type(),
        decreases batch.columns@.len() - i,
    {
        let col = &batch.columns[i];
        let data = filter_column_data(&col.data, mask);
        let field = col.field.clone();
        new_cols.push(Column::new(field, data));
        i = i + 1;
    }
    let schema = Schema { fields: clone_fields(&batch.schema.fields) };
    RecordBatch::new(schema, new_cols)
}

fn copy_i64(v: &Vec<i64>) -> (r: Vec<i64>)
    ensures
        r@ == v@,
{
    let mut r: Vec<i64> = Vec::new();
    let mut i: usize = 0;
    while i < v.len()
        invariant
            i <= v@.len(),
            r@ == v@.take(i as int),
        decreases v@.len() - i,
    {
        r.push(v[i]);
        i = i + 1;
        assert(r@ =~= v@.take(i as int));
    }
    assert(v@.take(i as int) =~= v@);
    r
}

fn copy_u64(v: &Vec<u64>) -> (r: Vec<u64>)
    ensures
        r@ == v@,
{
    let mut r: Vec<u64> = Vec::new();
    let mut i: usize = 0;
    while i < v.len()
        invariant
            i <= v@.len(),
            r@ == v@.take(i as int),
        decreases v@.len() - i,
    {
        r.push(v[i]);
        i = i + 1;
        assert(r@ =~= v@.take(i as int));
    }
    assert(v@.take(i as int) =~= v@);
    r
}

fn copy_strings(v: &Vec<String>) -> (r: Vec<String>)
    ensures
        r@ == v@,
{
    let mut r: Vec<String> = Vec::new();
    let mut i: usize = 0;
    while i < v.len()
        invariant
            i <= v@.len(),
            r@ == v@.take(i as int),
        decreases v@.len() - i,
    {
        r.push(v[i].clone());
        i = i + 1;
        assert(r@ =~= v@.take(i as int));
    }
    assert(v@.take(i as int) =~= v@);
    r
}

/// A copy of a column.
pub fn copy_column(c: &Column) -> (r: Column)
    ensures
        r.field == c.field,
        r.data@ == c.data@,
        r.data.spec_len() == c.data.spec_len(),
        r.data.spec_data_type() == c.data.spec_data_type(),
{
    let data = match &c.data {
        ColumnData::Int64(v) => ColumnData::Int64(copy_i64(v)),
        ColumnData::Float64(v) => ColumnData::Float64(copy_u64(v)),
        ColumnData::Utf8(v) => ColumnData::Utf8(copy_strings(v)),
        ColumnData::Timestamp(v) => ColumnData::Timestamp(copy_i64(v)),
    };
    Column { field: c.field.clone(), data }
}

/// Whether `a` holds what `b` holds: the same fields, row count and values.
pub open spec fn spec_same_batch(a: RecordBatch, b: RecordBatch) -> bool {
    &&& a.schema.fields@ == b.schema.fields@
    &&& a.num_rows == b.num_rows
    &&& a.columns@.len() == b.columns@.len()
    &&& forall|j: int|
        0 <= j < a.columns@.len() ==> (#[trigger] a.columns@[j]).field == b.columns@[j].field && a.columns@[j].data@
            == b.columns@[j].data@ && a.columns@[j].data.spec_len() == b.columns@[j].data.spec_len()
            && a.columns@[j].data.spec_data_type() == b.columns@[j].data.spec_data_type()
}

/// A copy of a batch.
pub fn copy_batch(b: &RecordBatch) -> (r: RecordBatch)
    ensures
        spec_same_batch(r, *b),
{
    let mut columns: Vec<Column> = Vec::new();
    let mut j: usize = 0;
    while j < b.columns.len()
        invariant
            j <= b.columns@.len(),
            columns@.len() == j,
            forall|k: int|
                0 <= k < j ==> (#[trigger] columns@[k]).field == b.columns@[k].field && columns@[k].data@
                    == b.columns@[k].data@ && columns@[k].data.spec_len() == b.columns@[k].data.spec_len()
                    && columns@[k].data.spec_data_type() == b.columns@[k].data.spec_data_type(),
        decreases b.columns@.len() - j,
    {
        columns.push(copy_column(&b.columns[j]));
        j = j + 1;
    }
    RecordBatch { schema: b.schema.clone(), columns, num_rows: b.num_rows }
}

/// Copies of batches.
pub fn copy_batches(bs: &Vec<RecordBatch>) -> (r: Vec<RecordBatch>)
    ensures
        r@.len() == bs@.len(),
        forall|i: int| 0 <= i < bs@.len() ==> spec_same_batch(#[trigger] r@[i], bs@[i]),
{
    let mut r: Vec<RecordBatch> = Vec::new();
    let mut i: usize = 0;
    while i < bs.len()
        invariant
            i <= bs@.len(),
            r@.len() == i,
            forall|k: int| 0 <= k < i ==> spec_same_batch(#[trigger] r@[k], bs@[k]),
        decreases bs@.len() - i,
    {
        r.push(copy_batch(&bs[i]));
        i = i + 1;
    }
    r
}

/// The positions in the schema of the names it has, in the order of the
/// names.
pub open spec fn spec_project_indices(fields: Seq<Field>, names: Seq<Seq<char>>) -> Seq<int>
    decreases names.len(),
{
    if names.len() == 0 {
        seq![]
    } else {
        let init = spec_project_indices(fields, names.drop_last());
        match spec_index_of(fields, names.last()) {
            Some(i) => init.push(i),
            None => init,
        }
    }
}

/// The batch reduced to the named columns the schema has, in the order of
/// the names: each keeps its column, and the schema keeps its field.
pub fn project_batch(batch: &RecordBatch, names: &Vec<String>) -> (r: RecordBatch)
    requires
        spec_all_len(batch.columns@, batch.num_rows as nat),
        forall|k: int|
            0 <= k < names@.len() ==> (spec_index_of(batch.schema.fields@, #[trigger] names@[k]@) matches Some(i) ==> i
                < batch.columns@.len()),
    ensures
        ({
            let idx = spec_project_indices(batch.schema.fields@, spec_views(names@));
            &&& r.columns@.len() == idx.len()
            &&& r.schema.fields@.len() == idx.len()
            &&& forall|j: int|
                0 <= j < idx.len() ==> (#[trigger] r.columns@[j]).field == batch.columns@[idx[j]].field
                    && r.columns@[j].data@ == batch.columns@[idx[j]].data@ && r.schema.fields@[j]
                    == batch.schema.fields@[idx[j]]
        }),
{
    let ghost fs = batch.schema.fields@;
    let ghost nv = spec_views(names@);
    let ghost mut idx: Seq<int> = seq![];
    let mut cols: Vec<Column> = Vec::new();
    let mut fields: Vec<Field> = Vec::new();
    let mut k: usize = 0;
    while k < names.len()
        invariant
            k <= names@.len(),
            fs == batch.schema.fields@,
            nv == spec_views(names@),
            spec_all_len(batch.columns@, batch.num_rows as nat),
            forall|q: int|
                0 <= q < names@.len() ==> (spec_index_of(fs, #[trigger] names@[q]@) matches Some(i) ==> i < batch.columns@.len()),
            idx == spec_project_indices(fs, nv.take(k as int)),
            cols@.len() == idx.len(),
            fields@.len() == idx.len(),
            forall|j: int|
                0 <= j < idx.len() ==> (#[trigger] cols@[j]).field == batch.columns@[idx[j]].field
                    && cols@[j].data@ == batch.columns@[idx[j]].data@ && fields@[j] == fs[idx[j]]
                    && cols@[j].data.spec_len() == batch.num_rows,
        decreases names@.len() - k,
    {
        assert(nv.take(k + 1).drop_last() =~= nv.take(k as int));
        assert(nv.take(k + 1).last() == names@[k as int]@);
        let found = batch.schema.index_of(names[k].as_str());
        match found {
            Some(i) => {
                proof {
                    crate::schema::lemma_index_of_at(fs, names@[k as int]@, i as int);
                    idx = idx.push(i as int);
                }
                cols.push(copy_column(&batch.columns[i]));
                fields.push(batch.schema.fields[i].clone());
            },
            None => {
                assert(spec_index_of(fs, names@[k as int]@) is None);
            },
        }
        k = k + 1;
    }
    assert(nv.take(k as int) =~= nv);
    RecordBatch::new(Schema { fields }, cols)
}

/// The chunks of index `g`, by column index, in order among equal column
/// indices.
pub open spec fn spec_chunk_group(ms: Seq<ChunkMeta>, g: u32) -> Seq<ChunkMeta>
    decreases ms.len(),
{
    if ms.len() == 0 {
        seq![]
    } else if ms.last().chunk_idx == g {
        spec_insert_by_col(spec_chunk_group(ms.drop_last(), g), ms.last())
    } else {
        spec_chunk_group(ms.drop_last(), g)
    }
}

/// The columns of the chunks of index `g` in a blob, by column index: each
/// decoded under its field. `None` where a chunk's data lies outside the
/// blob, its column index has no field, its data does not decode, or its
/// values are not of the field's type.
pub open spec fn spec_chunk_columns(b: Seq<u8>, fields: Seq<(Seq<char>, DataType, bool)>, ms: Seq<ChunkMeta>, g: u32) -> Option<Seq<((Seq<char>, DataType, bool), ColumnValues)>> {
    let group = spec_chunk_group(ms, g);
    if forall|q: int| 0 <= q < group.len() ==> spec_in_blob(#[trigger] group[q], b.len() as int) {
        spec_group_columns(b, fields, group)
    } else {
        None
    }
}

proof fn lemma_group_columns_prefix_fails(b: Seq<u8>, fields: Seq<(Seq<char>, DataType, bool)>, group: Seq<ChunkMeta>, j: int)
    requires
        0 < j <= group.len(),
        spec_group_columns(b, fields, group.take(j)) is None,
    ensures
        spec_group_columns(b, fields, group) is None,
    decreases group.len() - j,
{
    if j < group.len() {
        assert(group.take(j + 1).drop_last() =~= group.take(j));
        lemma_group_columns_prefix_fails(b, fields, group, j + 1);
    } else {
        assert(group.take(j) =~= group);
    }
}

/// The columns of the chunks of index `chunk_idx` in a blob.
pub fn chunk_columns(bytes: &[u8], fields: &Vec<Field>, metas: &[ChunkMeta], chunk_idx: u32) -> (r: Option<Vec<Column>>)
    ensures
        match spec_chunk_columns(bytes@, spec_fields_view(fields@), metas@, chunk_idx) {
            Some(cs) => r matches Some(v) && v@.len() == cs.len() && forall|j: int|
                0 <= j < cs.len() ==> spec_field_view((#[trigger] v@[j]).field) == cs[j].0 && v@[j].data@ == cs[j].1,
            None => r is None,
        },
{
    let ghost fv = spec_fields_view(fields@);
    let ghost b = bytes@;
    let mut group: Vec<ChunkMeta> = Vec::new();
    let mut i: usize = 0;
    while i < metas.len()
        invariant
            i <= metas@.len(),
            group@ == spec_chunk_group(metas@.take(i as int), chunk_idx),
        decreases metas@.len() - i,
    {
        let m = metas[i];
        assert(metas@.take(i + 1).drop_last() =~= metas@.take(i as int));
        assert(metas@.take(i + 1).last() == m);
        if m.chunk_idx == chunk_idx {
            insert_by_col(&mut group, m);
        }
        i = i + 1;
    }
    assert(metas@.take(i as int) =~= metas@);
    let blen = bytes.len();
    let len64 = blen as u64;
    let mut columns: Vec<Column> = Vec::new();
    let ghost mut cs: Seq<((Seq<char>, DataType, bool), ColumnValues)> = seq![];
    let mut j: usize = 0;
    while j < group.len()
        invariant
            fv == spec_fields_view(fields@),
            b == bytes@,
            blen == b.len(),
            len64 == blen,
            group@ == spec_chunk_group(metas@, chunk_idx),
            j <= group@.len(),
            forall|q: int| 0 <= q < j ==> spec_in_blob(#[trigger] group@[q], b.len() as int),
            spec_group_columns(b, fv, group@.take(j as int)) == Some(cs),
            columns@.len() == cs.len(),
            forall|q: int| 0 <= q < cs.len() ==> spec_field_view((#[trigger] columns@[q]).field) == cs[q].0 && columns@[q].data@ == cs[q].1,
        decreases group@.len() - j,
    {
        let m = group[j];
        assert(group@.take(j + 1).drop_last() =~= group@.take(j as int));
        assert(group@.take(j + 1).last() == m);
        if !(m.offset <= len64 && m.compressed_size <= len64 - m.offset) {
            assert(!spec_in_blob(group@[j as int], b.len() as int));
            return None;
        }
        if m.col_idx as usize >= fields.len() {
            proof {
                lemma_group_columns_prefix_fails(b, fv, group@, (j + 1) as int);
            }
            return None;
        }
        if m.encoding < 1 || m.encoding > 6 {
            proof {
                lemma_group_columns_prefix_fails(b, fv, group@, (j + 1) as int);
            }
            return None;
        }
        let start = m.offset as usize;
        let end = start + m.compressed_size as usize;
        let decoded = match decode_column(m.encoding, vstd::slice::slice_subrange(bytes, start, end), m.uncompressed_size as usize) {
            Some(d) => d,
            None => {
                proof {
                    lemma_group_columns_prefix_fails(b, fv, group@, (j + 1) as int);
                }
                return None;
            },
        };
        let field = fields[m.col_idx as usize].clone();
        if field.data_type != decoded.data_type() {
            proof {
                lemma_group_columns_prefix_fails(b, fv, group@, (j + 1) as int);
            }
            return None;
        }
        proof {
            cs = cs.push((spec_field_view(field), decoded@));
        }
        columns.push(Column::new(field, decoded));
        j = j + 1;
    }
    assert(group@.take(j as int) =~= group@);
    Some(columns)
}

} // verus!
