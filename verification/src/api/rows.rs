//! Rows in and out of a table: one row assembled from named values, and
//! the columns of a query's batches laid end to end.
use vstd::prelude::*;
use crate::exec::batch::{Column, ColumnData, ColumnValues, RecordBatch, spec_all_len};
use crate::schema::{DataType, Field, Schema};
use crate::text::spec_views;

verus! {

/// Why a row could not be assembled.
#[derive(Debug, Clone, PartialEq, Eq)]
pub enum RowError {
    /// The schema has `expected` fields but `got` values were named.
    ColumnCountMismatch { expected: usize, got: usize },
    /// No value of the field's type was named after the field.
    MissingColumn { name: String, data_type: DataType },
}

/// The first position of `x` in `s`.
pub open spec fn spec_first(s: Seq<Seq<char>>, x: Seq<char>) -> Option<int>
    decreases s.len(),
{
    if s.len() == 0 {
        None
    } else if s[0] == x {
        Some(0)
    } else {
        match spec_first(s.drop_first(), x) {
            Some(i) => Some(i + 1),
            None => None,
        }
    }
}

/// The names that values of fields of type `t` are looked up in: the
/// integer names for integers and timestamps.
pub open spec fn spec_names_for(
    t: DataType,
    int_names: Seq<Seq<char>>,
    float_names: Seq<Seq<char>>,
    str_names: Seq<Seq<char>>,
) -> Seq<Seq<char>> {
    match t {
        DataType::Int64 => int_names,
        DataType::Timestamp => int_names,
        DataType::Float64 => float_names,
        DataType::Utf8 => str_names,
    }
}

/// Whether the value of field `f` is named.
pub open spec fn spec_found(
    f: Field,
    int_names: Seq<Seq<char>>,
    float_names: Seq<Seq<char>>,
    str_names: Seq<Seq<char>>,
) -> bool {
    spec_first(spec_names_for(f.data_type, int_names, float_names, str_names), f.name@) is Some
}

/// The one value of field `f`, given that it is named.
pub open spec fn spec_row_value(
    f: Field,
    int_names: Seq<Seq<char>>,
    int_values: Seq<i64>,
    float_names: Seq<Seq<char>>,
    float_values: Seq<u64>,
    str_names: Seq<Seq<char>>,
    str_values: Seq<Seq<char>>,
) -> ColumnValues {
    let i = spec_first(spec_names_for(f.data_type, int_names, float_names, str_names), f.name@)->0;
    match f.data_type {
        DataType::Int64 => ColumnValues::Int64(seq![int_values[i]]),
        DataType::Timestamp => ColumnValues::Timestamp(seq![int_values[i]]),
        DataType::Float64 => ColumnValues::Float64(seq![float_values[i]]),
        DataType::Utf8 => ColumnValues::Utf8(seq![str_values[i]]),
    }
}

/// The first position of `name` in `names`.
fn position(names: &Vec<String>, name: &String) -> (r: Option<usize>)
    ensures
        match r {
            Some(k) => spec_first(spec_views(names@), name@) == Some(k as int),
            None => spec_first(spec_views(names@), name@) is None,
        },
{
    let ghost ns = spec_views(names@);
    let mut i: usize = 0;
    assert(ns.skip(0) =~= ns);
    while i < names.len()
        invariant
            i <= names@.len(),
            ns == spec_views(names@),
            spec_first(ns, name@) == (match spec_first(ns.skip(i as int), name@) {
                Some(k) => Some(k + i),
                None => None,
            }),
        decreases names@.len() - i,
    {
        proof {
            assert(ns.skip(i as int)[0] == names@[i as int]@);
            assert(ns.skip(i as int).drop_first() =~= ns.skip(i + 1));
        }
        if names[i] == *name {
            return Some(i);
        }
        i = i + 1;
    }
    proof {
        assert(ns.skip(i as int).len() == 0);
    }
    None
}

/// One row under `schema`: each field takes the value named after it among
/// the names of its type (the first such name), integers and timestamps
/// from the integer values. An error where the schema's field count is not
/// the number of names, or, for the first field whose value is not named,
/// that field. Floats are given as their bit patterns.
pub fn build_row_batch(
    schema: &Schema,
    int_names: &Vec<String>,
    int_values: &Vec<i64>,
    float_names: &Vec<String>,
    float_values: &Vec<u64>,
    str_names: &Vec<String>,
    str_values: &Vec<String>,
) -> (r: Result<RecordBatch, RowError>)
    requires
        int_names@.len() + float_names@.len() + str_names@.len() <= usize::MAX,
        forall|j: int|
            0 <= j < schema.fields@.len() ==> (spec_first(
                spec_names_for(
                    (#[trigger] schema.fields@[j]).data_type,
                    spec_views(int_names@),
                    spec_views(float_names@),
                    spec_views(str_names@),
                ),
                schema.fields@[j].name@,
            ) matches Some(i) ==> match schema.fields@[j].data_type {
                DataType::Int64 => i < int_values@.len(),
                DataType::Timestamp => i < int_values@.len(),
                DataType::Float64 => i < float_values@.len(),
                DataType::Utf8 => i < str_values@.len(),
            }),
    ensures
        ({
            let ins = spec_views(int_names@);
            let fns = spec_views(float_names@);
            let sns = spec_views(str_names@);
            let fields = schema.fields@;
            let total = int_names@.len() + float_names@.len() + str_names@.len();
            if fields.len() != total {
                r == Err::<RecordBatch, RowError>(RowError::ColumnCountMismatch { expected: fields.len() as usize, got: total as usize })
            } else if exists|j: int| 0 <= j < fields.len() && !spec_found(#[trigger] fields[j], ins, fns, sns) {
                exists|j: int|
                    0 <= j < fields.len() && !spec_found(#[trigger] fields[j], ins, fns, sns) && (forall|k: int|
                        0 <= k < j ==> spec_found(#[trigger] fields[k], ins, fns, sns)) && (r matches Err(
                        RowError::MissingColumn { name, data_type },
                    ) && name@ == fields[j].name@ && data_type == fields[j].data_type)
            } else {
                r matches Ok(b) && b.schema.fields@ == fields && b.columns@.len() == fields.len() && b.num_rows == (
                if fields.len() == 0 {
                    0usize
                } else {
                    1usize
                }) && forall|j: int|
                    0 <= j < fields.len() ==> (#[trigger] b.columns@[j]).field == fields[j] && b.columns@[j].data@
                        == spec_row_value(
                        fields[j],
                        ins,
                        int_values@,
                        fns,
                        float_values@,
                        sns,
                        spec_views(str_values@),
                    )
            }
        }),
{
    let total = int_names.len() + float_names.len() + str_names.len();
    if schema.fields.len() != total {
        return Err(RowError::ColumnCountMismatch { expected: schema.fields.len(), got: total });
    }
    let ghost ins = spec_views(int_names@);
    let ghost fns = spec_views(float_names@);
    let ghost sns = spec_views(str_names@);
    let ghost fields = schema.fields@;
    let mut columns: Vec<Column> = Vec::new();
    let mut j: usize = 0;
    while j < schema.fields.len()
        invariant
            j <= fields.len(),
            fields == schema.fields@,
            fields.len() == int_names@.len() + float_names@.len() + str_names@.len(),
            ins == spec_views(int_names@),
            fns == spec_views(float_names@),
            sns == spec_views(str_names@),
            forall|k: int|
                0 <= k < fields.len() ==> (spec_first(
                    spec_names_for((#[trigger] fields[k]).data_type, ins, fns, sns),
                    fields[k].name@,
                ) matches Some(i) ==> match fields[k].data_type {
                    DataType::Int64 => i < int_values@.len(),
                    DataType::Timestamp => i < int_values@.len(),
                    DataType::Float64 => i < float_values@.len(),
                    DataType::Utf8 => i < str_values@.len(),
                }),
            columns@.len() == j,
            forall|k: int| 0 <= k < j ==> spec_found(#[trigger] fields[k], ins, fns, sns),
            forall|k: int|
                0 <= k < j ==> (#[trigger] columns@[k]).field == fields[k] && columns@[k].data@ == spec_row_value(
                    fields[k],
                    ins,
                    int_values@,
                    fns,
                    float_values@,
                    sns,
                    spec_views(str_values@),
                ) && columns@[k].data.spec_len() == 1,
        decreases fields.len() - j,
    {
        let field = &schema.fields[j];
        let names = match field.data_type {
            DataType::Int64 => int_names,
            DataType::Timestamp => int_names,
            DataType::Float64 => float_names,
            DataType::Utf8 => str_names,
        };
        assert(spec_views(names@) == spec_names_for(field.data_type, ins, fns, sns));
        assert(field == fields[j as int]);
        let idx = match position(names, &field.name) {
            Some(i) => i,
            None => {
                let e = RowError::MissingColumn { name: field.name.clone(), data_type: field.data_type };
                proof {
                    let jj = j as int;
                    assert(!spec_found(fields[jj], ins, fns, sns));
                    assert(forall|k: int| 0 <= k < jj ==> spec_found(#[trigger] fields[k], ins, fns, sns));
                    assert(e matches RowError::MissingColumn { name, data_type } && name@ == fields[jj].name@
                        && data_type == fields[jj].data_type);
                    assert(exists|k: int| 0 <= k < fields.len() && !spec_found(#[trigger] fields[k], ins, fns, sns));
                }
                return Err(e);
            },
        };
        let ghost v = spec_row_value(fields[j as int], ins, int_values@, fns, float_values@, sns, spec_views(str_values@));
        let data = match field.data_type {
            DataType::Int64 => {
                let x = vec![int_values[idx]];
                assert(x@ =~= seq![int_values@[idx as int]]);
                ColumnData::Int64(x)
            },
            DataType::Timestamp => {
                let x = vec![int_values[idx]];
                assert(x@ =~= seq![int_values@[idx as int]]);
                ColumnData::Timestamp(x)
            },
            DataType::Float64 => {
                let x = vec![float_values[idx]];
                assert(x@ =~= seq![float_values@[idx as int]]);
                ColumnData::Float64(x)
            },
            DataType::Utf8 => {
                let x = vec![str_values[idx].clone()];
                assert(spec_views(x@) =~= seq![spec_views(str_values@)[idx as int]]);
                ColumnData::Utf8(x)
            },
        };
        assert(data@ == v);
        columns.push(Column { field: field.clone(), data });
        j = j + 1;
    }
    proof {
        if exists|k: int| 0 <= k < fields.len() && !spec_found(#[trigger] fields[k], ins, fns, sns) {
            let k = choose|k: int| 0 <= k < fields.len() && !spec_found(#[trigger] fields[k], ins, fns, sns);
            assert(spec_found(fields[k], ins, fns, sns));
        }
        if columns@.len() > 0 {
            assert(spec_all_len(columns@, columns@[0].data.spec_len()));
        }
    }
    let batch = RecordBatch::new(Schema { fields: crate::schema::clone_fields(&schema.fields) }, columns);
    Ok(batch)
}

/// `acc` followed by `d` where both hold values of one type; `acc` alone
/// otherwise.
pub open spec fn spec_append_same(acc: ColumnValues, d: ColumnValues) -> ColumnValues {
    match (acc, d) {
        (ColumnValues::Int64(a), ColumnValues::Int64(b)) => ColumnValues::Int64(a + b),
        (ColumnValues::Float64(a), ColumnValues::Float64(b)) => ColumnValues::Float64(a + b),
        (ColumnValues::Utf8(a), ColumnValues::Utf8(b)) => ColumnValues::Utf8(a + b),
        (ColumnValues::Timestamp(a), ColumnValues::Timestamp(b)) => ColumnValues::Timestamp(a + b),
        _ => acc,
    }
}

/// No values, of the type of `v`.
pub open spec fn spec_empty_like(v: ColumnValues) -> ColumnValues {
    match v {
        ColumnValues::Int64(_) => ColumnValues::Int64(seq![]),
        ColumnValues::Float64(_) => ColumnValues::Float64(seq![]),
        ColumnValues::Utf8(_) => ColumnValues::Utf8(seq![]),
        ColumnValues::Timestamp(_) => ColumnValues::Timestamp(seq![]),
    }
}

/// The values of `ds` of the type of `first`, laid end to end.
pub open spec fn spec_concat(first: ColumnValues, ds: Seq<ColumnValues>) -> ColumnValues
    decreases ds.len(),
{
    if ds.len() == 0 {
        spec_empty_like(first)
    } else {
        spec_append_same(spec_concat(first, ds.drop_last()), ds.last())
    }
}

/// The values of column `ci` of each batch that has such a column, in the
/// order of the batches.
pub open spec fn spec_column_parts(bs: Seq<RecordBatch>, ci: int) -> Seq<ColumnValues>
    decreases bs.len(),
{
    if bs.len() == 0 {
        seq![]
    } else if ci < bs.last().columns@.len() {
        spec_column_parts(bs.drop_last(), ci).push(bs.last().columns@[ci].data@)
    } else {
        spec_column_parts(bs.drop_last(), ci)
    }
}

/// Column `ci` of the result: the parts of the type of the first part laid
/// end to end; no integers where no batch has the column.
pub open spec fn spec_result_column(bs: Seq<RecordBatch>, ci: int) -> ColumnValues {
    let parts = spec_column_parts(bs, ci);
    if parts.len() == 0 {
        ColumnValues::Int64(seq![])
    } else {
        spec_concat(parts[0], parts)
    }
}

/// The number of values of `v`.
pub open spec fn spec_values_count(v: ColumnValues) -> nat {
    match v {
        ColumnValues::Int64(a) => a.len(),
        ColumnValues::Float64(a) => a.len(),
        ColumnValues::Utf8(a) => a.len(),
        ColumnValues::Timestamp(a) => a.len(),
    }
}

/// The row count of the result: the length of the last of the first `n`
/// result columns that some batch has; zero where none has one.
pub open spec fn spec_result_rows(bs: Seq<RecordBatch>, n: int) -> nat
    decreases n,
{
    if n <= 0 {
        0
    } else if spec_column_parts(bs, n - 1).len() > 0 {
        spec_values_count(spec_result_column(bs, n - 1))
    } else {
        spec_result_rows(bs, n - 1)
    }
}

/// Appends `d` to `acc` where both hold values of one type.
fn append_same(acc: &mut ColumnData, d: &ColumnData)
    ensures
        final(acc)@ == spec_append_same(old(acc)@, d@),
{
    match (acc, d) {
        (ColumnData::Int64(a), ColumnData::Int64(b)) => {
            let ghost a0 = a@;
            let mut i: usize = 0;
            while i < b.len()
                invariant
                    i <= b@.len(),
                    a@ == a0 + b@.take(i as int),
                decreases b@.len() - i,
            {
                a.push(b[i]);
                i = i + 1;
                assert(a@ =~= a0 + b@.take(i as int));
            }
            assert(b@.take(i as int) =~= b@);
        },
        (ColumnData::Float64(a), ColumnData::Float64(b)) => {
            let ghost a0 = a@;
            let mut i: usize = 0;
            while i < b.len()
                invariant
                    i <= b@.len(),
                    a@ == a0 + b@.take(i as int),
                decreases b@.len() - i,
            {
                a.push(b[i]);
                i = i + 1;
                assert(a@ =~= a0 + b@.take(i as int));
            }
            assert(b@.take(i as int) =~= b@);
        },
        (ColumnData::Utf8(a), ColumnData::Utf8(b)) => {
            let ghost a0 = spec_views(a@);
            let mut i: usize = 0;
            while i < b.len()
                invariant
                    i <= b@.len(),
                    spec_views(a@) == a0 + spec_views(b@).take(i as int),
                decreases b@.len() - i,
            {
                let ghost before = a@;
                a.push(b[i].clone());
                i = i + 1;
                assert(spec_views(a@) =~= spec_views(before).push(spec_views(b@)[i - 1]));
                assert(spec_views(a@) =~= a0 + spec_views(b@).take(i as int));
            }
            assert(spec_views(b@).take(i as int) =~= spec_views(b@));
        },
        (ColumnData::Timestamp(a), ColumnData::Timestamp(b)) => {
            let ghost a0 = a@;
            let mut i: usize = 0;
            while i < b.len()
                invariant
                    i <= b@.len(),
                    a@ == a0 + b@.take(i as int),
                decreases b@.len() - i,
            {
                a.push(b[i]);
                i = i + 1;
                assert(a@ =~= a0 + b@.take(i as int));
            }
            assert(b@.take(i as int) =~= b@);
        },
        _ => {},
    }
}

/// No values, of the type of `d`.
fn empty_like(d: &ColumnData) -> (r: ColumnData)
    ensures
        r@ == spec_empty_like(d@),
{
    let r = match d {
        ColumnData::Int64(_) => ColumnData::Int64(Vec::new()),
        ColumnData::Float64(_) => ColumnData::Float64(Vec::new()),
        ColumnData::Utf8(_) => ColumnData::Utf8(Vec::new()),
        ColumnData::Timestamp(_) => ColumnData::Timestamp(Vec::new()),
    };
    assert(r@ =~= spec_empty_like(d@)) by {
        match r@ {
            ColumnValues::Utf8(s) => {
                assert(s =~= Seq::<Seq<char>>::empty());
            },
            _ => {},
        }
    }
    r
}

/// The result of a query as whole columns: for each of the `num_cols`
/// columns, the values of that column of every batch laid end to end, of
/// the type of the first batch's; and the row count of the last column
/// some batch has.
pub fn concat_columns(batches: &Vec<RecordBatch>, num_cols: usize) -> (r: (Vec<ColumnData>, usize))
    requires
        forall|b: int| 0 <= b < batches@.len() ==> (#[trigger] batches@[b]).columns@.len() <= num_cols,
        forall|ci: int| 0 <= ci < num_cols ==> spec_values_count(#[trigger] spec_result_column(batches@, ci)) <= usize::MAX,
    ensures
        r.0@.len() == num_cols,
        forall|ci: int| 0 <= ci < num_cols ==> (#[trigger] r.0@[ci])@ == spec_result_column(batches@, ci),
        r.1 == spec_result_rows(batches@, num_cols as int),
{
    let ghost bs = batches@;
    let mut columns: Vec<ColumnData> = Vec::new();
    let mut total_rows: usize = 0;
    let mut ci: usize = 0;
    while ci < num_cols
        invariant
            ci <= num_cols,
            bs == batches@,
            forall|c: int| 0 <= c < num_cols ==> spec_values_count(#[trigger] spec_result_column(bs, c)) <= usize::MAX,
            columns@.len() == ci,
            forall|c: int| 0 <= c < ci ==> (#[trigger] columns@[c])@ == spec_result_column(bs, c),
            total_rows == spec_result_rows(bs, ci as int),
        decreases num_cols - ci,
    {
        let mut acc: Option<ColumnData> = None;
        let mut b: usize = 0;
        while b < batches.len()
            invariant
                b <= bs.len(),
                bs == batches@,
                ci < num_cols,
                match acc {
                    None => spec_column_parts(bs.take(b as int), ci as int).len() == 0,
                    Some(a) => spec_column_parts(bs.take(b as int), ci as int).len() > 0 && a@ == spec_concat(
                        spec_column_parts(bs.take(b as int), ci as int)[0],
                        spec_column_parts(bs.take(b as int), ci as int),
                    ),
                },
            decreases bs.len() - b,
        {
            let ghost pre = spec_column_parts(bs.take(b as int), ci as int);
            proof {
                assert(bs.take(b + 1).drop_last() =~= bs.take(b as int));
            }
            if ci < batches[b].columns.len() {
                let d = &batches[b].columns[ci].data;
                let ghost now = pre.push(d@);
                assert(spec_column_parts(bs.take(b + 1), ci as int) == now);
                match acc {
                    None => {
                        let mut a = empty_like(d);
                        append_same(&mut a, d);
                        proof {
                            assert(now.drop_last() =~= pre);
                            assert(pre.len() == 0);
                            assert(spec_concat(now[0], pre) == spec_empty_like(d@));
                            match d@ {
                                ColumnValues::Int64(x) => { assert(seq![] + x =~= x); },
                                ColumnValues::Float64(x) => { assert(seq![] + x =~= x); },
                                ColumnValues::Utf8(x) => { assert(Seq::<Seq<char>>::empty() + x =~= x); },
                                ColumnValues::Timestamp(x) => { assert(seq![] + x =~= x); },
                            }
                        }
                        acc = Some(a);
                    },
                    Some(mut a) => {
                        append_same(&mut a, d);
                        proof {
                            assert(now.drop_last() =~= pre);
                            assert(now[0] == pre[0]);
                        }
                        acc = Some(a);
                    },
                }
            } else {
                assert(spec_column_parts(bs.take(b + 1), ci as int) == pre);
            }
            b = b + 1;
        }
        assert(bs.take(b as int) =~= bs);
        let col = match acc {
            Some(a) => a,
            None => ColumnData::Int64(Vec::new()),
        };
        proof {
            if spec_column_parts(bs, ci as int).len() == 0 {
                assert(col@ =~= ColumnValues::Int64(seq![]));
            }
        }
        if has_column(batches, ci) {
            total_rows = col.len();
        }
        columns.push(col);
        ci = ci + 1;
    }
    (columns, total_rows)
}

/// Whether some batch has column `ci`.
fn has_column(batches: &Vec<RecordBatch>, ci: usize) -> (r: bool)
    ensures
        r == (spec_column_parts(batches@, ci as int).len() > 0),
{
    let ghost bs = batches@;
    let mut b: usize = 0;
    while b < batches.len()
        invariant
            b <= bs.len(),
            bs == batches@,
            spec_column_parts(bs.take(b as int), ci as int).len() == 0,
        decreases bs.len() - b,
    {
        assert(bs.take(b + 1).drop_last() =~= bs.take(b as int));
        if ci < batches[b].columns.len() {
            proof {
                lemma_parts_grow(bs, b as int + 1, ci as int);
            }
            return true;
        }
        b = b + 1;
    }
    assert(bs.take(b as int) =~= bs);
    false
}

/// A prefix of the batches has at most the parts of all of them.
proof fn lemma_parts_grow(bs: Seq<RecordBatch>, n: int, ci: int)
    requires
        0 <= n <= bs.len(),
    ensures
        spec_column_parts(bs.take(n), ci).len() <= spec_column_parts(bs, ci).len(),
    decreases bs.len(),
{
    if n < bs.len() {
        assert(bs.drop_last().take(n) =~= bs.take(n));
        lemma_parts_grow(bs.drop_last(), n, ci);
    } else {
        assert(bs.take(n) =~= bs);
    }
}

} // verus!
