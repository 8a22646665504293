//! Columns of values and batches of equally long columns.
use vstd::prelude::*;
use crate::schema::{DataType, Field, Schema};

verus! {

/// The values of one column. A 64-bit float is held as its IEEE-754 bit
/// pattern, which is all that storage needs of it.
#[derive(Debug, Clone)]
pub enum ColumnData {
    Int64(Vec<i64>),
    Float64(Vec<u64>),
    Utf8(Vec<String>),
    Timestamp(Vec<i64>),
}

impl ColumnData {
    /// The number of values.
    pub open spec fn spec_len(&self) -> nat {
        match self {
            ColumnData::Int64(v) => v@.len(),
            ColumnData::Float64(v) => v@.len(),
            ColumnData::Utf8(v) => v@.len(),
            ColumnData::Timestamp(v) => v@.len(),
        }
    }

    /// The type of the values.
    pub open spec fn spec_data_type(&self) -> DataType {
        match self {
            ColumnData::Int64(_) => DataType::Int64,
            ColumnData::Float64(_) => DataType::Float64,
            ColumnData::Utf8(_) => DataType::Utf8,
            ColumnData::Timestamp(_) => DataType::Timestamp,
        }
    }

    pub fn len(&self) -> (n: usize)
        ensures
            n == self.spec_len(),
    {
        match self {
            ColumnData::Int64(v) => v.len(),
            ColumnData::Float64(v) => v.len(),
            ColumnData::Utf8(v) => v.len(),
            ColumnData::Timestamp(v) => v.len(),
        }
    }

    pub fn is_empty(&self) -> (b: bool)
        ensures
            b == (self.spec_len() == 0),
    {
        self.len() == 0
    }

    pub fn data_type(&self) -> (t: DataType)
        ensures
            t == self.spec_data_type(),
    {
        match self {
            ColumnData::Int64(_) => DataType::Int64,
            ColumnData::Float64(_) => DataType::Float64,
            ColumnData::Utf8(_) => DataType::Utf8,
            ColumnData::Timestamp(_) => DataType::Timestamp,
        }
    }
}

/// The values of a column as mathematical sequences.
pub enum ColumnValues {
    Int64(Seq<i64>),
    Float64(Seq<u64>),
    Utf8(Seq<Seq<char>>),
    Timestamp(Seq<i64>),
}

impl View for ColumnData {
    type V = ColumnValues;

    open spec fn view(&self) -> ColumnValues {
        match self {
            ColumnData::Int64(v) => ColumnValues::Int64(v@),
            ColumnData::Float64(v) => ColumnValues::Float64(v@),
            ColumnData::Utf8(v) => ColumnValues::Utf8(v@.map_values(|s: String| s@)),
            ColumnData::Timestamp(v) => ColumnValues::Timestamp(v@),
        }
    }
}

/// A column: its field and its values.
#[derive(Debug, Clone)]
pub struct Column {
    pub field: Field,
    pub data: ColumnData,
}

impl Column {
    /// A column whose values have the field's type.
    pub fn new(field: Field, data: ColumnData) -> (c: Column)
        requires
            field.data_type == data.spec_data_type(),
        ensures
            c.field == field,
            c.data == data,
    {
        Column { field, data }
    }
}

/// Columns of one length under a schema.
#[derive(Debug, Clone)]
pub struct RecordBatch {
    pub schema: Schema,
    pub columns: Vec<Column>,
    pub num_rows: usize,
}

/// Every column has `n` values.
pub open spec fn spec_all_len(columns: Seq<Column>, n: nat) -> bool {
    forall|i: int| 0 <= i < columns.len() ==> #[trigger] columns[i].data.spec_len() == n
}

impl RecordBatch {
    /// A batch of columns that all have the same number of values; the
    /// number of rows is that of the first column, or zero without columns.
    pub fn new(schema: Schema, columns: Vec<Column>) -> (b: RecordBatch)
        requires
            columns.len() == 0 || spec_all_len(columns@, columns@[0].data.spec_len()),
        ensures
            b.schema == schema,
            b.columns == columns,
            b.num_rows == (if columns.len() == 0 { 0 } else { columns@[0].data.spec_len() }),
    {
        let num_rows = if columns.len() == 0 { 0 } else { columns[0].data.len() };
        RecordBatch { schema, columns, num_rows }
    }
}

} // verus!
