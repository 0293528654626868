//! Tables read from CSV bytes: arrow-csv infers the column types and reads
//! the rows into one Arrow record batch; the library reads the batch's
//! column names and types and decides which columns hold the features and
//! the target.

use vstd::prelude::*;
use arrow::array::Array;
use arrow::datatypes::DataType;
use arrow::error::ArrowError;
use arrow::record_batch::RecordBatch;
use crate::data::{FeatureColumns, FeatureColumnsView, MissingPolicy};
use crate::schema::{check_schema, name_texts, plan_view, schema_outcome, ColumnKind, SchemaIssue, SchemaPlan};

verus! {

/// An Arrow record batch, opaque to the proofs: what they know of it is
/// what `batch_columns`, `batch_num_rows` and `batch_float_columns` name.
/// (Verus does not take `RecordBatch` itself as a declared type: it reads
/// its `Index<&str>` impl, whose output is an Arrow trait object.)
#[verifier::external_body]
#[derive(Debug)]
pub struct ArrowBatch {
    pub batch: RecordBatch,
}

#[verifier::external_type_specification]
#[verifier::external_body]
pub struct ExArrowError(arrow::error::ArrowError);

/// How many records the type inference reads.
pub const SCHEMA_INFERENCE_ROWS: usize = 10000;

/// The key type of a dictionary column.
#[derive(Debug, Clone, Copy, PartialEq, Eq, Structural)]
pub enum DictKey {
    UInt16,
    UInt32,
    Other,
}

/// An Arrow column type, as far as the checks tell types apart.
#[derive(Debug, Clone, Copy, PartialEq, Eq, Structural)]
pub enum ColumnType {
    Float64,
    Float32,
    Int8,
    Int16,
    Int32,
    Int64,
    UInt8,
    UInt16,
    UInt32,
    UInt64,
    Dictionary(DictKey),
    Other,
}

/// The columns of a record batch, in order: each one's name and type.
pub uninterp spec fn batch_columns(b: ArrowBatch) -> Seq<(Seq<char>, ColumnType)>;

/// The number of rows of a record batch.
pub uninterp spec fn batch_num_rows(b: ArrowBatch) -> nat;

/// The `Float64` columns of a record batch: per column, its values as bit
/// patterns and its null flags, or `None` for a column of another type.
pub uninterp spec fn batch_float_columns(b: ArrowBatch) -> Seq<Option<(Seq<u64>, Seq<bool>)>>;

/// What arrow-csv reads from `bytes`, with the header row and the types
/// inferred from the first `infer_rows` records: the columns, the row count
/// and the `Float64` contents of the batch, or `None` where it fails.
pub uninterp spec fn csv_read(bytes: Seq<u8>, infer_rows: usize) -> Option<(Seq<(Seq<char>, ColumnType)>, nat, Seq<Option<(Seq<u64>, Seq<bool>)>>)>;

/// arrow-csv's `Format::infer_schema` (with a header row), then a
/// `ReaderBuilder` over that schema, its batches joined by arrow's
/// `concat_batches`. Fails or not as `csv_read` says, which depends on the
/// bytes and the inference window alone; on success the batch holds what
/// `csv_read` names.
#[verifier::external_body]
fn read_csv_batch(bytes: &[u8], infer_rows: usize) -> (r: Result<ArrowBatch, ArrowError>)
    ensures
        r is Ok <==> csv_read(bytes@, infer_rows) is Some,
        r matches Ok(b) ==> csv_read(bytes@, infer_rows) == Some((batch_columns(b), batch_num_rows(b), batch_float_columns(b))),
{
    let format = arrow_csv::reader::Format::default().with_header(true);
    let (schema, _) = format.infer_schema(std::io::Cursor::new(bytes), Some(infer_rows))?;
    let schema = std::sync::Arc::new(schema);
    let reader = arrow_csv::ReaderBuilder::new(schema.clone()).with_header(true).build(std::io::Cursor::new(bytes))?;
    let batches = reader.collect::<Result<Vec<RecordBatch>, ArrowError>>()?;
    Ok(ArrowBatch { batch: arrow::compute::concat_batches(&schema, &batches)? })
}

/// `RecordBatch::num_columns`.
#[verifier::external_body]
fn batch_width(b: &ArrowBatch) -> (n: usize)
    ensures
        n == batch_columns(*b).len(),
{
    b.batch.num_columns()
}

/// `RecordBatch::num_rows`.
#[verifier::external_body]
fn batch_height(b: &ArrowBatch) -> (n: usize)
    ensures
        n == batch_num_rows(*b),
{
    b.batch.num_rows()
}

/// The name of field `i` of `RecordBatch::schema_ref` (which panics past the
/// last field).
#[verifier::external_body]
fn column_name(b: &ArrowBatch, i: usize) -> (s: String)
    requires
        i < batch_columns(*b).len(),
    ensures
        s@ == batch_columns(*b)[i as int].0,
{
    b.batch.schema_ref().field(i).name().clone()
}

/// The data type of field `i` of `RecordBatch::schema_ref`, variant for
/// variant.
#[verifier::external_body]
fn column_type(b: &ArrowBatch, i: usize) -> (t: ColumnType)
    requires
        i < batch_columns(*b).len(),
    ensures
        t == batch_columns(*b)[i as int].1,
{
    match b.batch.schema_ref().field(i).data_type() {
        DataType::Float64 => ColumnType::Float64,
        DataType::Float32 => ColumnType::Float32,
        DataType::Int8 => ColumnType::Int8,
        DataType::Int16 => ColumnType::Int16,
        DataType::Int32 => ColumnType::Int32,
        DataType::Int64 => ColumnType::Int64,
        DataType::UInt8 => ColumnType::UInt8,
        DataType::UInt16 => ColumnType::UInt16,
        DataType::UInt32 => ColumnType::UInt32,
        DataType::UInt64 => ColumnType::UInt64,
        DataType::Dictionary(k, _) => ColumnType::Dictionary(match k.as_ref() {
            DataType::UInt16 => DictKey::UInt16, DataType::UInt32 => DictKey::UInt32, _ => DictKey::Other }),
        _ => ColumnType::Other,
    }
}

/// Column `i` of the batch, where it is a `Float64` array: each value's
/// bits (`f64::to_bits`) and `Array::is_null`, one per row.
#[verifier::external_body]
fn float_column(b: &ArrowBatch, i: usize) -> (r: Option<(Vec<u64>, Vec<bool>)>)
    requires
        i < batch_columns(*b).len(),
    ensures
        r is Some <==> batch_columns(*b)[i as int].1 == ColumnType::Float64,
        r matches Some((v, nl)) ==> batch_float_columns(*b)[i as int] == Some((v@, nl@))
            && v@.len() == batch_num_rows(*b) && nl@.len() == batch_num_rows(*b),
        r is None ==> batch_float_columns(*b)[i as int] is None,
{
    let col = b.batch.column(i).as_any().downcast_ref::<arrow::array::Float64Array>()?;
    let bits = col.values().iter().map(|x| x.to_bits()).collect();
    Some((bits, (0..col.len()).map(|r| col.is_null(r)).collect()))
}

/// What the schema checks make of a column type: `Float64`, a dictionary
/// (usable with a `UInt16` or `UInt32` key), another numeric type, or other.
pub open spec fn kind_of(t: ColumnType) -> ColumnKind {
    match t {
        ColumnType::Float64 => ColumnKind::Float64,
        ColumnType::Dictionary(k) => ColumnKind::Dictionary { key_supported: k != DictKey::Other },
        ColumnType::Other => ColumnKind::Other,
        _ => ColumnKind::OtherNumeric,
    }
}

/// The kind of a column type.
pub fn column_kind(t: ColumnType) -> (k: ColumnKind)
    ensures
        k == kind_of(t),
{
    match t {
        ColumnType::Float64 => ColumnKind::Float64,
        ColumnType::Dictionary(k) => ColumnKind::Dictionary {
            key_supported: match k {
                DictKey::Other => false,
                _ => true,
            },
        },
        ColumnType::Other => ColumnKind::Other,
        _ => ColumnKind::OtherNumeric,
    }
}

/// The column names of a table.
pub open spec fn column_names(cols: Seq<(Seq<char>, ColumnType)>) -> Seq<Seq<char>> {
    cols.map_values(|c: (Seq<char>, ColumnType)| c.0)
}

/// The column kinds of a table.
pub open spec fn column_kinds(cols: Seq<(Seq<char>, ColumnType)>) -> Seq<ColumnKind> {
    cols.map_values(|c: (Seq<char>, ColumnType)| kind_of(c.1))
}

/// What the schema checks decide for a table with these columns and rows.
pub open spec fn table_outcome(
    cols: Seq<(Seq<char>, ColumnType)>,
    num_rows: nat,
    features: Seq<Seq<char>>,
    target: Seq<char>,
) -> Result<(Seq<usize>, Seq<bool>, usize), SchemaIssue> {
    schema_outcome(column_names(cols), column_kinds(cols), features, target, num_rows)
}

/// Checks a record batch's schema: which of its columns hold the features
/// and the target, in the order and with the errors of `check_schema`.
pub fn check_batch_schema(b: &ArrowBatch, features: &Vec<String>, target: &str) -> (r: Result<SchemaPlan, SchemaIssue>)
    ensures
        match r {
            Ok(p) => table_outcome(batch_columns(*b), batch_num_rows(*b), name_texts(features@), target@)
                == Ok::<(Seq<usize>, Seq<bool>, usize), SchemaIssue>(plan_view(p)),
            Err(e) => table_outcome(batch_columns(*b), batch_num_rows(*b), name_texts(features@), target@)
                == Err::<(Seq<usize>, Seq<bool>, usize), SchemaIssue>(e),
        },
{
    let ghost cols = batch_columns(*b);
    let n = batch_width(b);
    let mut names: Vec<String> = Vec::new();
    let mut kinds: Vec<ColumnKind> = Vec::new();
    let mut i: usize = 0;
    while i < n
        invariant
            cols == batch_columns(*b),
            n == cols.len(),
            i <= n,
            name_texts(names@) == column_names(cols).subrange(0, i as int),
            kinds@ == column_kinds(cols).subrange(0, i as int),
        decreases n - i,
    {
        let name = column_name(b, i);
        let t = column_type(b, i);
        let ghost before = names@;
        names.push(name);
        kinds.push(column_kind(t));
        proof {
            assert(name_texts(names@) =~= name_texts(before).push(name@));
            assert(name_texts(names@) =~= column_names(cols).subrange(0, i + 1));
            assert(kinds@ =~= column_kinds(cols).subrange(0, i + 1));
        }
        i = i + 1;
    }
    proof {
        assert(name_texts(names@) =~= column_names(cols));
        assert(kinds@ =~= column_kinds(cols));
    }
    let rows = batch_height(b);
    check_schema(&names, &kinds, features, target, rows)
}

/// Column `c` exists and is a `Float64` column.
pub open spec fn float_at(b: ArrowBatch, c: usize) -> bool {
    c < batch_columns(b).len() && batch_columns(b)[c as int].1 == ColumnType::Float64
}

/// Why the feature columns could not be taken as numeric columns.
#[derive(Debug, Clone, Copy, PartialEq, Eq, Structural)]
pub enum ColumnsIssue {
    /// Feature `j`'s column is missing or is not `Float64` (a categorical
    /// feature, say).
    NotFloat(usize),
    /// The columns together would not fit in one buffer.
    TooLarge,
}

/// The feature columns taken from the batch: feature `j` is column
/// `indices[j]`.
pub open spec fn columns_from(b: ArrowBatch, indices: Seq<usize>, policy: MissingPolicy) -> FeatureColumnsView {
    FeatureColumnsView {
        values: Seq::new(indices.len(), |j: int| (batch_float_columns(b)[indices[j] as int]->0).0),
        nulls: Seq::new(indices.len(), |j: int| (batch_float_columns(b)[indices[j] as int]->0).1),
        num_rows: batch_num_rows(b),
        policy,
    }
}

/// The numeric feature columns of a batch (value bits and null flags, row
/// by row), feature `j` being column `indices[j]`. The first feature whose
/// column is not `Float64` is reported.
pub fn feature_columns(b: &ArrowBatch, indices: &Vec<usize>, policy: MissingPolicy) -> (r: Result<FeatureColumns, ColumnsIssue>)
    ensures
        r matches Err(ColumnsIssue::NotFloat(j)) ==> j < indices@.len() && !float_at(*b, indices@[j as int])
            && forall|q: int| 0 <= q < j ==> float_at(*b, #[trigger] indices@[q]),
        (forall|j: int| 0 <= j < indices@.len() ==> float_at(*b, #[trigger] indices@[j])) ==> (
            if indices@.len() * batch_num_rows(*b) <= usize::MAX {
                r matches Ok(fc) && fc@ == columns_from(*b, indices@, policy)
            } else {
                r == Err::<FeatureColumns, ColumnsIssue>(ColumnsIssue::TooLarge)
            }),
        r is Ok || r == Err::<FeatureColumns, ColumnsIssue>(ColumnsIssue::TooLarge) ==> forall|j: int|
            0 <= j < indices@.len() ==> float_at(*b, #[trigger] indices@[j]),
{
    let width = batch_width(b);
    let n = batch_height(b);
    let ghost target = columns_from(*b, indices@, policy);
    let mut values: Vec<Vec<u64>> = Vec::new();
    let mut nulls: Vec<Vec<bool>> = Vec::new();
    let mut j: usize = 0;
    while j < indices.len()
        invariant
            width == batch_columns(*b).len(),
            n == batch_num_rows(*b),
            target == columns_from(*b, indices@, policy),
            j <= indices@.len(),
            values@.len() == j,
            nulls@.len() == j,
            forall|q: int| 0 <= q < j ==> float_at(*b, #[trigger] indices@[q]),
            forall|q: int| 0 <= q < j ==> (#[trigger] values@[q])@ == target.values[q] && values@[q]@.len() == n,
            forall|q: int| 0 <= q < j ==> (#[trigger] nulls@[q])@ == target.nulls[q] && nulls@[q]@.len() == n,
        decreases indices@.len() - j,
    {
        let c = indices[j];
        if c >= width {
            return Err(ColumnsIssue::NotFloat(j));
        }
        match float_column(b, c) {
            None => {
                return Err(ColumnsIssue::NotFloat(j));
            },
            Some((v, nl)) => {
                values.push(v);
                nulls.push(nl);
            },
        }
        j = j + 1;
    }
    let ghost vv = values@.map_values(|c: Vec<u64>| c@);
    let ghost nv = nulls@.map_values(|c: Vec<bool>| c@);
    proof {
        assert(vv =~= target.values);
        assert(nv =~= target.nulls);
    }
    match FeatureColumns::new(values, nulls, n, policy) {
        Some(fc) => Ok(fc),
        None => Err(ColumnsIssue::TooLarge),
    }
}

/// Why CSV bytes gave no dataset.
#[derive(Debug)]
pub enum CsvIssue {
    /// arrow-csv could not read the bytes.
    Read(ArrowError),
    /// The table read (kept for its column types) does not have the wanted
    /// columns.
    Schema { issue: SchemaIssue, batch: ArrowBatch },
}

/// A table read from CSV, with the place of its features and target.
#[derive(Debug)]
pub struct CsvDataset {
    pub batch: ArrowBatch,
    pub plan: SchemaPlan,
}

/// Reads a dataset from CSV bytes with a header row: the column types are
/// inferred from the first `SCHEMA_INFERENCE_ROWS` records, all rows are
/// read into one batch, and the schema is checked for `features` and
/// `target`. A read failure comes first, then the first schema problem.
pub fn dataset_from_csv_bytes(bytes: &[u8], features: &Vec<String>, target: &str) -> (r: Result<CsvDataset, CsvIssue>)
    ensures
        match csv_read(bytes@, SCHEMA_INFERENCE_ROWS) {
            None => r matches Err(CsvIssue::Read(_)),
            Some((cols, n, fl)) => match table_outcome(cols, n, name_texts(features@), target@) {
                Err(e) => r matches Err(CsvIssue::Schema { issue, batch }) && issue == e
                    && batch_columns(batch) == cols && batch_num_rows(batch) == n,
                Ok(p) => r matches Ok(d) && batch_columns(d.batch) == cols
                    && batch_num_rows(d.batch) == n && batch_float_columns(d.batch) == fl
                    && plan_view(d.plan) == p,
            },
        },
{
    let batch = match read_csv_batch(bytes, SCHEMA_INFERENCE_ROWS) {
        Ok(b) => b,
        Err(e) => {
            return Err(CsvIssue::Read(e));
        },
    };
    match check_batch_schema(&batch, features, target) {
        Ok(plan) => Ok(CsvDataset { batch, plan }),
        Err(issue) => Err(CsvIssue::Schema { issue, batch }),
    }
}

} // verus!
