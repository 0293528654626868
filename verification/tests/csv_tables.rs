use std::sync::Arc;

use arrow::array::{Array, ArrayRef, DictionaryArray, Float64Array, Int64Array, StringArray};
use arrow::datatypes::{DataType, Field, Schema, UInt32Type, UInt8Type};
use arrow::record_batch::RecordBatch;
use sooboost::data::{FeatureColumns, MissingPolicy};
use sooboost::schema::{ColumnKind, SchemaIssue, SchemaPlan};
use sooboost::table::{
    check_batch_schema, column_kind, dataset_from_csv_bytes, feature_columns, ColumnType, ColumnsIssue, ArrowBatch,
    CsvIssue, DictKey,
};

fn names(items: &[&str]) -> Vec<String> {
    items.iter().map(|s| s.to_string()).collect()
}

fn batch_with(feature: Float64Array, target: Float64Array) -> ArrowBatch {
    let schema = Schema::new(vec![
        Field::new("f0", DataType::Float64, true),
        Field::new("target", DataType::Float64, false),
    ]);
    let batch = RecordBatch::try_new(Arc::new(schema), vec![Arc::new(feature), Arc::new(target)]).expect("batch");
    ArrowBatch { batch }
}

fn csv_columns(bytes: &[u8], features: &[&str], target: &str, policy: MissingPolicy) -> (ArrowBatch, SchemaPlan, FeatureColumns) {
    let d = match dataset_from_csv_bytes(bytes, &names(features), target) {
        Ok(d) => d,
        Err(e) => panic!("csv refused: {e:?}"),
    };
    let cols = feature_columns(&d.batch, &d.plan.feature_indices, policy).expect("numeric features");
    (d.batch, d.plan, cols)
}

fn target_as_f64(b: &ArrowBatch, plan: &SchemaPlan) -> Float64Array {
    let col = arrow::compute::cast(b.batch.column(plan.target_index), &DataType::Float64).expect("cast");
    col.as_any().downcast_ref::<Float64Array>().expect("f64").clone()
}

#[test]
fn access_values_and_metadata() {
    let b = batch_with(Float64Array::from(vec![1.0, 2.0, 3.0]), Float64Array::from(vec![10.0, 20.0, 30.0]));
    let plan = check_batch_schema(&b, &names(&["f0"]), "target").expect("schema");
    assert_eq!(plan, SchemaPlan { feature_indices: vec![0], categorical: vec![false], target_index: 1 });
    let cols = feature_columns(&b, &plan.feature_indices, MissingPolicy::default()).expect("columns");
    assert_eq!(cols.num_rows(), 3);
    assert_eq!(cols.num_features(), 1);
    assert_eq!(f64::from_bits(cols.value(0, 1)), 2.0);
    assert_eq!(target_as_f64(&b, &plan).value(2), 30.0);
}

#[test]
fn column_not_found_is_error() {
    let b = batch_with(Float64Array::from(vec![1.0]), Float64Array::from(vec![10.0]));
    assert_eq!(check_batch_schema(&b, &names(&["missing"]), "target"), Err(SchemaIssue::FeatureNotFound(0)));
}

#[test]
fn non_float_column_is_error() {
    let schema = Schema::new(vec![
        Field::new("f0", DataType::Int64, true),
        Field::new("target", DataType::Float64, false),
    ]);
    let batch = RecordBatch::try_new(
        Arc::new(schema),
        vec![Arc::new(Int64Array::from(vec![1])), Arc::new(Float64Array::from(vec![10.0]))],
    )
    .expect("batch");
    let b = ArrowBatch { batch };
    assert_eq!(check_batch_schema(&b, &names(&["f0"]), "target"), Err(SchemaIssue::FeatureUnsupported(0)));
}

#[test]
fn feature_target_overlap_is_error() {
    let b = batch_with(Float64Array::from(vec![1.0]), Float64Array::from(vec![10.0]));
    assert_eq!(check_batch_schema(&b, &names(&["target"]), "target"), Err(SchemaIssue::FeatureTargetOverlap));
}

#[test]
fn empty_dataset_is_error() {
    let b = batch_with(Float64Array::from(Vec::<f64>::new()), Float64Array::from(Vec::<f64>::new()));
    assert_eq!(check_batch_schema(&b, &names(&["f0"]), "target"), Err(SchemaIssue::Empty));
}

#[test]
fn null_is_always_missing() {
    let b = batch_with(Float64Array::from(vec![Some(1.0), None]), Float64Array::from(vec![10.0, 20.0]));
    let plan = check_batch_schema(&b, &names(&["f0"]), "target").expect("schema");
    let cols = feature_columns(&b, &plan.feature_indices, MissingPolicy::KeepNan).expect("columns");
    assert!(!cols.is_missing(0, 0));
    assert!(cols.is_missing(0, 1));
}

#[test]
fn nan_missing_depends_on_policy() {
    let b = batch_with(Float64Array::from(vec![f64::NAN, 1.0]), Float64Array::from(vec![10.0, 20.0]));
    let plan = check_batch_schema(&b, &names(&["f0"]), "target").expect("schema");
    let keep = feature_columns(&b, &plan.feature_indices, MissingPolicy::KeepNan).expect("columns");
    assert!(!keep.is_missing(0, 0));
    let treat = feature_columns(&b, &plan.feature_indices, MissingPolicy::TreatNanAsMissing).expect("columns");
    assert!(treat.is_missing(0, 0));
    assert!(!treat.is_missing(0, 1));
}

#[test]
fn from_csv_bytes_parses_valid_csv() {
    let (b, plan, cols) = csv_columns(b"f0,target\n1.0,10\n2.5,20\n3.0,30\n", &["f0"], "target", MissingPolicy::default());
    assert_eq!(cols.num_rows(), 3);
    assert_eq!(cols.num_features(), 1);
    assert_eq!(f64::from_bits(cols.value(0, 2)), 3.0);
    assert_eq!(target_as_f64(&b, &plan).value(1), 20.0);
}

#[test]
fn from_csv_bytes_null_cell_is_missing() {
    let (_, _, cols) = csv_columns(b"f0,target\n,10\n2.0,20\n", &["f0"], "target", MissingPolicy::default());
    assert!(cols.is_missing(0, 0));
    assert!(!cols.is_missing(0, 1));
}

#[test]
fn from_csv_bytes_rejects_garbage_without_panic() {
    for bytes in [&b""[..], &b"not a csv at all"[..], &b"f0,target\n\x00\xff\xfe"[..], &b"f0,f1,target\n1,2,3\n4,5\n"[..]] {
        assert!(dataset_from_csv_bytes(bytes, &names(&["f0"]), "target").is_err());
    }
}

#[test]
fn csv_schema_problems_are_reported_in_order() {
    let csv = b"a,s,y,t\n1.5,x,0,p\n2.5,y,1,q\n";
    let issue = |features: &[&str], target: &str| match dataset_from_csv_bytes(csv, &names(features), target) {
        Err(CsvIssue::Schema { issue, .. }) => Some(issue),
        _ => None,
    };
    assert_eq!(issue(&["a", "zz"], "y"), Some(SchemaIssue::FeatureNotFound(1)));
    assert_eq!(issue(&["s", "zz"], "y"), Some(SchemaIssue::FeatureUnsupported(0)));
    assert_eq!(issue(&["a"], "nope"), Some(SchemaIssue::TargetNotFound));
    assert_eq!(issue(&["a"], "t"), Some(SchemaIssue::TargetUnsupported));
    assert_eq!(issue(&["a"], "y"), None);
    assert_eq!(issue(&["a"], "a"), Some(SchemaIssue::FeatureTargetOverlap));
    // with no records every column is inferred as `Null`, an unusable type
    assert!(matches!(
        dataset_from_csv_bytes(b"a,y\n", &names(&["a"]), "y"),
        Err(CsvIssue::Schema { issue: SchemaIssue::FeatureUnsupported(0), .. })
    ));
    assert!(matches!(dataset_from_csv_bytes(b"a,y\n1,2\n3\n", &names(&["a"]), "y"), Err(CsvIssue::Read(_))));
}

#[test]
fn csv_plan_places_features_and_target() {
    let (b, plan, cols) = csv_columns(b"y,b,a\n1,0.5,7.0\n0,1.5,8.0\n", &["a", "b"], "y", MissingPolicy::default());
    assert_eq!(plan, SchemaPlan { feature_indices: vec![2, 1], categorical: vec![false, false], target_index: 0 });
    assert_eq!(f64::from_bits(cols.value(0, 1)), 8.0);
    assert_eq!(f64::from_bits(cols.value(1, 0)), 0.5);
    assert_eq!(target_as_f64(&b, &plan).value(0), 1.0);
}

#[test]
fn dictionary_features_are_categorical_not_numeric() {
    let keys = vec![Some(0u32), Some(1), None];
    let dict: DictionaryArray<UInt32Type> =
        DictionaryArray::try_new(keys.into(), Arc::new(StringArray::from(vec!["a", "b"]))).expect("dict");
    let small: DictionaryArray<UInt8Type> =
        DictionaryArray::try_new(vec![0u8, 0, 0].into(), Arc::new(StringArray::from(vec!["z"]))).expect("dict");
    let columns: Vec<ArrayRef> = vec![
        Arc::new(Float64Array::from(vec![1.0, 2.0, 3.0])),
        Arc::new(dict),
        Arc::new(small),
        Arc::new(Int64Array::from(vec![0, 1, 0])),
    ];
    let fields: Vec<Field> = ["x", "c", "k", "y"]
        .iter()
        .zip(columns.iter())
        .map(|(n, c)| Field::new(*n, c.data_type().clone(), true))
        .collect();
    let batch = RecordBatch::try_new(Arc::new(Schema::new(fields)), columns).expect("batch");
    let b = ArrowBatch { batch };
    let plan = check_batch_schema(&b, &names(&["x", "c"]), "y").expect("schema");
    assert_eq!(plan, SchemaPlan { feature_indices: vec![0, 1], categorical: vec![false, true], target_index: 3 });
    assert_eq!(check_batch_schema(&b, &names(&["k"]), "y"), Err(SchemaIssue::FeatureUnsupported(0)));
    assert_eq!(
        feature_columns(&b, &plan.feature_indices, MissingPolicy::default()).unwrap_err(),
        ColumnsIssue::NotFloat(1)
    );
    assert_eq!(feature_columns(&b, &vec![0, 9], MissingPolicy::default()).unwrap_err(), ColumnsIssue::NotFloat(1));
}

#[test]
fn column_types_map_to_kinds() {
    assert_eq!(column_kind(ColumnType::Float64), ColumnKind::Float64);
    assert_eq!(column_kind(ColumnType::Int64), ColumnKind::OtherNumeric);
    assert_eq!(column_kind(ColumnType::Float32), ColumnKind::OtherNumeric);
    assert_eq!(column_kind(ColumnType::Dictionary(DictKey::UInt16)), ColumnKind::Dictionary { key_supported: true });
    assert_eq!(column_kind(ColumnType::Dictionary(DictKey::Other)), ColumnKind::Dictionary { key_supported: false });
    assert_eq!(column_kind(ColumnType::Other), ColumnKind::Other);
}
