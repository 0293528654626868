use sooboost::abi::{
    bytes_plan, check_feature_count, check_matrix, check_out_cap, check_output, choose_task, class_count_code,
    capacity_len, last_error_len, positive_dims, probability_len, AbiError, AbiTask, BytesPlan,
};
use sooboost::api::Objective;
use sooboost::schema::{check_schema, ColumnKind, SchemaIssue, SchemaPlan};

#[test]
fn dims_must_be_positive() {
    assert_eq!(positive_dims(3, 2), Ok((3, 2)));
    assert_eq!(positive_dims(0, 2), Err(AbiError::NonPositiveDims { n_rows: 0, n_features: 2 }));
    assert_eq!(positive_dims(3, -1), Err(AbiError::NonPositiveDims { n_rows: 3, n_features: -1 }));
}

#[test]
fn matrix_shape_checks_in_order() {
    assert_eq!(check_matrix(0, 0, 5, 5), Err(AbiError::NoRows));
    assert_eq!(check_matrix(2, 0, 5, 5), Err(AbiError::NoFeatures));
    assert_eq!(check_matrix(2, 3, 5, 1), Err(AbiError::LabelCount { expected: 2, got: 1 }));
    assert_eq!(check_matrix(2, 3, 5, 2), Err(AbiError::DataCount { expected: 6, got: 5 }));
    assert_eq!(check_matrix(2, 3, 6, 2), Ok(()));
    assert_eq!(
        check_matrix(usize::MAX, 2, 0, usize::MAX),
        Err(AbiError::DataCount { expected: usize::MAX, got: 0 })
    );
}

#[test]
fn task_choice() {
    assert_eq!(choose_task(None, None), Ok(AbiTask::Regression));
    assert_eq!(choose_task(Some("binary"), Some(3)), Ok(AbiTask::Binary));
    assert_eq!(choose_task(Some("multiclass"), Some(3)), Ok(AbiTask::Multiclass(3)));
    assert_eq!(choose_task(Some("multiclass"), None), Err(AbiError::MissingClassCount));
    assert_eq!(choose_task(Some("ranking"), None), Err(AbiError::UnknownTask("ranking".to_string())));
}

#[test]
fn output_checks() {
    assert_eq!(check_feature_count(4, 4), Ok(()));
    assert_eq!(check_feature_count(4, 3), Err(AbiError::FeatureCount { expected: 4, got: 3 }));
    assert_eq!(check_output(5, 5), Ok(()));
    assert_eq!(check_output(5, 4), Err(AbiError::OutputTooSmall { needed: 5, got: 4 }));
    assert_eq!(check_out_cap(3, 3), Ok(()));
    assert_eq!(check_out_cap(3, 2), Err(AbiError::OutCapBelowRows { n_rows: 3, out_cap: 2 }));
    assert_eq!(probability_len(Objective::SquaredError, 4, 0), Err(AbiError::NoProbabilities));
    assert_eq!(probability_len(Objective::BinaryLogLoss, 4, 0), Ok(4));
    assert_eq!(probability_len(Objective::MulticlassSoftmax, 4, 3), Ok(12));
    assert_eq!(class_count_code(Some(3)), 3);
    assert_eq!(class_count_code(None), -1);
}

#[test]
fn byte_buffer_protocol() {
    assert_eq!(bytes_plan(true, 0, 100), Ok(BytesPlan::Probe(100)));
    assert_eq!(bytes_plan(true, 10, 100), Err(AbiError::ProbeWithCapacity));
    assert_eq!(bytes_plan(false, -1, 100), Err(AbiError::NegativeCapacity(-1)));
    assert_eq!(bytes_plan(false, 99, 100), Err(AbiError::BufferTooSmall { needed: 100, cap: 99 }));
    assert_eq!(bytes_plan(false, 100, 100), Ok(BytesPlan::Write(100)));
    assert_eq!(bytes_plan(false, 500, 100), Ok(BytesPlan::Write(100)));
}

#[test]
fn last_error_is_cut_to_capacity() {
    let ten = "0123456789";
    assert_eq!(last_error_len(true, ten, 5), None);
    assert_eq!(last_error_len(false, ten, 0), None);
    assert_eq!(last_error_len(false, ten, -3), None);
    assert_eq!(last_error_len(false, ten, 5), Some(4));
    assert_eq!(last_error_len(false, ten, 11), Some(10));
    assert_eq!(last_error_len(false, ten, 10), Some(9));
    assert_eq!(last_error_len(false, "", 1), Some(0));
}

#[test]
fn last_error_is_cut_on_a_char_boundary() {
    // "€" is three bytes, "é" two.
    assert_eq!(last_error_len(false, "€", 2), Some(0));
    assert_eq!(last_error_len(false, "€", 3), Some(0));
    assert_eq!(last_error_len(false, "€", 4), Some(3));
    assert_eq!(last_error_len(false, "aé€", 3), Some(1));
    assert_eq!(last_error_len(false, "aé€", 4), Some(3));
    assert_eq!(last_error_len(false, "aé€", 6), Some(3));
    assert_eq!(last_error_len(false, "aé€", 7), Some(6));
    let msg = "bad é value";
    let n = last_error_len(false, msg, 6).unwrap();
    assert_eq!(&msg[..n], "bad ");
}

fn names(items: &[&str]) -> Vec<String> {
    items.iter().map(|s| s.to_string()).collect()
}

#[test]
fn schema_plan_locates_features_and_target() {
    let cols = names(&["f0", "city", "target", "f0"]);
    let kinds = vec![
        ColumnKind::Float64,
        ColumnKind::Dictionary { key_supported: true },
        ColumnKind::OtherNumeric,
        ColumnKind::Other,
    ];
    let plan = check_schema(&cols, &kinds, &names(&["city", "f0"]), "target", 5).expect("valid");
    assert_eq!(
        plan,
        SchemaPlan { feature_indices: vec![1, 0], categorical: vec![true, false], target_index: 2 }
    );
}

#[test]
fn schema_problems_in_order() {
    let cols = names(&["a", "b", "c", "d", "y"]);
    let kinds = vec![
        ColumnKind::Float64,
        ColumnKind::Dictionary { key_supported: false },
        ColumnKind::Other,
        ColumnKind::Float64,
        ColumnKind::Other,
    ];
    let check = |f: &[&str], t: &str, rows: usize| check_schema(&cols, &kinds, &names(f), t, rows);
    assert_eq!(check(&["a", "zz", "b"], "y", 3), Err(SchemaIssue::FeatureNotFound(1)));
    assert_eq!(check(&["a", "b"], "zz", 3), Err(SchemaIssue::FeatureUnsupported(1)));
    assert_eq!(check(&["c"], "y", 3), Err(SchemaIssue::FeatureUnsupported(0)));
    assert_eq!(check(&["a"], "zz", 3), Err(SchemaIssue::TargetNotFound));
    assert_eq!(check(&["a", "d"], "d", 3), Err(SchemaIssue::FeatureTargetOverlap));
    assert_eq!(check(&["a"], "d", 0), Err(SchemaIssue::Empty));
    assert_eq!(check(&["a"], "y", 3), Err(SchemaIssue::TargetUnsupported));
    assert!(check(&["a"], "d", 3).is_ok());
}

#[test]
fn negative_capacity_is_refused() {
    assert_eq!(capacity_len(-1), Err(AbiError::NegativeCapacity(-1)));
    assert_eq!(capacity_len(i64::MIN), Err(AbiError::NegativeCapacity(i64::MIN)));
    assert_eq!(capacity_len(0), Ok(0));
    assert_eq!(capacity_len(12), Ok(12));
}
