use sooboost::api::{FittedModel, Objective};
use sooboost::binning::BinTable;
use sooboost::booster::{Booster, MulticlassBooster};
use sooboost::categorical::{CategoricalEncoding, FeatureEncoding};
use sooboost::loss::{BinaryLogLoss, SquaredError};
use sooboost::model::error::{LayoutError, ModelError};
use sooboost::model::format::{fnv1a64, VERSION};
use sooboost::tree::Tree;

fn b(x: f64) -> u64 {
    x.to_bits()
}

/// A stump on `feature`: `x <= t` gives `lo`, otherwise `hi`.
fn stump(feature: u32, t: f64, lo: f64, hi: f64) -> Tree {
    Tree::from_soa(
        vec![feature, 0, 0],
        vec![b(t), 0, 0],
        vec![true, false, false],
        vec![1, -1, -1],
        vec![2, -1, -1],
        vec![0, b(lo), b(hi)],
        vec![0, 0, 0],
        vec![b(1.5), 0, 0],
        vec![b(10.0), b(6.0), b(4.0)],
    )
}

fn table() -> BinTable {
    BinTable::new(vec![vec![b(0.0), b(0.5), b(1.0)], vec![b(-2.0), b(3.0)]], 16).expect("table")
}

fn fit_small() -> Booster<SquaredError> {
    Booster::from_parts(
        SquaredError,
        vec![stump(0, 0.5, -1.0, 2.0), stump(1, 3.0, 0.25, -0.75)],
        table(),
        b(0.3),
        b(0.1),
        None,
        Vec::new(),
    )
}

fn with_categorical() -> Booster<SquaredError> {
    let e = FeatureEncoding::new(vec![(1, b(0.5)), (7, b(1.5))], b(0.9), b(1.0)).expect("keys ascending");
    Booster::from_parts(
        SquaredError,
        vec![stump(0, 0.5, -1.0, 2.0)],
        table(),
        b(0.3),
        b(0.1),
        Some(CategoricalEncoding::from_parts(vec![e])),
        vec![1],
    )
}

fn multiclass() -> MulticlassBooster {
    MulticlassBooster::from_parts(
        3,
        vec![
            vec![stump(0, 0.5, 1.0, -1.0), stump(1, 3.0, 0.5, 0.0)],
            vec![stump(0, 0.0, -1.0, 1.0), stump(1, -2.0, 0.0, 0.5)],
            vec![stump(1, 3.0, 2.0, -2.0), stump(0, 1.0, 0.1, 0.2)],
        ],
        table(),
        vec![b(-1.0), b(0.0), b(1.0)],
        b(0.2),
    )
}

fn predict_all(m: &Booster<SquaredError>, values: &[u64], missing: &[bool]) -> Vec<u64> {
    m.trees().iter().map(|t| t.predict(values, missing)).collect()
}

fn same_trees(a: &[Tree], c: &[Tree]) {
    assert_eq!(a.len(), c.len());
    for (x, y) in a.iter().zip(c) {
        assert_eq!(x.split_features(), y.split_features());
        assert_eq!(x.thresholds(), y.thresholds());
        assert_eq!(x.missing_go_left(), y.missing_go_left());
        assert_eq!(x.left(), y.left());
        assert_eq!(x.right(), y.right());
        assert_eq!(x.leaf_values(), y.leaf_values());
        assert_eq!(x.depths(), y.depths());
        assert_eq!(x.split_gains(), y.split_gains());
        assert_eq!(x.node_counts(), y.node_counts());
    }
}

#[test]
fn roundtrip_predictions_bitwise_identical() {
    let model = fit_small();
    let bytes = model.serialize();
    let back = Booster::deserialize(&bytes, SquaredError).expect("deserialize");
    for row in [[b(0.2), b(5.0)], [b(0.7), b(-3.0)], [b(f64::NAN), b(3.0)]] {
        let missing = [row[0] == b(f64::NAN), false];
        assert_eq!(predict_all(&model, &row, &missing), predict_all(&back, &row, &missing));
    }
    assert_eq!(model.num_trees(), back.num_trees());
    assert_eq!(model.init_score(), back.init_score());
    assert_eq!(model.learning_rate(), back.learning_rate());
    assert_eq!(model.bin_table().max_bins(), back.bin_table().max_bins());
    for f in 0..model.bin_table().num_features() {
        assert_eq!(model.bin_table().boundaries(f), back.bin_table().boundaries(f));
    }
    same_trees(model.trees(), back.trees());
    assert_eq!(back.best_iteration(), 2);
    assert!(back.eval_history().is_empty());
}

#[test]
fn serialize_is_deterministic() {
    assert_eq!(fit_small().serialize(), fit_small().serialize());
}

#[test]
fn binary_roundtrip() {
    let model = Booster::from_parts(
        BinaryLogLoss,
        vec![stump(0, 0.5, -1.0, 2.0)],
        table(),
        b(-0.4),
        b(0.1),
        None,
        Vec::new(),
    );
    let bytes = model.serialize();
    let back = Booster::deserialize(&bytes, BinaryLogLoss).expect("deserialize binary");
    same_trees(model.trees(), back.trees());
    assert_eq!(back.init_score(), b(-0.4));
    assert_eq!(bytes, back.serialize());
}

#[test]
fn categorical_section_roundtrip() {
    let model = with_categorical();
    let bytes = model.serialize();
    let back = Booster::deserialize(&bytes, SquaredError).expect("deserialize");
    let enc = back.categorical_encoding().expect("encoding kept");
    assert_eq!(enc.num_features(), 1);
    assert_eq!(enc.value(0, 7), b(1.5));
    assert_eq!(enc.value(0, 3), b(0.9));
    assert_eq!(back.cat_features(), &vec![1u32]);
    assert_eq!(bytes, back.serialize());
}

#[test]
fn bad_magic_is_invalid_magic() {
    let mut bytes = fit_small().serialize();
    bytes[0] = b'X';
    let err = Booster::deserialize(&bytes, SquaredError).unwrap_err();
    assert!(matches!(err, ModelError::InvalidMagic));
}

#[test]
fn unsupported_version_is_explicit() {
    let mut bytes = fit_small().serialize();
    bytes[4..8].copy_from_slice(&(VERSION + 1).to_le_bytes());
    let err = Booster::deserialize(&bytes, SquaredError).unwrap_err();
    assert!(matches!(
        err,
        ModelError::UnsupportedVersion { version, supported } if version == VERSION + 1 && supported == VERSION
    ));
}

#[test]
fn corrupted_checksum_detected() {
    let mut bytes = fit_small().serialize();
    let mid = bytes.len() / 2;
    bytes[mid] ^= 0xFF;
    let err = Booster::deserialize(&bytes, SquaredError).unwrap_err();
    assert!(matches!(err, ModelError::ChecksumFailed { .. }));
}

#[test]
fn half_truncated_fails_checksum_integrity() {
    let bytes = fit_small().serialize();
    let cut = &bytes[..bytes.len() / 2];
    let err = Booster::deserialize(cut, SquaredError).unwrap_err();
    assert!(matches!(err, ModelError::ChecksumFailed { .. }));
}

#[test]
fn truncated_body_with_valid_checksum_is_truncated() {
    let full = fit_small().serialize();
    let body = &full[..full.len() / 2];
    let mut crafted = body.to_vec();
    crafted.extend_from_slice(&fnv1a64(body).to_le_bytes());
    let err = Booster::deserialize(&crafted, SquaredError).unwrap_err();
    assert!(matches!(err, ModelError::Truncated));
}

#[test]
fn loss_name_mismatch_is_explicit() {
    let bytes = fit_small().serialize();
    let err = Booster::deserialize(&bytes, BinaryLogLoss).unwrap_err();
    assert!(matches!(
        err,
        ModelError::LossMismatch { expected, found }
            if expected == "binary_logloss" && found == "squared_error"
    ));
}

#[test]
fn arbitrary_bytes_never_panic() {
    // deterministic pseudo-random inputs in place of a property test
    let mut state: u64 = 0x9e37_79b9_7f4a_7c15;
    for len in 0..300usize {
        let mut data = Vec::with_capacity(len);
        for _ in 0..len {
            state ^= state << 13;
            state ^= state >> 7;
            state ^= state << 17;
            data.push((state >> 24) as u8);
        }
        let _ = Booster::deserialize(&data, SquaredError);
        let _ = Booster::deserialize(&data, BinaryLogLoss);
        let _ = MulticlassBooster::deserialize(&data);
        let _ = FittedModel::from_bytes(&data);
    }
    // and every prefix of a real model
    let bytes = fit_small().serialize();
    for cut in 0..bytes.len() {
        assert!(Booster::deserialize(&bytes[..cut], SquaredError).is_err());
    }
}

#[test]
fn scalar_loader_rejects_multiclass_file() {
    let bytes = multiclass().serialize();
    let err = Booster::deserialize(&bytes, SquaredError).unwrap_err();
    assert!(matches!(
        err,
        ModelError::LossMismatch { expected, found }
            if expected == "squared_error" && found == "multiclass_softmax"
    ));
}

#[test]
fn multiclass_save_load_roundtrip_is_bitwise_identical() {
    let m = multiclass();
    let bytes = m.serialize();
    let back = MulticlassBooster::deserialize(&bytes).expect("deserialize multiclass");
    assert_eq!(back.n_classes(), 3);
    assert_eq!(back.num_trees_per_class(), 2);
    assert_eq!(back.num_trees(), 6);
    assert_eq!(back.init_scores(), m.init_scores());
    assert_eq!(back.learning_rate(), m.learning_rate());
    for k in 0..3 {
        same_trees(&m.class_trees()[k], &back.class_trees()[k]);
    }
    assert_eq!(bytes, back.serialize());
}

#[test]
fn multiclass_loader_rejects_scalar_file() {
    let bytes = fit_small().serialize();
    let err = MulticlassBooster::deserialize(&bytes).unwrap_err();
    assert!(matches!(
        err,
        ModelError::LossMismatch { expected, found }
            if expected == "multiclass_softmax" && found == "squared_error"
    ));
}

#[test]
fn loaded_objective_is_detected_not_assumed() {
    let reg = FittedModel::from_bytes(&fit_small().serialize()).expect("regression");
    assert_eq!(reg.objective(), Objective::SquaredError);
    assert_eq!(reg.num_trees(), 2);
    assert_eq!(reg.num_classes(), None);
    let bin = Booster::from_parts(BinaryLogLoss, vec![stump(0, 0.5, -1.0, 2.0)], table(), 0, b(0.1), None, Vec::new());
    let bin = FittedModel::from_bytes(&bin.serialize()).expect("binary");
    assert_eq!(bin.objective(), Objective::BinaryLogLoss);
    let mc = FittedModel::from_bytes(&multiclass().serialize()).expect("multiclass");
    assert_eq!(mc.objective(), Objective::MulticlassSoftmax);
    assert_eq!(mc.num_classes(), Some(3));
    assert_eq!(mc.num_trees(), 2);
    assert_eq!(mc.num_features(), 2);
    assert_eq!(mc.best_iteration(), 2);
    assert_eq!(FittedModel::from_bytes(&multiclass().serialize()).unwrap().to_bytes(), multiclass().serialize());
}

#[test]
fn corrupted_model_bytes_are_reported_not_ignored() {
    let mut bytes = fit_small().serialize();
    bytes[10] ^= 0x01;
    assert!(matches!(FittedModel::from_bytes(&bytes), Err(ModelError::ChecksumFailed { .. })));
    assert!(matches!(FittedModel::from_bytes(&[]), Err(ModelError::InvalidMagic)));
}

#[test]
fn non_finite_learning_rate_is_rejected() {
    let model = Booster::from_parts(SquaredError, vec![stump(0, 0.5, -1.0, 2.0)], table(), b(0.3), b(f64::INFINITY), None, Vec::new());
    let err = Booster::deserialize(&model.serialize(), SquaredError).unwrap_err();
    assert!(matches!(err, ModelError::InvalidLayout(LayoutError::NonFiniteScores)));
}

#[test]
fn split_feature_out_of_table_is_rejected() {
    let model = Booster::from_parts(SquaredError, vec![stump(5, 0.5, -1.0, 2.0)], table(), b(0.3), b(0.1), None, Vec::new());
    let err = Booster::deserialize(&model.serialize(), SquaredError).unwrap_err();
    assert!(matches!(err, ModelError::InvalidLayout(LayoutError::SplitFeatureOutOfRange)));
}

#[test]
fn negative_gain_is_rejected() {
    let t = Tree::from_soa(vec![0], vec![0], vec![false], vec![-1], vec![-1], vec![b(1.0)], vec![0], vec![b(-1.0)], vec![b(1.0)]);
    let model = Booster::from_parts(SquaredError, vec![t], table(), b(0.3), b(0.1), None, Vec::new());
    let err = Booster::deserialize(&model.serialize(), SquaredError).unwrap_err();
    assert!(matches!(err, ModelError::InvalidLayout(LayoutError::SplitGainInvalid)));
}

#[test]
fn partial_children_are_rejected() {
    let t = Tree::from_soa(vec![0, 0], vec![0, 0], vec![false, false], vec![1, -1], vec![-1, -1], vec![0, 0], vec![0, 0], vec![0, 0], vec![0, 0]);
    let model = Booster::from_parts(SquaredError, vec![t], table(), b(0.3), b(0.1), None, Vec::new());
    let err = Booster::deserialize(&model.serialize(), SquaredError).unwrap_err();
    assert!(matches!(err, ModelError::InvalidLayout(LayoutError::PartialChildren)));
}

#[test]
fn multiclass_tree_count_must_divide() {
    let mut bytes = multiclass().serialize();
    // claim 4 classes: 6 trees do not split into 4 runs (init scores shift the layout,
    // so the structure check or the count check fires; either way it is rejected)
    let name_len = u16::from_le_bytes([bytes[8], bytes[9]]) as usize;
    let at = 10 + name_len;
    bytes[at..at + 4].copy_from_slice(&4u32.to_le_bytes());
    let n = bytes.len() - 8;
    let sum = fnv1a64(&bytes[..n]);
    bytes[n..].copy_from_slice(&sum.to_le_bytes());
    assert!(MulticlassBooster::deserialize(&bytes).is_err());
}

#[test]
fn training_record_keeps_the_model() {
    let m = fit_small();
    assert_eq!(m.best_iteration(), 2);
    assert!(m.eval_history().is_empty());
    assert_eq!(m.loss_name(), "squared_error");
    let bytes = m.serialize();
    let m = m.with_training_record(1, vec![b(0.5), b(0.25)]);
    assert_eq!(m.best_iteration(), 1);
    assert_eq!(m.eval_history(), &vec![b(0.5), b(0.25)]);
    assert_eq!(m.serialize(), bytes);
    assert_eq!(m.learning_rate(), b(0.1));
    assert_eq!(m.init_score(), b(0.3));
    assert!(m.cat_features().is_empty());
}
