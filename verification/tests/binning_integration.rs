use sooboost::binning::{
    compute_quantile_boundaries, BinTable, BinningError, BinnedMatrix, DEFAULT_MAX_BINS, MAX_FEATURE_BOUNDARIES,
    MISSING_BIN,
};
use sooboost::data::{is_missing_value, FeatureColumns, MissingPolicy};

fn b(x: f64) -> u64 {
    x.to_bits()
}

fn f(bits: u64) -> f64 {
    f64::from_bits(bits)
}

fn tiny_dataset(policy: MissingPolicy) -> FeatureColumns {
    let f0 = vec![b(0.0), b(1.0), b(2.0), b(3.0), b(f64::NAN)];
    let f1 = vec![b(5.0), 0, b(7.0), b(8.0), b(9.0)];
    FeatureColumns::new(
        vec![f0, f1],
        vec![vec![false; 5], vec![false, true, false, false, false]],
        5,
        policy,
    )
    .expect("shaped columns")
}

/// A deterministic column of `n` pseudo-random values.
fn column(n: usize, seed: u64) -> Vec<u64> {
    let mut s = seed;
    (0..n)
        .map(|_| {
            s = s.wrapping_mul(6364136223846793005).wrapping_add(1442695040888963407);
            b(((s >> 11) as f64 / (1u64 << 53) as f64) * 100.0 - 50.0)
        })
        .collect()
}

#[test]
fn empty_values_give_no_boundaries() {
    assert!(compute_quantile_boundaries(&[], 255).is_empty());
}

#[test]
fn boundaries_within_data_range() {
    let values: Vec<u64> = (0..1000).map(|i| b(i as f64)).collect();
    let bs = compute_quantile_boundaries(&values, 255);
    assert!(bs.len() <= 254);
    assert!(bs.windows(2).all(|w| f(w[0]) < f(w[1])));
    assert!(bs.iter().all(|v| f(*v) >= 0.0 && f(*v) <= 999.0));
}

#[test]
fn boundaries_strictly_increasing() {
    for (n, max_bins) in [(0usize, 2usize), (1, 2), (7, 3), (50, 8), (499, 63), (300, 2)] {
        let mut values = column(n, n as u64 + 3);
        // add repeats
        for i in 0..n / 3 {
            values[i] = values[n - 1 - i];
        }
        let bs = compute_quantile_boundaries(&values, max_bins);
        assert!(bs.len() <= max_bins.saturating_sub(1));
        assert!(bs.windows(2).all(|w| f(w[0]) < f(w[1])));
        for v in &bs {
            assert!(values.contains(v));
        }
    }
}

#[test]
fn quantiles_pick_equal_frequency_positions() {
    // sorted 0..10, max_bins 4: positions 10*1/4=2, 10*2/4=5, 10*3/4=7
    let values: Vec<u64> = [9.0, 3.0, 0.0, 7.0, 1.0, 8.0, 2.0, 6.0, 4.0, 5.0].iter().map(|x| b(*x)).collect();
    let bs = compute_quantile_boundaries(&values, 4);
    assert_eq!(bs, vec![b(2.0), b(5.0), b(7.0)]);
    // equal values collapse
    let same = vec![b(1.0); 10];
    assert_eq!(compute_quantile_boundaries(&same, 4), vec![b(1.0)]);
    // signed zeros are equal numbers
    let zeros = vec![b(-0.0), b(0.0), b(-0.0), b(0.0)];
    assert_eq!(compute_quantile_boundaries(&zeros, 4).len(), 1);
}

#[test]
fn bin_value_is_order_preserving() {
    let values: Vec<u64> = (0..1000).map(|i| b(i as f64 * 0.5)).collect();
    let bs = compute_quantile_boundaries(&values, 64);
    let table = BinTable::new(vec![bs], 64).expect("table");
    let mut prev = 0;
    for i in 0..1000 {
        let bin = table.bin_value(0, b(i as f64 * 0.5));
        assert!(bin >= prev);
        prev = bin;
    }
}

#[test]
fn boundary_value_falls_in_its_own_bin() {
    let table = BinTable::new(vec![vec![b(1.0), b(2.0), b(3.0)]], 8).expect("table");
    assert_eq!(table.bin_value(0, b(0.5)), 0);
    assert_eq!(table.bin_value(0, b(1.0)), 0);
    assert_eq!(table.bin_value(0, b(1.5)), 1);
    assert_eq!(table.bin_value(0, b(3.0)), 2);
    assert_eq!(table.bin_value(0, b(3.5)), 3);
    assert_eq!(table.num_bins(0), 4);
    assert_eq!(table.missing_bin(), MISSING_BIN);
}

#[test]
fn bin_table_rejects_bad_boundaries() {
    assert_eq!(
        BinTable::new(vec![vec![b(1.0)], vec![b(1.0), b(2.0), b(3.0)]], 3).unwrap_err(),
        BinningError::TooManyBoundaries { feature: 1, got: 3, max_bins: 3 }
    );
    assert_eq!(
        BinTable::new(vec![vec![b(2.0), b(1.0)]], 8).unwrap_err(),
        BinningError::BoundariesNotSorted { feature: 0 }
    );
    assert_eq!(
        BinTable::new(vec![vec![b(1.0), b(1.0)]], 8).unwrap_err(),
        BinningError::BoundariesNotSorted { feature: 0 }
    );
    assert!(BinTable::new(vec![vec![b(1.0)]], 0).is_err());
    assert_eq!(DEFAULT_MAX_BINS, 255);
}

#[test]
fn missing_rows_map_to_missing_bin() {
    let ds = tiny_dataset(MissingPolicy::default());
    let (table, matrix) = BinTable::build_from_dataset(&ds, 16).expect("binning");
    assert_eq!(matrix.num_features(), 2);
    assert_eq!(matrix.num_rows(), 5);
    assert_eq!(matrix.bin(0, 4), MISSING_BIN);
    assert_eq!(matrix.bin(1, 1), MISSING_BIN);
    for (fe, r) in [(0, 0), (0, 1), (0, 2), (0, 3), (1, 0), (1, 2), (1, 3), (1, 4)] {
        assert_ne!(matrix.bin(fe, r), MISSING_BIN);
    }
    assert!(table.boundaries(0).windows(2).all(|w| f(w[0]) < f(w[1])));
    assert!(table.boundaries(1).windows(2).all(|w| f(w[0]) < f(w[1])));
}

#[test]
fn keep_nan_treats_nan_as_value() {
    let (_, matrix) = BinTable::build_from_dataset(&tiny_dataset(MissingPolicy::default()), 16).expect("binning");
    assert_eq!(matrix.bin(0, 4), MISSING_BIN);
    let (_, matrix2) = BinTable::build_from_dataset(&tiny_dataset(MissingPolicy::KeepNan), 16).expect("binning");
    assert_ne!(matrix2.bin(0, 4), MISSING_BIN);
    assert_eq!(matrix2.bin(1, 1), MISSING_BIN);
}

#[test]
fn binning_is_deterministic() {
    let cols: Vec<Vec<u64>> = (0..4).map(|i| column(300, i)).collect();
    let nulls = vec![vec![false; 300]; 4];
    let ds = FeatureColumns::new(cols, nulls, 300, MissingPolicy::default()).unwrap();
    let (t1, m1) = BinTable::build_from_dataset(&ds, DEFAULT_MAX_BINS).unwrap();
    let (t2, m2) = BinTable::build_from_dataset(&ds, DEFAULT_MAX_BINS).unwrap();
    for fe in 0..4 {
        assert_eq!(t1.boundaries(fe), t2.boundaries(fe));
    }
    for fe in 0..m1.num_features() {
        for r in 0..m1.num_rows() {
            assert_eq!(m1.bin(fe, r), m2.bin(fe, r));
        }
    }
}

#[test]
fn binning_produces_valid_bins() {
    let cols: Vec<Vec<u64>> = (0..3).map(|i| column(500, 10 + i)).collect();
    let ds = FeatureColumns::new(cols.clone(), vec![vec![false; 500]; 3], 500, MissingPolicy::default()).unwrap();
    let (table, matrix) = BinTable::build_from_dataset(&ds, 32).unwrap();
    for fe in 0..3 {
        assert!(table.boundaries(fe).windows(2).all(|w| f(w[0]) < f(w[1])));
        for r in 0..500 {
            let bin = matrix.bin(fe, r);
            assert_ne!(bin, MISSING_BIN);
            assert!((bin as usize) < table.num_bins(fe));
            assert_eq!(bin, table.bin_value(fe, cols[fe][r]));
        }
    }
    let again = BinnedMatrix::build(&ds, &table);
    assert_eq!(again.bin(2, 17), matrix.bin(2, 17));
}

#[test]
fn feature_columns_reject_ragged_input() {
    assert!(FeatureColumns::new(vec![vec![0, 0], vec![0]], vec![vec![false; 2], vec![false; 2]], 2, MissingPolicy::KeepNan).is_none());
    assert!(FeatureColumns::new(vec![vec![0, 0]], vec![], 2, MissingPolicy::KeepNan).is_none());
}

#[test]
fn default_policy_treats_nan_as_missing() {
    assert_eq!(MissingPolicy::default(), MissingPolicy::TreatNanAsMissing);
}

#[test]
fn nan_is_missing_only_when_the_policy_says() {
    assert!(is_missing_value(b(f64::NAN), false, MissingPolicy::TreatNanAsMissing));
    assert!(!is_missing_value(b(f64::NAN), false, MissingPolicy::KeepNan));
    assert!(!is_missing_value(b(1.0), false, MissingPolicy::TreatNanAsMissing));
}

#[test]
fn null_flag_is_missing_under_every_policy() {
    assert!(is_missing_value(b(1.0), true, MissingPolicy::TreatNanAsMissing));
    assert!(is_missing_value(b(1.0), true, MissingPolicy::KeepNan));
}

#[test]
fn real_values_never_get_the_missing_bin() {
    let full: Vec<u64> = (0..MAX_FEATURE_BOUNDARIES).map(|i| b(i as f64)).collect();
    let table = BinTable::new(vec![full.clone()], 100_000).expect("table at the limit");
    let top = table.bin_value(0, b(1.0e9));
    assert_eq!(top as usize, MAX_FEATURE_BOUNDARIES);
    assert_ne!(top, MISSING_BIN);
    assert_eq!(table.num_bins(0), MAX_FEATURE_BOUNDARIES + 1);

    let mut over = full;
    over.push(b(1.0e8));
    assert_eq!(
        BinTable::new(vec![over], 100_000).unwrap_err(),
        BinningError::TooManyBoundaries { feature: 0, got: MAX_FEATURE_BOUNDARIES + 1, max_bins: 100_000 }
    );
}

#[test]
fn huge_max_bins_with_many_distinct_values_is_refused() {
    let n = MAX_FEATURE_BOUNDARIES + 10;
    let col: Vec<u64> = (0..n).map(|i| b(i as f64)).collect();
    let ds = FeatureColumns::new(vec![col], vec![vec![false; n]], n, MissingPolicy::default()).expect("columns");
    let err = BinTable::build_from_dataset(&ds, n + 1).unwrap_err();
    assert_eq!(err, BinningError::TooManyBoundaries { feature: 0, got: n, max_bins: n + 1 });
}

#[test]
fn boundaries_do_not_depend_on_value_order() {
    let values = vec![b(3.0), b(-1.0), b(7.5), b(3.0), b(0.0), b(2.0), b(9.0), b(-4.0)];
    let mut reversed = values.clone();
    reversed.reverse();
    let mut rotated = values.clone();
    rotated.rotate_left(3);
    for max_bins in [2usize, 3, 4, 8, 16] {
        let expected = compute_quantile_boundaries(&values, max_bins);
        assert_eq!(compute_quantile_boundaries(&reversed, max_bins), expected);
        assert_eq!(compute_quantile_boundaries(&rotated, max_bins), expected);
    }
}

#[test]
fn boundaries_are_empty_exactly_without_values() {
    assert!(compute_quantile_boundaries(&[], 2).is_empty());
    assert!(compute_quantile_boundaries(&[], 255).is_empty());
    assert_eq!(compute_quantile_boundaries(&[b(5.0)], 2), vec![b(5.0)]);
    assert!(!compute_quantile_boundaries(&[b(1.0), b(1.0)], 255).is_empty());
    // with a single bin there is nothing to separate
    assert!(compute_quantile_boundaries(&[b(1.0), b(2.0)], 1).is_empty());
}
