use sooboost::api::{
    check_fit_request, check_n_classes, check_row_input, kfold_ranges, train_segments, validate_config, FitRefusal, Objective,
    ParamIssue, RowIssue,
};
use rand_xoshiro::rand_core::{Rng, SeedableRng};
use rand_xoshiro::Xoshiro256PlusPlus;
use sooboost::context::{shuffle, SeededRng, TrainingContext};
use sooboost::float_bits::{from_total_order_key, is_finite, is_finite_nonneg, is_nan, le, lt, total_order_key};
use sooboost::sorting::sort_ascending;
use sooboost::categorical::{CategoricalEncoding, FeatureEncoding};
use sooboost::loss::{BinaryLogLoss, GammaLoss, HuberLoss, Loss, PoissonLoss, QuantileLoss, SquaredError, TweedieLoss};

fn b(x: f64) -> u64 {
    x.to_bits()
}

#[test]
fn objective_names_match_model_headers() {
    assert_eq!(Objective::SquaredError.name(), "squared_error");
    assert_eq!(Objective::BinaryLogLoss.name(), "binary_logloss");
    assert_eq!(Objective::MulticlassSoftmax.name(), "multiclass_softmax");
    assert_eq!(Objective::default(), Objective::SquaredError);
    assert_eq!(Objective::SquaredError.cv_metric(), "r2");
    assert_eq!(Objective::BinaryLogLoss.cv_metric(), "auc");
    assert_eq!(Objective::MulticlassSoftmax.cv_metric(), "accuracy");
    assert_eq!(SquaredError.name(), "squared_error");
    assert_eq!(BinaryLogLoss.name(), "binary_logloss");
    assert_eq!(PoissonLoss.name(), "poisson");
    assert_eq!(GammaLoss.name(), "gamma");
}

#[test]
fn invalid_params_are_rejected_before_training() {
    let ok = validate_config(100, b(0.1), 5, 255, 64, b(1.0));
    assert!(ok.is_ok());
    assert_eq!(validate_config(0, b(0.1), 5, 255, 64, b(1.0)), Err(ParamIssue::NEstimators));
    assert_eq!(validate_config(1, b(0.0), 5, 255, 64, b(1.0)), Err(ParamIssue::LearningRate));
    assert_eq!(validate_config(1, b(-0.1), 5, 255, 64, b(1.0)), Err(ParamIssue::LearningRate));
    assert_eq!(validate_config(1, b(f64::NAN), 5, 255, 64, b(1.0)), Err(ParamIssue::LearningRate));
    assert_eq!(validate_config(1, b(f64::INFINITY), 5, 255, 64, b(1.0)), Err(ParamIssue::LearningRate));
    assert_eq!(validate_config(1, b(0.1), 0, 255, 64, b(1.0)), Err(ParamIssue::MinSamplesLeaf));
    assert_eq!(validate_config(1, b(0.1), 1, 1, 64, b(1.0)), Err(ParamIssue::MaxBins));
    assert_eq!(validate_config(1, b(0.1), 1, 2, 0, b(1.0)), Err(ParamIssue::MaxCategories));
    assert_eq!(validate_config(1, b(0.1), 1, 2, 1, b(-1.0)), Err(ParamIssue::CategoricalAlpha));
    assert_eq!(validate_config(1, b(0.1), 1, 2, 1, b(f64::NAN)), Err(ParamIssue::CategoricalAlpha));
    assert!(validate_config(1, b(0.1), 1, 2, 1, b(-0.0)).is_ok());
    assert_eq!(check_n_classes(1), Err(ParamIssue::NClasses));
    assert!(check_n_classes(2).is_ok());
}

#[test]
fn cross_validate_k_bounds_are_validated() {
    assert_eq!(kfold_ranges(10, 1), Err(ParamIssue::TooFewFolds));
    assert_eq!(kfold_ranges(10, 0), Err(ParamIssue::TooFewFolds));
    assert_eq!(kfold_ranges(3, 4), Err(ParamIssue::MoreFoldsThanRows));
}

#[test]
fn folds_are_contiguous_and_balanced() {
    assert_eq!(kfold_ranges(10, 3).unwrap(), vec![(0, 4), (4, 3), (7, 3)]);
    assert_eq!(kfold_ranges(4, 4).unwrap(), vec![(0, 1), (1, 1), (2, 1), (3, 1)]);
    for n in 2..40usize {
        for k in 2..=n {
            let folds = kfold_ranges(n, k).unwrap();
            let mut next = 0;
            for (off, len) in &folds {
                assert_eq!(*off, next);
                assert!(*len == n / k || *len == n / k + 1);
                next += len;
            }
            assert_eq!(next, n);
        }
    }
}

#[test]
fn train_segments_cover_the_rest() {
    assert_eq!(train_segments(10, 0, 4), vec![(4, 6)]);
    assert_eq!(train_segments(10, 7, 3), vec![(0, 7)]);
    assert_eq!(train_segments(10, 4, 3), vec![(0, 4), (7, 3)]);
}

#[test]
fn shuffle_is_a_deterministic_permutation() {
    let ctx = TrainingContext::new(42);
    assert_eq!(ctx.rng_seed(), 42);
    let mut a: Vec<usize> = (0..50).collect();
    let mut c: Vec<usize> = (0..50).collect();
    shuffle(&mut a, &mut ctx.rng());
    shuffle(&mut c, &mut TrainingContext::new(42).rng());
    assert_eq!(a, c);
    let mut sorted = a.clone();
    sorted.sort();
    assert_eq!(sorted, (0..50).collect::<Vec<_>>());
    assert_ne!(a, (0..50).collect::<Vec<_>>());
    let mut one = vec![7usize];
    shuffle(&mut one, &mut ctx.rng());
    assert_eq!(one, vec![7]);
}

#[test]
fn float_predicates_match_f64() {
    let samples = [0.0, -0.0, 1.0, -1.0, 0.5, f64::INFINITY, f64::NEG_INFINITY, f64::NAN, -f64::NAN, 1e-310, f64::MAX, f64::MIN];
    for x in samples {
        assert_eq!(is_nan(b(x)), x.is_nan());
        assert_eq!(is_finite(b(x)), x.is_finite());
        assert_eq!(is_finite_nonneg(b(x)), x.is_finite() && x >= 0.0);
        assert_eq!(from_total_order_key(total_order_key(b(x))), b(x));
        for y in samples {
            assert_eq!(lt(b(x), b(y)), x < y, "{x} < {y}");
            assert_eq!(le(b(x), b(y)), x <= y, "{x} <= {y}");
            assert_eq!(
                total_order_key(b(x)).cmp(&total_order_key(b(y))),
                x.total_cmp(&y),
                "total order of {x} and {y}"
            );
        }
    }
}

#[test]
fn sort_ascending_sorts() {
    let mut v = vec![5u64, 1, 9, 1, 0, u64::MAX, 3];
    sort_ascending(&mut v);
    assert_eq!(v, vec![0, 1, 1, 3, 5, 9, u64::MAX]);
}

#[test]
fn oov_new_category_uses_prior() {
    let e = FeatureEncoding::new(vec![(2, b(0.25)), (5, b(0.75))], b(0.5), b(1.0)).unwrap();
    assert_eq!(e.value(2), b(0.25));
    assert_eq!(e.value(5), b(0.75));
    assert_eq!(e.value(3), b(0.5));
    assert_eq!(e.prior(), b(0.5));
    assert_eq!(e.alpha(), b(1.0));
    assert!(FeatureEncoding::new(vec![(5, 0), (2, 0)], 0, 0).is_none());
    assert!(FeatureEncoding::new(vec![(5, 0), (5, 0)], 0, 0).is_none());
    let enc = CategoricalEncoding::from_parts(vec![e]);
    assert_eq!(enc.num_features(), 1);
    assert_eq!(enc.value(0, 9), b(0.5));
    assert_eq!(enc.entries(0), vec![(2, b(0.25)), (5, b(0.75))]);
}

#[test]
fn parameterised_losses_have_names_and_defaults() {
    assert_eq!(HuberLoss::default().name(), "huber");
    assert_eq!(QuantileLoss::default().name(), "quantile");
    assert_eq!(TweedieLoss::default().name(), "tweedie");
    assert_eq!(f64::from_bits(HuberLoss::default().delta), 1.0);
    assert_eq!(f64::from_bits(QuantileLoss::default().alpha), 0.5);
    assert_eq!(f64::from_bits(TweedieLoss::default().power), 1.5);
}

#[test]
fn seeded_generator_follows_xoshiro() {
    let mut reference = Xoshiro256PlusPlus::seed_from_u64(42);
    let mut g = TrainingContext::new(42).rng();
    let mut h = SeededRng::seed_from_u64(42);
    for _ in 0..5 {
        let x = reference.next_u64();
        assert_eq!(g.next_u64(), x);
        assert_eq!(h.next_u64(), x);
    }
    assert_ne!(SeededRng::seed_from_u64(1).next_u64(), SeededRng::seed_from_u64(2).next_u64());
}

#[test]
fn shuffle_is_fisher_yates_over_the_draws() {
    let mut expected: Vec<usize> = (0..10).collect();
    let mut reference = Xoshiro256PlusPlus::seed_from_u64(7);
    for i in (1..expected.len()).rev() {
        let j = (reference.next_u64() as usize) % (i + 1);
        expected.swap(i, j);
    }
    let mut got: Vec<usize> = (0..10).collect();
    let mut g = TrainingContext::new(7).rng();
    shuffle(&mut got, &mut g);
    assert_eq!(got, expected);
    // the generator has moved on by nine draws
    assert_eq!(g.next_u64(), reference.next_u64());
}

#[test]
fn fit_requests_are_checked_before_training() {
    assert_eq!(check_fit_request(Objective::SquaredError, None, true), Ok(None));
    assert_eq!(check_fit_request(Objective::BinaryLogLoss, Some(1), false), Ok(None));
    assert_eq!(check_fit_request(Objective::MulticlassSoftmax, None, false), Err(FitRefusal::TooFewClasses(0)));
    assert_eq!(check_fit_request(Objective::MulticlassSoftmax, Some(1), true), Err(FitRefusal::TooFewClasses(1)));
    assert_eq!(check_fit_request(Objective::MulticlassSoftmax, Some(3), true), Err(FitRefusal::MulticlassEarlyStopping));
    assert_eq!(check_fit_request(Objective::MulticlassSoftmax, Some(3), false), Ok(Some(3)));
    assert_eq!(check_row_input(3, 2, true), Err(RowIssue::FeatureCount { expected: 3, got: 2 }));
    assert_eq!(check_row_input(3, 3, true), Err(RowIssue::Categorical));
    assert_eq!(check_row_input(3, 3, false), Ok(()));
}
