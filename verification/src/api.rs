//! The decisions of the training facade: objectives, parameter checks,
//! cross-validation folds, and loading a model of unknown objective.

use vstd::prelude::*;
use crate::booster::{Booster, MulticlassBooster};
use crate::float_bits::{is_finite, is_finite_bits, lt, lt_bits};
use crate::loss::{BinaryLogLoss, Loss, SquaredError};
use crate::model::error::ModelError;
use crate::model::format::multiclass_loss_name;
use crate::model::io::{deserialized, deserialized_multiclass, multiclass_loss_name_str};
use crate::model::layout::{ser_model, spec_parse};

verus! {

/// Training objective.
#[derive(Debug, Clone, Copy, PartialEq, Eq, Structural, Default)]
pub enum Objective {
    /// Regression with squared error.
    #[default]
    SquaredError,
    /// Binary classification with log-loss.
    BinaryLogLoss,
    /// Multiclass softmax.
    MulticlassSoftmax,
}

/// The loss name an objective's models record.
pub open spec fn objective_name(o: Objective) -> Seq<char> {
    match o {
        Objective::SquaredError => SquaredError::spec_name(),
        Objective::BinaryLogLoss => BinaryLogLoss::spec_name(),
        Objective::MulticlassSoftmax => multiclass_loss_name(),
    }
}

/// The cross-validation metric of an objective.
pub open spec fn objective_metric(o: Objective) -> Seq<char> {
    match o {
        Objective::SquaredError => seq!['r', '2'],
        Objective::BinaryLogLoss => seq!['a', 'u', 'c'],
        Objective::MulticlassSoftmax => seq!['a', 'c', 'c', 'u', 'r', 'a', 'c', 'y'],
    }
}

impl Objective {
    /// The objective's name, as recorded in the model header.
    pub fn name(self) -> (r: &'static str)
        ensures
            r@ == objective_name(self),
    {
        match self {
            Objective::SquaredError => SquaredError.name(),
            Objective::BinaryLogLoss => BinaryLogLoss.name(),
            Objective::MulticlassSoftmax => multiclass_loss_name_str(),
        }
    }

    /// The metric that cross-validation reports: R² for regression, AUC for
    /// binary classification, accuracy for multiclass.
    pub fn cv_metric(self) -> (r: &'static str)
        ensures
            r@ == objective_metric(self),
    {
        match self {
            Objective::SquaredError => {
                proof {
                    reveal_strlit("r2");
                }
                "r2"
            },
            Objective::BinaryLogLoss => {
                proof {
                    reveal_strlit("auc");
                }
                "auc"
            },
            Objective::MulticlassSoftmax => {
                proof {
                    reveal_strlit("accuracy");
                }
                "accuracy"
            },
        }
    }
}

// -- parameter checks -------------------------------------------------------------

/// The first invalid training parameter.
#[derive(Debug, Clone, Copy, PartialEq, Eq, Structural)]
pub enum ParamIssue {
    /// `n_estimators` is 0 (at least one round).
    NEstimators,
    /// `learning_rate` is not a positive finite number.
    LearningRate,
    /// `min_samples_leaf` is 0.
    MinSamplesLeaf,
    /// `max_bins` is below 2 (one boundary needs two bins).
    MaxBins,
    /// `max_categories` is 0.
    MaxCategories,
    /// `categorical_alpha` is negative or not finite.
    CategoricalAlpha,
    /// Multiclass needs at least two classes.
    NClasses,
    /// Cross-validation needs at least two folds.
    TooFewFolds,
    /// More folds than rows.
    MoreFoldsThanRows,
}

/// The bits of `0.0`.
pub open spec fn zero_bits() -> u64 {
    0u64
}

/// The first failing check, in the order n_estimators, learning rate, leaf
/// size, bins, categories, smoothing.
pub open spec fn config_issue(
    n_estimators: usize,
    learning_rate: u64,
    min_samples_leaf: usize,
    max_bins: usize,
    max_categories: usize,
    categorical_alpha: u64,
) -> Option<ParamIssue> {
    if n_estimators == 0 {
        Some(ParamIssue::NEstimators)
    } else if !is_finite_bits(learning_rate) || !lt_bits(zero_bits(), learning_rate) {
        Some(ParamIssue::LearningRate)
    } else if min_samples_leaf == 0 {
        Some(ParamIssue::MinSamplesLeaf)
    } else if max_bins < 2 {
        Some(ParamIssue::MaxBins)
    } else if max_categories == 0 {
        Some(ParamIssue::MaxCategories)
    } else if !is_finite_bits(categorical_alpha) || lt_bits(categorical_alpha, zero_bits()) {
        Some(ParamIssue::CategoricalAlpha)
    } else {
        None
    }
}

/// Checks training parameters before fitting (`f64` ones as bits); reports
/// the first invalid one.
pub fn validate_config(
    n_estimators: usize,
    learning_rate: u64,
    min_samples_leaf: usize,
    max_bins: usize,
    max_categories: usize,
    categorical_alpha: u64,
) -> (r: Result<(), ParamIssue>)
    ensures
        match config_issue(
            n_estimators,
            learning_rate,
            min_samples_leaf,
            max_bins,
            max_categories,
            categorical_alpha,
        ) {
            Some(i) => r == Err::<(), ParamIssue>(i),
            None => r is Ok,
        },
{
    if n_estimators == 0 {
        return Err(ParamIssue::NEstimators);
    }
    if !is_finite(learning_rate) || !lt(0, learning_rate) {
        return Err(ParamIssue::LearningRate);
    }
    if min_samples_leaf == 0 {
        return Err(ParamIssue::MinSamplesLeaf);
    }
    if max_bins < 2 {
        return Err(ParamIssue::MaxBins);
    }
    if max_categories == 0 {
        return Err(ParamIssue::MaxCategories);
    }
    if !is_finite(categorical_alpha) || lt(categorical_alpha, 0) {
        return Err(ParamIssue::CategoricalAlpha);
    }
    Ok(())
}

/// A multiclass objective needs at least two classes.
pub fn check_n_classes(n_classes: usize) -> (r: Result<(), ParamIssue>)
    ensures
        r is Ok <==> n_classes >= 2,
        r matches Err(i) ==> i == ParamIssue::NClasses,
{
    if n_classes < 2 {
        Err(ParamIssue::NClasses)
    } else {
        Ok(())
    }
}

/// Why a fit request was refused before training.
#[derive(Debug, Clone, Copy, PartialEq, Eq, Structural)]
pub enum FitRefusal {
    /// A multiclass objective with fewer than two classes (the count given,
    /// 0 when none was).
    TooFewClasses(usize),
    /// Early stopping was asked for a multiclass objective.
    MulticlassEarlyStopping,
}

/// The checks of a fit request after the parameters: a multiclass objective
/// needs at least two classes, then no early stopping. Returns the class
/// count for multiclass.
pub fn check_fit_request(objective: Objective, n_classes: Option<usize>, early_stopping: bool) -> (r: Result<Option<usize>, FitRefusal>)
    ensures
        objective != Objective::MulticlassSoftmax ==> r == Ok::<Option<usize>, FitRefusal>(None),
        objective == Objective::MulticlassSoftmax ==> r == (if n_classes.unwrap_or(0) < 2 {
            Err::<Option<usize>, FitRefusal>(FitRefusal::TooFewClasses(n_classes.unwrap_or(0)))
        } else if early_stopping {
            Err::<Option<usize>, FitRefusal>(FitRefusal::MulticlassEarlyStopping)
        } else {
            Ok::<Option<usize>, FitRefusal>(Some(n_classes.unwrap_or(0)))
        }),
{
    match objective {
        Objective::MulticlassSoftmax => {
            let k = match n_classes {
                Some(k) => k,
                None => 0,
            };
            if k < 2 {
                Err(FitRefusal::TooFewClasses(k))
            } else if early_stopping {
                Err(FitRefusal::MulticlassEarlyStopping)
            } else {
                Ok(Some(k))
            }
        },
        _ => Ok(None),
    }
}

/// Why a single-row prediction was refused.
#[derive(Debug, Clone, Copy, PartialEq, Eq, Structural)]
pub enum RowIssue {
    /// The row has another number of values than the model has features.
    FeatureCount { expected: usize, got: usize },
    /// The model has categorical features, which a row of numbers cannot carry.
    Categorical,
}

/// The checks of a single-row prediction: the row's width, then no
/// categorical features.
pub fn check_row_input(expected: usize, got: usize, has_categorical: bool) -> (r: Result<(), RowIssue>)
    ensures
        expected != got ==> r == Err::<(), RowIssue>(RowIssue::FeatureCount { expected, got }),
        expected == got && has_categorical ==> r == Err::<(), RowIssue>(RowIssue::Categorical),
        expected == got && !has_categorical ==> r is Ok,
{
    if expected != got {
        return Err(RowIssue::FeatureCount { expected, got });
    }
    if has_categorical {
        return Err(RowIssue::Categorical);
    }
    Ok(())
}

// -- cross-validation folds ----------------------------------------------------------

/// The size of fold `f`: `n / k`, plus one for the first `n % k` folds.
pub open spec fn fold_len(n: int, k: int, f: int) -> int {
    n / k + if f < n % k {
        1int
    } else {
        0int
    }
}

/// The first row of fold `f`: the sizes of the folds before it.
pub open spec fn fold_start(n: int, k: int, f: int) -> int {
    f * (n / k) + if f < n % k {
        f
    } else {
        n % k
    }
}

/// The contiguous folds of `n` rows into `k` parts, as `(offset, len)`: the
/// first `n % k` folds have one row more. Needs `2 <= k <= n`.
pub fn kfold_ranges(n: usize, k: usize) -> (r: Result<Vec<(usize, usize)>, ParamIssue>)
    ensures
        k < 2 ==> r == Err::<Vec<(usize, usize)>, ParamIssue>(ParamIssue::TooFewFolds),
        2 <= k && k > n ==> r == Err::<Vec<(usize, usize)>, ParamIssue>(ParamIssue::MoreFoldsThanRows),
        2 <= k <= n ==> (r matches Ok(v) && v@.len() == k && forall|f: int|
            0 <= f < k ==> (#[trigger] v@[f]).0 == fold_start(n as int, k as int, f) && v@[f].1
                == fold_len(n as int, k as int, f)),
{
    if k < 2 {
        return Err(ParamIssue::TooFewFolds);
    }
    if k > n {
        return Err(ParamIssue::MoreFoldsThanRows);
    }
    let base = n / k;
    let rem = n % k;
    let mut out: Vec<(usize, usize)> = Vec::new();
    let mut offset: usize = 0;
    let mut f: usize = 0;
    while f < k
        invariant
            2 <= k <= n,
            base == n / k,
            rem == n % k,
            f <= k,
            out@.len() == f,
            offset == fold_start(n as int, k as int, f as int),
            forall|g: int|
                0 <= g < f ==> (#[trigger] out@[g]).0 == fold_start(n as int, k as int, g) && out@[g].1
                    == fold_len(n as int, k as int, g),
        decreases k - f,
    {
        proof {
            lemma_fold_start_step(n as int, k as int, f as int);
            lemma_fold_start_bound(n as int, k as int, f + 1);
        }
        let len = base + if f < rem {
            1usize
        } else {
            0usize
        };
        out.push((offset, len));
        offset = offset + len;
        f = f + 1;
    }
    Ok(out)
}

proof fn lemma_fold_start_step(n: int, k: int, f: int)
    requires
        0 < k,
        0 <= n,
        0 <= f,
    ensures
        fold_start(n, k, f + 1) == fold_start(n, k, f) + fold_len(n, k, f),
{
    assert((f + 1) * (n / k) == f * (n / k) + n / k) by (nonlinear_arith);
}

/// A fold never starts past the end: `fold_start(f) <= n` for `f <= k`.
proof fn lemma_fold_start_bound(n: int, k: int, f: int)
    requires
        0 < k,
        0 <= n,
        0 <= f <= k,
    ensures
        0 <= fold_start(n, k, f) <= n,
{
    let q = n / k;
    let r = n % k;
    assert(n == k * q + r) by (nonlinear_arith)
        requires
            0 < k,
            q == n / k,
            r == n % k,
    ;
    assert(0 <= r < k);
    assert(0 <= q);
    assert(f * q <= k * q) by (nonlinear_arith)
        requires
            f <= k,
            0 <= q,
    ;
    assert(0 <= f * q) by (nonlinear_arith)
        requires
            0 <= f,
            0 <= q,
    ;
}

/// The folds tile the rows: fold 0 starts at row 0, each fold starts where
/// the previous one ends, the last one ends at row `n`, and fold sizes
/// differ by at most one.
pub proof fn law_folds_tile(n: int, k: int)
    requires
        2 <= k <= n,
    ensures
        fold_start(n, k, 0) == 0,
        forall|f: int| 0 <= f < k ==> #[trigger] fold_start(n, k, f + 1) == fold_start(n, k, f) + fold_len(n, k, f),
        fold_start(n, k, k) == n,
        forall|f: int| 0 <= f < k ==> n / k <= #[trigger] fold_len(n, k, f) <= n / k + 1,
        forall|f: int| 0 <= f < k ==> #[trigger] fold_len(n, k, f) >= 1,
{
    assert forall|f: int| 0 <= f < k implies #[trigger] fold_start(n, k, f + 1) == fold_start(n, k, f)
        + fold_len(n, k, f) by {
        lemma_fold_start_step(n, k, f);
    }
    assert(n == k * (n / k) + n % k) by (nonlinear_arith)
        requires
            0 < k,
    ;
    assert(n / k >= 1) by (nonlinear_arith)
        requires
            2 <= k <= n,
    ;
}

/// The rows outside the fold `offset..offset + len`, as at most two
/// `(offset, len)` segments in row order (empty segments left out at the
/// ends, as the fold touches them).
pub fn train_segments(n: usize, offset: usize, len: usize) -> (r: Vec<(usize, usize)>)
    requires
        offset + len <= n,
    ensures
        offset == 0 ==> r@ == seq![(len, (n - len) as usize)],
        offset != 0 && offset + len == n ==> r@ == seq![(0usize, offset)],
        offset != 0 && offset + len != n ==> r@ == seq![(0usize, offset), ((offset + len) as usize, (n - offset - len) as usize)],
{
    let mut out: Vec<(usize, usize)> = Vec::new();
    if offset == 0 {
        out.push((offset + len, n - offset - len));
    } else if offset + len == n {
        out.push((0, offset));
    } else {
        out.push((0, offset));
        out.push((offset + len, n - offset - len));
    }
    assert(out@ =~= if offset == 0 {
        seq![(len, (n - len) as usize)]
    } else if offset + len == n {
        seq![(0usize, offset)]
    } else {
        seq![(0usize, offset), ((offset + len) as usize, (n - offset - len) as usize)]
    });
    out
}

// -- a fitted model of any objective -------------------------------------------------

/// A trained model of one of the three objectives.
#[derive(Debug)]
pub enum FittedModel {
    Regression(Booster<SquaredError>),
    Binary(Booster<BinaryLogLoss>),
    Multiclass(MulticlassBooster),
}

/// What loading `bytes` with objective detection gives: the file's loss
/// name picks the loader (squared error, then binary log-loss, then
/// multiclass softmax), and that loader's outcome is the result; a file that
/// does not parse gives its parse error.
pub open spec fn detected(bytes: Seq<u8>, res: Result<FittedModel, ModelError>) -> bool {
    match spec_parse(bytes) {
        Err(e) => res == Err::<FittedModel, ModelError>(e),
        Ok(m) => if m.loss_name == SquaredError::spec_name() {
            match res {
                Ok(FittedModel::Regression(b)) => deserialized(bytes, Ok::<Booster<SquaredError>, ModelError>(b)),
                Err(e) => deserialized::<SquaredError>(bytes, Err(e)),
                _ => false,
            }
        } else if m.loss_name == BinaryLogLoss::spec_name() {
            match res {
                Ok(FittedModel::Binary(b)) => deserialized(bytes, Ok::<Booster<BinaryLogLoss>, ModelError>(b)),
                Err(e) => deserialized::<BinaryLogLoss>(bytes, Err(e)),
                _ => false,
            }
        } else {
            match res {
                Ok(FittedModel::Multiclass(b)) => deserialized_multiclass(bytes, Ok::<MulticlassBooster, ModelError>(b)),
                Err(e) => deserialized_multiclass(bytes, Err(e)),
                _ => false,
            }
        },
    }
}

impl FittedModel {
    /// The objective.
    pub fn objective(&self) -> (o: Objective)
        ensures
            o == match self {
                FittedModel::Regression(_) => Objective::SquaredError,
                FittedModel::Binary(_) => Objective::BinaryLogLoss,
                FittedModel::Multiclass(_) => Objective::MulticlassSoftmax,
            },
    {
        match self {
            FittedModel::Regression(_) => Objective::SquaredError,
            FittedModel::Binary(_) => Objective::BinaryLogLoss,
            FittedModel::Multiclass(_) => Objective::MulticlassSoftmax,
        }
    }

    /// The model file bytes.
    pub fn to_bytes(&self) -> (out: Vec<u8>)
        ensures
            out@ == match self {
                FittedModel::Regression(b) => ser_model(b.model_view()),
                FittedModel::Binary(b) => ser_model(b.model_view()),
                FittedModel::Multiclass(m) => ser_model(m.model_view()),
            },
    {
        match self {
            FittedModel::Regression(b) => b.serialize(),
            FittedModel::Binary(b) => b.serialize(),
            FittedModel::Multiclass(m) => m.serialize(),
        }
    }

    /// Loads a model, detecting its objective: squared error first, then
    /// binary log-loss, then multiclass softmax. Only a loss-name mismatch
    /// moves on to the next loader; any other failure is returned as is.
    pub fn from_bytes(bytes: &[u8]) -> (res: Result<FittedModel, ModelError>)
        ensures
            detected(bytes@, res),
    {
        match Booster::deserialize(bytes, SquaredError) {
            Ok(b) => {
                return Ok(FittedModel::Regression(b));
            },
            Err(ModelError::LossMismatch { .. }) => {},
            Err(e) => {
                return Err(e);
            },
        }
        match Booster::deserialize(bytes, BinaryLogLoss) {
            Ok(b) => {
                return Ok(FittedModel::Binary(b));
            },
            Err(ModelError::LossMismatch { .. }) => {},
            Err(e) => {
                return Err(e);
            },
        }
        match MulticlassBooster::deserialize(bytes) {
            Ok(m) => Ok(FittedModel::Multiclass(m)),
            Err(e) => Err(e),
        }
    }

    /// Number of trees (per class for multiclass).
    pub fn num_trees(&self) -> (n: usize)
        ensures
            n == match self {
                FittedModel::Regression(b) => b.model_view().trees.len() as int,
                FittedModel::Binary(b) => b.model_view().trees.len() as int,
                FittedModel::Multiclass(m) => if m.spec_class_trees().len() == 0 {
                    0
                } else {
                    m.spec_class_trees()[0].len() as int
                },
            },
    {
        match self {
            FittedModel::Regression(b) => b.num_trees(),
            FittedModel::Binary(b) => b.num_trees(),
            FittedModel::Multiclass(m) => m.num_trees_per_class(),
        }
    }

    /// Number of features (the bin table's).
    pub fn num_features(&self) -> (n: usize)
        ensures
            n == match self {
                FittedModel::Regression(b) => b.model_view().boundaries.len(),
                FittedModel::Binary(b) => b.model_view().boundaries.len(),
                FittedModel::Multiclass(m) => m.model_view().boundaries.len(),
            },
    {
        match self {
            FittedModel::Regression(b) => b.bin_table().num_features(),
            FittedModel::Binary(b) => b.bin_table().num_features(),
            FittedModel::Multiclass(m) => m.bin_table().num_features(),
        }
    }

    /// Number of classes: `Some(k)` for multiclass, `None` otherwise.
    pub fn num_classes(&self) -> (n: Option<usize>)
        ensures
            match self {
                FittedModel::Multiclass(m) => n == Some(m.spec_n_classes() as usize),
                _ => n is None,
            },
    {
        match self {
            FittedModel::Multiclass(m) => Some(m.n_classes()),
            _ => None,
        }
    }

    /// Rounds actually used (per class for multiclass).
    pub fn best_iteration(&self) -> (n: usize)
        ensures
            n == match self {
                FittedModel::Regression(b) => b.spec_best_iteration() as int,
                FittedModel::Binary(b) => b.spec_best_iteration() as int,
                FittedModel::Multiclass(m) => if m.spec_class_trees().len() == 0 {
                    0
                } else {
                    m.spec_class_trees()[0].len() as int
                },
            },
    {
        match self {
            FittedModel::Regression(b) => b.best_iteration(),
            FittedModel::Binary(b) => b.best_iteration(),
            FittedModel::Multiclass(m) => m.num_trees_per_class(),
        }
    }

    /// Whether the model carries a categorical encoding.
    pub fn has_categorical(&self) -> (r: bool)
        ensures
            r == match self {
                FittedModel::Regression(b) => b.model_view().categorical is Some,
                FittedModel::Binary(b) => b.model_view().categorical is Some,
                FittedModel::Multiclass(_) => false,
            },
    {
        match self {
            FittedModel::Regression(b) => b.categorical_encoding().is_some(),
            FittedModel::Binary(b) => b.categorical_encoding().is_some(),
            FittedModel::Multiclass(_) => false,
        }
    }
}

} // verus!
