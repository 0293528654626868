//! The decisions of the C interface: argument checks, the task choice, and
//! the two buffer protocols (model bytes and the last error message). The
//! pointer handling itself lives with the caller.

use vstd::prelude::*;
use crate::api::Objective;
use crate::cli::same_text;
use vstd::string::StringExecFns;
use vstd::string::StringSliceAdditionalSpecFns;
use vstd::utf8::{encode_utf8_valid_utf8, is_char_boundary, valid_utf8, valid_utf8_split};

verus! {

/// Why a call through the C interface was refused.
#[derive(Debug, Clone, PartialEq, Eq)]
pub enum AbiError {
    /// `n_rows` or `n_features` is not positive (both as given).
    NonPositiveDims { n_rows: i64, n_features: i64 },
    /// No rows.
    NoRows,
    /// No features.
    NoFeatures,
    /// `labels` does not have one entry per row.
    LabelCount { expected: usize, got: usize },
    /// `data` does not have `n_rows * n_features` entries (product saturated).
    DataCount { expected: usize, got: usize },
    /// `task` names no known task.
    UnknownTask(String),
    /// `task = multiclass` without `n_classes`.
    MissingClassCount,
    /// The data has another number of features than the model.
    FeatureCount { expected: usize, got: usize },
    /// The output buffer holds fewer entries than the result needs.
    OutputTooSmall { needed: usize, got: usize },
    /// `out_cap` is below `n_rows`.
    OutCapBelowRows { n_rows: i64, out_cap: i64 },
    /// Probability output asked of a regression model.
    NoProbabilities,
    /// A probe (`out` NULL) with a nonzero capacity.
    ProbeWithCapacity,
    /// A negative capacity.
    NegativeCapacity(i64),
    /// A byte buffer smaller than the model.
    BufferTooSmall { needed: usize, cap: i64 },
}

/// Both counts as `usize`, when both are positive.
pub fn positive_dims(n_rows: i64, n_features: i64) -> (r: Result<(usize, usize), AbiError>)
    ensures
        n_rows > 0 && n_features > 0 ==> r == Ok::<(usize, usize), AbiError>((n_rows as usize, n_features as usize)),
        !(n_rows > 0 && n_features > 0) ==> r == Err::<(usize, usize), AbiError>(AbiError::NonPositiveDims { n_rows, n_features }),
{
    if n_rows <= 0 || n_features <= 0 {
        return Err(AbiError::NonPositiveDims { n_rows, n_features });
    }
    Ok((n_rows as usize, n_features as usize))
}

/// `a * b`, or `usize::MAX` when the product does not fit.
pub open spec fn saturating_product(a: usize, b: usize) -> usize {
    if a * b <= usize::MAX {
        (a * b) as usize
    } else {
        usize::MAX
    }
}

/// `a * b`, saturated at `usize::MAX`.
fn saturating_mul(a: usize, b: usize) -> (r: usize)
    ensures
        r == saturating_product(a, b),
{
    match a.checked_mul(b) {
        Some(p) => p,
        None => usize::MAX,
    }
}

/// The shape checks of a row-major matrix with one label per row: rows,
/// then features, then the label count, then the data count.
pub fn check_matrix(n_rows: usize, n_features: usize, data_len: usize, labels_len: usize) -> (r: Result<(), AbiError>)
    ensures
        n_rows == 0 ==> r == Err::<(), AbiError>(AbiError::NoRows),
        n_rows != 0 && n_features == 0 ==> r == Err::<(), AbiError>(AbiError::NoFeatures),
        n_rows != 0 && n_features != 0 && labels_len != n_rows ==> r == Err::<(), AbiError>(
            AbiError::LabelCount { expected: n_rows, got: labels_len },
        ),
        n_rows != 0 && n_features != 0 && labels_len == n_rows && data_len != saturating_product(n_rows, n_features)
            ==> r == Err::<(), AbiError>(
            AbiError::DataCount { expected: saturating_product(n_rows, n_features), got: data_len },
        ),
        n_rows != 0 && n_features != 0 && labels_len == n_rows && data_len == saturating_product(n_rows, n_features)
            ==> r is Ok,
{
    if n_rows == 0 {
        return Err(AbiError::NoRows);
    }
    if n_features == 0 {
        return Err(AbiError::NoFeatures);
    }
    if labels_len != n_rows {
        return Err(AbiError::LabelCount { expected: n_rows, got: labels_len });
    }
    let expected = saturating_mul(n_rows, n_features);
    if data_len != expected {
        return Err(AbiError::DataCount { expected, got: data_len });
    }
    Ok(())
}

/// What the C interface trains.
#[derive(Debug, Clone, Copy, PartialEq, Eq, Structural)]
pub enum AbiTask {
    Regression,
    Binary,
    Multiclass(usize),
}

/// The task name given, `regression` when absent.
pub open spec fn task_name(task: Option<&str>) -> Seq<char> {
    match task {
        Some(t) => t@,
        None => "regression"@,
    }
}

/// The task a name and class count give: `regression`, `binary`, or
/// `multiclass` with its class count.
pub open spec fn abi_task(name: Seq<char>, n_classes: Option<usize>) -> Option<AbiTask> {
    if name == "regression"@ {
        Some(AbiTask::Regression)
    } else if name == "binary"@ {
        Some(AbiTask::Binary)
    } else if name == "multiclass"@ {
        match n_classes {
            Some(k) => Some(AbiTask::Multiclass(k)),
            None => None,
        }
    } else {
        None
    }
}

/// Chooses the task; an unknown name, or a multiclass task without a class
/// count, is refused.
pub fn choose_task(task: Option<&str>, n_classes: Option<usize>) -> (r: Result<AbiTask, AbiError>)
    ensures
        abi_task(task_name(task), n_classes) matches Some(t) ==> r == Ok::<AbiTask, AbiError>(t),
        abi_task(task_name(task), n_classes) is None && task_name(task) == "multiclass"@ ==> r
            == Err::<AbiTask, AbiError>(AbiError::MissingClassCount),
        abi_task(task_name(task), n_classes) is None && task_name(task) != "multiclass"@ ==> (r matches Err(
            AbiError::UnknownTask(s),
        ) && s@ == task_name(task)),
{
    proof {
        reveal_strlit("regression");
    }
    let name = match task {
        Some(t) => t,
        None => "regression",
    };
    assert(name@ == task_name(task));
    if same_text(name, "regression") {
        Ok(AbiTask::Regression)
    } else if same_text(name, "binary") {
        Ok(AbiTask::Binary)
    } else if same_text(name, "multiclass") {
        match n_classes {
            Some(k) => Ok(AbiTask::Multiclass(k)),
            None => Err(AbiError::MissingClassCount),
        }
    } else {
        Err(AbiError::UnknownTask(String::from_str(name)))
    }
}

/// The data must have the model's number of features.
pub fn check_feature_count(model_features: usize, n_features: usize) -> (r: Result<(), AbiError>)
    ensures
        model_features == n_features ==> r is Ok,
        model_features != n_features ==> r == Err::<(), AbiError>(
            AbiError::FeatureCount { expected: model_features, got: n_features },
        ),
{
    if n_features != model_features {
        return Err(AbiError::FeatureCount { expected: model_features, got: n_features });
    }
    Ok(())
}

/// An output buffer of `got` entries must hold `needed` results.
pub fn check_output(needed: usize, got: usize) -> (r: Result<(), AbiError>)
    ensures
        got >= needed ==> r is Ok,
        got < needed ==> r == Err::<(), AbiError>(AbiError::OutputTooSmall { needed, got }),
{
    if got < needed {
        return Err(AbiError::OutputTooSmall { needed, got });
    }
    Ok(())
}

/// A prediction buffer must hold one value per row.
pub fn check_out_cap(n_rows: i64, out_cap: i64) -> (r: Result<(), AbiError>)
    ensures
        out_cap >= n_rows ==> r is Ok,
        out_cap < n_rows ==> r == Err::<(), AbiError>(AbiError::OutCapBelowRows { n_rows, out_cap }),
{
    if out_cap < n_rows {
        return Err(AbiError::OutCapBelowRows { n_rows, out_cap });
    }
    Ok(())
}

/// An output capacity as a length: a negative one is refused.
pub fn capacity_len(cap: i64) -> (r: Result<usize, AbiError>)
    ensures
        cap < 0 ==> r == Err::<usize, AbiError>(AbiError::NegativeCapacity(cap)),
        cap >= 0 ==> r == Ok::<usize, AbiError>(cap as usize),
{
    if cap < 0 {
        return Err(AbiError::NegativeCapacity(cap));
    }
    Ok(cap as usize)
}

/// The size of a probability output: one per row for binary, `n_rows *
/// n_classes` (row-major, saturated) for multiclass; regression has none.
pub fn probability_len(objective: Objective, n_rows: usize, n_classes: usize) -> (r: Result<usize, AbiError>)
    ensures
        objective == Objective::SquaredError ==> r == Err::<usize, AbiError>(AbiError::NoProbabilities),
        objective == Objective::BinaryLogLoss ==> r == Ok::<usize, AbiError>(n_rows),
        objective == Objective::MulticlassSoftmax ==> r == Ok::<usize, AbiError>(saturating_product(n_rows, n_classes)),
{
    match objective {
        Objective::SquaredError => Err(AbiError::NoProbabilities),
        Objective::BinaryLogLoss => Ok(n_rows),
        Objective::MulticlassSoftmax => Ok(saturating_mul(n_rows, n_classes)),
    }
}

/// What a call of the model-bytes protocol does.
#[derive(Debug, Clone, Copy, PartialEq, Eq, Structural)]
pub enum BytesPlan {
    /// Report the size only (`out` NULL, capacity 0).
    Probe(usize),
    /// Write this many bytes into `out`.
    Write(usize),
}

/// The two-step byte protocol: with `out` NULL the capacity must be 0 and
/// the size is reported; otherwise the capacity must be non-negative and
/// at least the size, and the bytes are written.
pub fn bytes_plan(out_is_null: bool, cap: i64, len: usize) -> (r: Result<BytesPlan, AbiError>)
    ensures
        out_is_null && cap == 0 ==> r == Ok::<BytesPlan, AbiError>(BytesPlan::Probe(len)),
        out_is_null && cap != 0 ==> r == Err::<BytesPlan, AbiError>(AbiError::ProbeWithCapacity),
        !out_is_null && cap < 0 ==> r == Err::<BytesPlan, AbiError>(AbiError::NegativeCapacity(cap)),
        !out_is_null && 0 <= cap < len ==> r == Err::<BytesPlan, AbiError>(AbiError::BufferTooSmall { needed: len, cap }),
        !out_is_null && cap >= len ==> r == Ok::<BytesPlan, AbiError>(BytesPlan::Write(len)),
{
    if out_is_null {
        if cap != 0 {
            return Err(AbiError::ProbeWithCapacity);
        }
        return Ok(BytesPlan::Probe(len));
    }
    if cap < 0 {
        return Err(AbiError::NegativeCapacity(cap));
    }
    if (cap as u64) < (len as u64) {
        return Err(AbiError::BufferTooSmall { needed: len, cap });
    }
    Ok(BytesPlan::Write(len))
}

/// How many message bytes the last-error copy writes before its NUL:
/// nothing at all (`None`) for a NULL buffer or a capacity below 1, else the
/// longest prefix of the message that fits in `cap - 1` bytes and ends on a
/// character boundary, so that what is written stays UTF-8.
pub fn last_error_len(out_is_null: bool, msg: &str, cap: i64) -> (r: Option<usize>)
    ensures
        out_is_null || cap <= 0 ==> r is None,
        !out_is_null && cap > 0 ==> (r matches Some(n) && n < cap && n <= msg.spec_bytes().len()
            && is_char_boundary(msg.spec_bytes(), n as int)
            && valid_utf8(msg.spec_bytes().subrange(0, n as int))
            && forall|m: int| n < m <= msg.spec_bytes().len() && m < cap
                ==> !is_char_boundary(msg.spec_bytes(), m)),
{
    if out_is_null || cap <= 0 {
        return None;
    }
    let ghost bytes = msg.spec_bytes();
    proof {
        encode_utf8_valid_utf8(msg@);
    }
    let room = (cap - 1) as u64;
    let len = msg.as_bytes().len();
    let mut n: usize = if (len as u64) < room {
        len
    } else {
        room as usize
    };
    while n > 0 && !msg.is_char_boundary(n)
        invariant
            bytes == msg.spec_bytes(),
            len == bytes.len(),
            n <= len,
            n < cap,
            forall|m: int| n < m <= len && m < cap ==> !is_char_boundary(bytes, m),
        decreases n,
    {
        n = n - 1;
    }
    proof {
        if n == 0 {
            assert(is_char_boundary(bytes, 0));
        }
        valid_utf8_split(bytes, n as int);
    }
    Some(n)
}

/// The class count reported through the interface: `k` for a multiclass
/// model, `-1` otherwise.
pub fn class_count_code(n_classes: Option<usize>) -> (r: i64)
    ensures
        r == match n_classes {
            Some(k) => k as i64,
            None => -1i64,
        },
{
    match n_classes {
        Some(k) => k as i64,
        None => -1,
    }
}

} // verus!
