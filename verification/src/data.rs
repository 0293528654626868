//! Missing-value semantics and the numeric feature columns that binning reads.
//!
//! A null slot is always missing; whether NaN is missing is the policy's
//! choice, the same everywhere. Values are `f64` bit patterns.

use vstd::prelude::*;
use crate::float_bits::{is_nan, is_nan_bits};

verus! {

/// Missing-value policy.
#[derive(Debug, Clone, Copy, PartialEq, Eq, Structural, Default)]
pub enum MissingPolicy {
    /// Null and NaN are missing (the default, as in mainstream GBDTs).
    #[default]
    TreatNanAsMissing,
    /// Only null is missing; NaN stays a number.
    KeepNan,
}

/// Whether a value is missing under `policy`.
pub open spec fn missing_spec(value: u64, is_null: bool, policy: MissingPolicy) -> bool {
    match policy {
        MissingPolicy::TreatNanAsMissing => is_null || is_nan_bits(value),
        MissingPolicy::KeepNan => is_null,
    }
}

/// Whether a value is missing under `policy`.
pub fn is_missing_value(value: u64, is_null: bool, policy: MissingPolicy) -> (r: bool)
    ensures
        r == missing_spec(value, is_null, policy),
{
    match policy {
        MissingPolicy::TreatNanAsMissing => is_null || is_nan(value),
        MissingPolicy::KeepNan => is_null,
    }
}

/// What a dataset's numeric feature columns hold: per feature, one value and
/// one null flag per row, and the dataset's missing policy.
#[derive(Debug)]
pub struct FeatureColumns {
    values: Vec<Vec<u64>>,
    nulls: Vec<Vec<bool>>,
    num_rows: usize,
    policy: MissingPolicy,
}

/// The contents of feature columns.
pub struct FeatureColumnsView {
    pub values: Seq<Seq<u64>>,
    pub nulls: Seq<Seq<bool>>,
    pub num_rows: nat,
    pub policy: MissingPolicy,
}

impl View for FeatureColumns {
    type V = FeatureColumnsView;

    closed spec fn view(&self) -> FeatureColumnsView {
        FeatureColumnsView {
            values: self.values@.map_values(|c: Vec<u64>| c@),
            nulls: self.nulls@.map_values(|c: Vec<bool>| c@),
            num_rows: self.num_rows as nat,
            policy: self.policy,
        }
    }
}

/// Every column has `num_rows` entries, and the whole table fits in memory
/// as one buffer.
pub open spec fn columns_shaped(v: FeatureColumnsView) -> bool {
    &&& v.values.len() == v.nulls.len()
    &&& forall|f: int| 0 <= f < v.values.len() ==> #[trigger] v.values[f].len() == v.num_rows
    &&& forall|f: int| 0 <= f < v.nulls.len() ==> #[trigger] v.nulls[f].len() == v.num_rows
    &&& v.values.len() * v.num_rows <= usize::MAX
}

impl FeatureColumns {
    #[verifier::type_invariant]
    spec fn inv(self) -> bool {
        columns_shaped(self@)
    }

    /// Groups columns; `None` when a column's length differs from
    /// `num_rows`, the two lists differ in length, or the table would not fit
    /// in one buffer.
    pub fn new(values: Vec<Vec<u64>>, nulls: Vec<Vec<bool>>, num_rows: usize, policy: MissingPolicy) -> (r: Option<FeatureColumns>)
        ensures
            r is Some <==> columns_shaped(
                FeatureColumnsView {
                    values: values@.map_values(|c: Vec<u64>| c@),
                    nulls: nulls@.map_values(|c: Vec<bool>| c@),
                    num_rows: num_rows as nat,
                    policy,
                },
            ),
            r matches Some(c) ==> c@ == (FeatureColumnsView {
                values: values@.map_values(|c: Vec<u64>| c@),
                nulls: nulls@.map_values(|c: Vec<bool>| c@),
                num_rows: num_rows as nat,
                policy,
            }),
    {
        let ghost v = FeatureColumnsView {
            values: values@.map_values(|c: Vec<u64>| c@),
            nulls: nulls@.map_values(|c: Vec<bool>| c@),
            num_rows: num_rows as nat,
            policy,
        };
        if values.len() != nulls.len() {
            return None;
        }
        if num_rows > 0 && values.len() > usize::MAX / num_rows {
            proof {
                assert(values.len() * num_rows > usize::MAX) by (nonlinear_arith)
                    requires
                        num_rows > 0,
                        values.len() > usize::MAX / num_rows,
                ;
            }
            return None;
        }
        proof {
            if num_rows > 0 {
                assert(values.len() * num_rows <= usize::MAX) by (nonlinear_arith)
                    requires
                        num_rows > 0,
                        values.len() <= usize::MAX / num_rows,
                ;
            }
        }
        let mut f: usize = 0;
        while f < values.len()
            invariant
                f <= values@.len(),
                values@.len() == nulls@.len(),
                v.values == values@.map_values(|c: Vec<u64>| c@),
                v.nulls == nulls@.map_values(|c: Vec<bool>| c@),
                v.num_rows == num_rows,
                forall|g: int| 0 <= g < f ==> #[trigger] v.values[g].len() == num_rows,
                forall|g: int| 0 <= g < f ==> #[trigger] v.nulls[g].len() == num_rows,
            decreases values@.len() - f,
        {
            if values[f].len() != num_rows || nulls[f].len() != num_rows {
                assert(v.values[f as int].len() != num_rows || v.nulls[f as int].len() != num_rows);
                return None;
            }
            f = f + 1;
        }
        Some(FeatureColumns { values, nulls, num_rows, policy })
    }

    /// Number of feature columns.
    pub fn num_features(&self) -> (n: usize)
        ensures
            n == self@.values.len(),
            columns_shaped(self@),
    {
        proof {
            use_type_invariant(self);
        }
        self.values.len()
    }

    /// Number of rows.
    pub fn num_rows(&self) -> (n: usize)
        ensures
            n == self@.num_rows,
    {
        self.num_rows
    }

    /// The missing policy.
    pub fn missing_policy(&self) -> (p: MissingPolicy)
        ensures
            p == self@.policy,
    {
        self.policy
    }

    /// Whether the value of `feature` at `row` is missing.
    pub fn is_missing(&self, feature: usize, row: usize) -> (r: bool)
        requires
            feature < self@.values.len(),
            row < self@.num_rows,
        ensures
            r == missing_spec(
                self@.values[feature as int][row as int],
                self@.nulls[feature as int][row as int],
                self@.policy,
            ),
    {
        proof {
            use_type_invariant(self);
        }
        let v = &self.values[feature];
        let n = &self.nulls[feature];
        assert(v@ == self@.values[feature as int]);
        assert(n@ == self@.nulls[feature as int]);
        is_missing_value(v[row], n[row], self.policy)
    }

    /// The value (bits) of `feature` at `row`.
    pub fn value(&self, feature: usize, row: usize) -> (r: u64)
        requires
            feature < self@.values.len(),
            row < self@.num_rows,
        ensures
            r == self@.values[feature as int][row as int],
    {
        proof {
            use_type_invariant(self);
        }
        let v = &self.values[feature];
        assert(v@ == self@.values[feature as int]);
        v[row]
    }
}

} // verus!
