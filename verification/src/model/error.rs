//! Errors of model loading and saving.

use vstd::prelude::*;

verus! {

/// Why a model file's structure was rejected.
#[derive(Debug, Clone, Copy, PartialEq, Eq, Structural)]
pub enum LayoutError {
    /// The loss name is not UTF-8.
    LossNameNotUtf8,
    /// The metadata is not UTF-8.
    MetadataNotUtf8,
    /// The header declares zero classes.
    ZeroClasses,
    /// A tree declares zero nodes.
    EmptyTree,
    /// A boolean byte is neither 0 nor 1.
    BoolNotZeroOne,
    /// A split gain is not finite or is negative.
    SplitGainInvalid,
    /// A node count is not finite or is negative.
    NodeCountInvalid,
    /// A node has exactly one missing child index.
    PartialChildren,
    /// A child index is beyond the node count.
    ChildOutOfRange,
    /// The bin table has too many or unsorted boundaries.
    BinTableInvalid,
    /// The bin table's feature count disagrees with the header.
    BinTableFeatureCount,
    /// The categorical flag byte is neither 0 nor 1.
    CategoricalFlagInvalid,
    /// A categorical feature index is beyond the feature count.
    CategoricalFeatureOutOfRange,
    /// Categorical keys are not strictly ascending.
    CategoricalKeysNotAscending,
    /// A scalar model must declare exactly one class.
    ScalarNeedsOneClass,
    /// A multiclass model must declare at least two classes.
    MulticlassNeedsTwoClasses,
    /// The tree count is not a positive multiple of the class count.
    TreeCountNotMultiple,
    /// An initial score or the learning rate is not finite.
    NonFiniteScores,
    /// A multiclass model carries a categorical section.
    MulticlassWithCategorical,
    /// A split feature index is beyond the feature count.
    SplitFeatureOutOfRange,
}

/// Errors of model loading.
#[allow(inconsistent_fields)]
#[derive(Debug)]
pub enum ModelError {
    /// Not a model file (magic mismatch).
    InvalidMagic,
    /// A format version other than the supported one.
    UnsupportedVersion { version: u32, supported: u32 },
    /// Too few bytes, or a length beyond the end.
    Truncated,
    /// The stored checksum does not match the body.
    ChecksumFailed { expected: u64, actual: u64 },
    /// The structure is invalid.
    InvalidLayout(LayoutError),
    /// The file's loss name differs from the loader's.
    LossMismatch { expected: String, found: String },
}

} // verus!
