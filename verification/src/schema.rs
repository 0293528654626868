//! Dataset schema checks: which columns hold the features and the target,
//! and whether their types can be used. A column is known here by its name
//! and the kind of its type.

use vstd::prelude::*;
use crate::cli::same_text;

verus! {

/// The kind of a column's type, as the checks see it.
#[derive(Debug, Clone, Copy, PartialEq, Eq, Structural)]
pub enum ColumnKind {
    /// `Float64`.
    Float64,
    /// Dictionary-encoded (categorical); `key_supported` when the key type is
    /// `UInt16` or `UInt32`.
    Dictionary { key_supported: bool },
    /// Another numeric type (integers, `Float32`), usable as a target after
    /// a cast.
    OtherNumeric,
    /// Anything else.
    Other,
}

/// Why a schema was refused (features by their position in the request).
#[derive(Debug, Clone, Copy, PartialEq, Eq, Structural)]
pub enum SchemaIssue {
    /// No column has the name of feature `i`.
    FeatureNotFound(usize),
    /// Feature `i`'s column is neither `Float64` nor a dictionary with a
    /// `UInt16`/`UInt32` key.
    FeatureUnsupported(usize),
    /// No column has the target's name.
    TargetNotFound,
    /// The target's column is also a feature's.
    FeatureTargetOverlap,
    /// There are no rows.
    Empty,
    /// The target's column is not numeric.
    TargetUnsupported,
}

/// Where the features and the target are, and which features are
/// categorical.
#[derive(Debug, Clone, PartialEq, Eq)]
pub struct SchemaPlan {
    pub feature_indices: Vec<usize>,
    pub categorical: Vec<bool>,
    pub target_index: usize,
}

/// The first column named `name` at or after `i`.
pub open spec fn find_from(columns: Seq<Seq<char>>, name: Seq<char>, i: int) -> Option<int>
    decreases columns.len() - i,
{
    if i < 0 || i >= columns.len() {
        None
    } else if columns[i] == name {
        Some(i)
    } else {
        find_from(columns, name, i + 1)
    }
}

/// The first column named `name`.
pub open spec fn find_column(columns: Seq<Seq<char>>, name: Seq<char>) -> Option<int> {
    find_from(columns, name, 0)
}

/// A feature column's type can be used.
pub open spec fn feature_kind_ok(k: ColumnKind) -> bool {
    k == ColumnKind::Float64 || k == (ColumnKind::Dictionary { key_supported: true })
}

/// A target column's type can be used (cast to `Float64` if need be).
pub open spec fn target_kind_ok(k: ColumnKind) -> bool {
    k == ColumnKind::Float64 || k == ColumnKind::OtherNumeric
}

/// Whether a column is categorical.
pub open spec fn is_dictionary_kind(k: ColumnKind) -> bool {
    k is Dictionary
}

/// The first feature, from position `i` on, that is missing or unusable.
pub open spec fn first_feature_issue(columns: Seq<Seq<char>>, kinds: Seq<ColumnKind>, features: Seq<Seq<char>>, i: int) -> Option<SchemaIssue>
    decreases features.len() - i,
{
    if i < 0 || i >= features.len() {
        None
    } else {
        match find_column(columns, features[i]) {
            None => Some(SchemaIssue::FeatureNotFound(i as usize)),
            Some(c) => if !feature_kind_ok(kinds[c]) {
                Some(SchemaIssue::FeatureUnsupported(i as usize))
            } else {
                first_feature_issue(columns, kinds, features, i + 1)
            },
        }
    }
}

/// What the checks decide: features in order (not found, then type), the
/// target's column, no overlap with a feature, at least one row, and a
/// numeric target. On success each feature's column and whether it is
/// categorical, and the target's column.
pub open spec fn schema_outcome(
    columns: Seq<Seq<char>>,
    kinds: Seq<ColumnKind>,
    features: Seq<Seq<char>>,
    target: Seq<char>,
    num_rows: nat,
) -> Result<(Seq<usize>, Seq<bool>, usize), SchemaIssue> {
    match first_feature_issue(columns, kinds, features, 0) {
        Some(e) => Err(e),
        None => {
            let idx = Seq::new(features.len(), |i: int| find_column(columns, features[i])->0 as usize);
            let cat = Seq::new(features.len(), |i: int| is_dictionary_kind(kinds[idx[i] as int]));
            match find_column(columns, target) {
                None => Err(SchemaIssue::TargetNotFound),
                Some(t) => if idx.contains(t as usize) {
                    Err(SchemaIssue::FeatureTargetOverlap)
                } else if num_rows == 0 {
                    Err(SchemaIssue::Empty)
                } else if !target_kind_ok(kinds[t]) {
                    Err(SchemaIssue::TargetUnsupported)
                } else {
                    Ok((idx, cat, t as usize))
                },
            }
        },
    }
}

/// The plan as plain sequences.
pub open spec fn plan_view(p: SchemaPlan) -> (Seq<usize>, Seq<bool>, usize) {
    (p.feature_indices@, p.categorical@, p.target_index)
}

/// The texts of a list of names.
pub open spec fn name_texts(names: Seq<String>) -> Seq<Seq<char>> {
    names.map_values(|s: String| s@)
}

proof fn lemma_find_from_facts(columns: Seq<Seq<char>>, name: Seq<char>, i: int)
    requires
        0 <= i <= columns.len(),
    ensures
        find_from(columns, name, i) matches Some(c) ==> i <= c < columns.len() && columns[c] == name,
        find_from(columns, name, i) is None ==> forall|j: int| i <= j < columns.len() ==> columns[j] != name,
        forall|j: int| i <= j < columns.len() && columns[j] == name && (forall|q: int| i <= q < j ==> columns[q] != name)
            ==> find_from(columns, name, i) == Some(j),
    decreases columns.len() - i,
{
    if i < columns.len() {
        lemma_find_from_facts(columns, name, i + 1);
    }
}

/// The first column named `name`.
fn find_column_exec(columns: &Vec<String>, name: &str) -> (r: Option<usize>)
    ensures
        r == (match find_column(name_texts(columns@), name@) {
            Some(c) => Some(c as usize),
            None => None::<usize>,
        }),
{
    let ghost cs = name_texts(columns@);
    proof {
        lemma_find_from_facts(cs, name@, 0);
    }
    let mut i: usize = 0;
    while i < columns.len()
        invariant
            cs == name_texts(columns@),
            i <= columns@.len(),
            find_from(cs, name@, 0) == find_from(cs, name@, i as int),
        decreases columns@.len() - i,
    {
        assert(cs[i as int] == columns@[i as int]@);
        if same_text(columns[i].as_str(), name) {
            return Some(i);
        }
        i = i + 1;
    }
    None
}

/// Whether `t` occurs in `v`.
fn contains_index(v: &Vec<usize>, t: usize) -> (r: bool)
    ensures
        r == v@.contains(t),
{
    let mut q: usize = 0;
    while q < v.len()
        invariant
            q <= v@.len(),
            forall|j: int| 0 <= j < q ==> v@[j] != t,
        decreases v@.len() - q,
    {
        if v[q] == t {
            assert(v@[q as int] == t);
            return true;
        }
        q = q + 1;
    }
    false
}

/// Checks a dataset's schema: `columns` and `kinds` describe the columns in
/// order, `features` and `target` name the wanted ones, `num_rows` is the
/// row count. The first problem in the order of `schema_outcome` is
/// reported.
pub fn check_schema(
    columns: &Vec<String>,
    kinds: &Vec<ColumnKind>,
    features: &Vec<String>,
    target: &str,
    num_rows: usize,
) -> (r: Result<SchemaPlan, SchemaIssue>)
    requires
        kinds@.len() == columns@.len(),
    ensures
        match r {
            Ok(p) => schema_outcome(name_texts(columns@), kinds@, name_texts(features@), target@, num_rows as nat)
                == Ok::<(Seq<usize>, Seq<bool>, usize), SchemaIssue>(plan_view(p)),
            Err(e) => schema_outcome(name_texts(columns@), kinds@, name_texts(features@), target@, num_rows as nat)
                == Err::<(Seq<usize>, Seq<bool>, usize), SchemaIssue>(e),
        },
{
    let ghost cs = name_texts(columns@);
    let ghost fs = name_texts(features@);
    let ncols = columns.len();
    let mut idx: Vec<usize> = Vec::new();
    let mut cat: Vec<bool> = Vec::new();
    let mut i: usize = 0;
    while i < features.len()
        invariant
            cs == name_texts(columns@),
            fs == name_texts(features@),
            ncols == columns@.len(),
            kinds@.len() == columns@.len(),
            i <= features@.len(),
            idx@.len() == i,
            cat@.len() == i,
            first_feature_issue(cs, kinds@, fs, 0) == first_feature_issue(cs, kinds@, fs, i as int),
            forall|q: int| 0 <= q < i ==> (#[trigger] find_column(cs, fs[q])) == Some(idx@[q] as int),
            forall|q: int| 0 <= q < i ==> #[trigger] cat@[q] == is_dictionary_kind(kinds@[idx@[q] as int]),
            forall|q: int| 0 <= q < i ==> #[trigger] idx@[q] < columns@.len(),
        decreases features@.len() - i,
    {
        assert(fs[i as int] == features@[i as int]@);
        proof {
            lemma_find_from_facts(cs, fs[i as int], 0);
        }
        let found = find_column_exec(columns, features[i].as_str());
        let c = match found {
            None => {
                return Err(SchemaIssue::FeatureNotFound(i));
            },
            Some(c) => c,
        };
        assert(cs.len() == columns@.len());
        assert(find_column(cs, fs[i as int]) == Some(c as int));
        assert(c < columns@.len());
        let k = kinds[c];
        assert(k == kinds@[c as int]);
        let ok = match k {
            ColumnKind::Float64 => true,
            ColumnKind::Dictionary { key_supported } => key_supported,
            _ => false,
        };
        assert(ok == feature_kind_ok(k));
        if !ok {
            assert(first_feature_issue(cs, kinds@, fs, i as int) == Some(SchemaIssue::FeatureUnsupported(i)));
            return Err(SchemaIssue::FeatureUnsupported(i));
        }
        assert(first_feature_issue(cs, kinds@, fs, i as int) == first_feature_issue(cs, kinds@, fs, i + 1));
        let is_cat = match k {
            ColumnKind::Dictionary { .. } => true,
            _ => false,
        };
        let ghost old_idx = idx@;
        idx.push(c);
        cat.push(is_cat);
        assert(forall|q: int| 0 <= q < i ==> idx@[q] == old_idx[q]);
        i = i + 1;
    }
    let ghost sidx = Seq::new(fs.len(), |q: int| find_column(cs, fs[q])->0 as usize);
    let ghost scat = Seq::new(fs.len(), |q: int| is_dictionary_kind(kinds@[sidx[q] as int]));
    assert(idx@ =~= sidx);
    assert(cat@ =~= scat);
    proof {
        lemma_find_from_facts(cs, target@, 0);
    }
    let t = match find_column_exec(columns, target) {
        None => {
            return Err(SchemaIssue::TargetNotFound);
        },
        Some(t) => t,
    };
    assert(cs.len() == columns@.len());
    assert(find_column(cs, target@) == Some(t as int));
    assert(t < columns@.len());
    if contains_index(&idx, t) {
        return Err(SchemaIssue::FeatureTargetOverlap);
    }
    if num_rows == 0 {
        return Err(SchemaIssue::Empty);
    }
    let tk = kinds[t];
    let target_ok = match tk {
        ColumnKind::Float64 => true,
        ColumnKind::OtherNumeric => true,
        _ => false,
    };
    if !target_ok {
        return Err(SchemaIssue::TargetUnsupported);
    }
    Ok(SchemaPlan { feature_indices: idx, categorical: cat, target_index: t })
}

} // verus!
