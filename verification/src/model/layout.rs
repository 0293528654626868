//! The model file layout, stated as a byte encoder and a byte parser.
//!
//! ```text
//! magic            [u8;4] = b"SOOB"
//! version          u32 = 4
//! loss_name_len    u16; loss_name UTF-8
//! num_classes      u32 (1 for scalar models, >= 2 for multiclass)
//! init_scores      [f64; num_classes]
//! learning_rate    f64
//! num_trees        u32 (multiclass: classes x rounds, class-major)
//! trees x { num_nodes u32
//!           split_features [u32; n]  thresholds [f64; n]  missing_go_left [u8; n]
//!           left [i32; n]  right [i32; n]  leaf_values [f64; n]  depths [u32; n]
//!           split_gains [f64; n]  node_counts [f64; n] }
//! max_bins         u32
//! num_features     u32
//! features x { num_boundaries u32; boundaries [f64; num_boundaries] }
//! has_categorical  u8 (0/1)
//! [if 1] num_cat u32; cat_features [u32; num_cat]
//!        per categorical feature x { num_entries u32; entries [u32 key, f64 value]
//!                                    (keys ascending); prior f64; alpha f64 }
//! metadata_len     u32; metadata UTF-8
//! checksum         u64 (FNV-1a 64 over every byte before it)
//! ```
//!
//! All fields are little-endian; `f64` fields are written as their bit
//! patterns.

use vstd::prelude::*;
use vstd::bytes::{
    spec_u16_to_le_bytes, spec_u32_to_le_bytes, spec_u64_to_le_bytes,
};
use vstd::utf8::{decode_utf8, encode_utf8, valid_utf8};
use crate::binning::{boundary_limit, strictly_ascending, table_valid};
use crate::categorical::{keys_ascending, FeatureEncodingView};
use crate::float_bits::{is_finite_nonneg_bits};
use crate::model::error::{LayoutError, ModelError};
use crate::model::format::{
    fnv1a64_spec, in_range, magic_seq, u16_at, u32_at, u64_at, i32_at, VERSION,
};
use crate::tree::TreeView;

verus! {

/// The categorical section of a model.
pub struct CategoricalView {
    pub features: Seq<u32>,
    pub encodings: Seq<FeatureEncodingView>,
}

/// Everything a model file holds (the metadata string excepted).
pub struct ModelView {
    pub loss_name: Seq<char>,
    pub init_scores: Seq<u64>,
    pub learning_rate: u64,
    pub trees: Seq<TreeView>,
    pub max_bins: nat,
    pub boundaries: Seq<Seq<u64>>,
    pub categorical: Option<CategoricalView>,
}

// -- encoding ----------------------------------------------------------------

/// The concatenated encodings of a sequence's items.
pub open spec fn ser_items<T>(s: Seq<T>, enc: spec_fn(T) -> Seq<u8>) -> Seq<u8>
    decreases s.len(),
{
    if s.len() == 0 {
        Seq::empty()
    } else {
        enc(s[0]) + ser_items(s.drop_first(), enc)
    }
}

pub open spec fn enc_u32() -> spec_fn(u32) -> Seq<u8> {
    |v: u32| spec_u32_to_le_bytes(v)
}

pub open spec fn enc_u64() -> spec_fn(u64) -> Seq<u8> {
    |v: u64| spec_u64_to_le_bytes(v)
}

pub open spec fn enc_i32() -> spec_fn(i32) -> Seq<u8> {
    |v: i32| spec_u32_to_le_bytes(v as u32)
}

pub open spec fn enc_bool() -> spec_fn(bool) -> Seq<u8> {
    |v: bool| seq![if v { 1u8 } else { 0u8 }]
}

/// A length field of a `u32`-prefixed section.
pub open spec fn len32(n: nat) -> Seq<u8> {
    spec_u32_to_le_bytes(n as u32)
}

/// The bytes of one tree.
pub open spec fn ser_tree(t: TreeView) -> Seq<u8> {
    len32(t.left.len()) + ser_items(t.split_features, enc_u32()) + ser_items(
        t.thresholds,
        enc_u64(),
    ) + ser_items(t.missing_go_left, enc_bool()) + ser_items(t.left, enc_i32()) + ser_items(
        t.right,
        enc_i32(),
    ) + ser_items(t.leaf_values, enc_u64()) + ser_items(t.depths, enc_u32()) + ser_items(
        t.split_gains,
        enc_u64(),
    ) + ser_items(t.node_counts, enc_u64())
}

pub open spec fn enc_tree() -> spec_fn(TreeView) -> Seq<u8> {
    |t: TreeView| ser_tree(t)
}

pub open spec fn enc_boundary() -> spec_fn(Seq<u64>) -> Seq<u8> {
    |b: Seq<u64>| len32(b.len()) + ser_items(b, enc_u64())
}

/// The bytes of the bin table.
pub open spec fn ser_table(max_bins: nat, boundaries: Seq<Seq<u64>>) -> Seq<u8> {
    len32(max_bins) + len32(boundaries.len()) + ser_items(boundaries, enc_boundary())
}

pub open spec fn enc_entry() -> spec_fn((u32, u64)) -> Seq<u8> {
    |e: (u32, u64)| spec_u32_to_le_bytes(e.0) + spec_u64_to_le_bytes(e.1)
}

pub open spec fn enc_encoding() -> spec_fn(FeatureEncodingView) -> Seq<u8> {
    |e: FeatureEncodingView|
        len32(e.entries.len()) + ser_items(e.entries, enc_entry()) + spec_u64_to_le_bytes(e.prior)
            + spec_u64_to_le_bytes(e.alpha)
}

/// The bytes of the categorical section.
pub open spec fn ser_categorical(c: Option<CategoricalView>) -> Seq<u8> {
    match c {
        None => seq![0u8],
        Some(c) => seq![1u8] + len32(c.features.len()) + ser_items(c.features, enc_u32())
            + ser_items(c.encodings, enc_encoding()),
    }
}

/// Every byte before the checksum (the metadata is empty).
pub open spec fn ser_body(m: ModelView) -> Seq<u8> {
    magic_seq() + spec_u32_to_le_bytes(VERSION) + spec_u16_to_le_bytes(
        encode_utf8(m.loss_name).len() as u16,
    ) + encode_utf8(m.loss_name) + len32(m.init_scores.len()) + ser_items(
        m.init_scores,
        enc_u64(),
    ) + spec_u64_to_le_bytes(m.learning_rate) + len32(m.trees.len()) + ser_items(
        m.trees,
        enc_tree(),
    ) + ser_table(m.max_bins, m.boundaries) + ser_categorical(m.categorical) + len32(0)
}

/// The whole file: body, then its FNV-1a 64 checksum.
pub open spec fn ser_model(m: ModelView) -> Seq<u8> {
    ser_body(m) + spec_u64_to_le_bytes(fnv1a64_spec(ser_body(m)))
}

// -- parsing -----------------------------------------------------------------

/// A parse step: the value and the position after it, or an error.
pub type Step<T> = Result<(T, int), ModelError>;

/// Prefixes `done` to the items of a successful step.
pub open spec fn prepend<T>(done: Seq<T>, r: Step<Seq<T>>) -> Step<Seq<T>> {
    match r {
        Ok((s, q)) => Ok((done + s, q)),
        Err(e) => Err(e),
    }
}

/// `n` items read one after another by `elem`, stopping at the first error.
pub open spec fn p_repeat<T>(
    b: Seq<u8>,
    pos: int,
    n: nat,
    elem: spec_fn(Seq<u8>, int) -> Step<T>,
) -> Step<Seq<T>>
    decreases n,
{
    if n == 0 {
        Ok((Seq::empty(), pos))
    } else {
        match elem(b, pos) {
            Err(e) => Err(e),
            Ok((x, q)) => prepend(seq![x], p_repeat(b, q, (n - 1) as nat, elem)),
        }
    }
}

pub open spec fn truncated<T>() -> Step<T> {
    Err(ModelError::Truncated)
}

pub open spec fn layout<T>(e: LayoutError) -> Step<T> {
    Err(ModelError::InvalidLayout(e))
}

pub open spec fn el_u32() -> spec_fn(Seq<u8>, int) -> Step<u32> {
    |b: Seq<u8>, p: int|
        if in_range(b, p, 4) {
            Ok((u32_at(b, p), p + 4))
        } else {
            truncated()
        }
}

pub open spec fn el_u64() -> spec_fn(Seq<u8>, int) -> Step<u64> {
    |b: Seq<u8>, p: int|
        if in_range(b, p, 8) {
            Ok((u64_at(b, p), p + 8))
        } else {
            truncated()
        }
}

pub open spec fn el_i32() -> spec_fn(Seq<u8>, int) -> Step<i32> {
    |b: Seq<u8>, p: int|
        if in_range(b, p, 4) {
            Ok((i32_at(b, p), p + 4))
        } else {
            truncated()
        }
}

pub open spec fn el_bool() -> spec_fn(Seq<u8>, int) -> Step<bool> {
    |b: Seq<u8>, p: int|
        if !in_range(b, p, 1) {
            truncated()
        } else if b[p] == 0 {
            Ok((false, p + 1))
        } else if b[p] == 1 {
            Ok((true, p + 1))
        } else {
            layout(LayoutError::BoolNotZeroOne)
        }
}

/// An `f64` that must be finite and not negative.
pub open spec fn el_nonneg(err: LayoutError) -> spec_fn(Seq<u8>, int) -> Step<u64> {
    |b: Seq<u8>, p: int|
        if !in_range(b, p, 8) {
            truncated()
        } else if !is_finite_nonneg_bits(u64_at(b, p)) {
            layout(err)
        } else {
            Ok((u64_at(b, p), p + 8))
        }
}

/// A `u32` that must be below `limit`.
pub open spec fn el_u32_below(limit: nat, err: LayoutError) -> spec_fn(Seq<u8>, int) -> Step<
    u32,
> {
    |b: Seq<u8>, p: int|
        if !in_range(b, p, 4) {
            truncated()
        } else if u32_at(b, p) >= limit {
            layout(err)
        } else {
            Ok((u32_at(b, p), p + 4))
        }
}

/// The first child-index problem among nodes `i..n`.
pub open spec fn first_child_issue(l: Seq<i32>, r: Seq<i32>, n: int, i: int) -> Option<
    LayoutError,
>
    decreases n - i,
{
    if i < 0 || i >= n {
        None
    } else if l[i] < 0 || r[i] < 0 {
        if l[i] != -1 || r[i] != -1 {
            Some(LayoutError::PartialChildren)
        } else {
            first_child_issue(l, r, n, i + 1)
        }
    } else if l[i] >= n || r[i] >= n {
        Some(LayoutError::ChildOutOfRange)
    } else {
        first_child_issue(l, r, n, i + 1)
    }
}

/// Child indices are valid: both `-1` (leaf) or both within `0..n`.
pub open spec fn children_valid(l: Seq<i32>, r: Seq<i32>, n: int) -> bool {
    forall|i: int|
        0 <= i < n ==> ((#[trigger] l[i] == -1 && r[i] == -1) || (0 <= l[i] < n && 0 <= r[i] < n))
}

/// One tree.
pub open spec fn p_tree(b: Seq<u8>, pos: int) -> Step<TreeView> {
    if !in_range(b, pos, 4) {
        truncated()
    } else {
        let n = u32_at(b, pos) as nat;
        if n == 0 {
            layout(LayoutError::EmptyTree)
        } else {
            match p_repeat(b, pos + 4, n, el_u32()) {
                Err(e) => Err(e),
                Ok((sf, p1)) => match p_repeat(b, p1, n, el_u64()) {
                    Err(e) => Err(e),
                    Ok((th, p2)) => match p_repeat(b, p2, n, el_bool()) {
                        Err(e) => Err(e),
                        Ok((mg, p3)) => match p_repeat(b, p3, n, el_i32()) {
                            Err(e) => Err(e),
                            Ok((lf, p4)) => match p_repeat(b, p4, n, el_i32()) {
                                Err(e) => Err(e),
                                Ok((rt, p5)) => match p_repeat(b, p5, n, el_u64()) {
                                    Err(e) => Err(e),
                                    Ok((lv, p6)) => match p_repeat(b, p6, n, el_u32()) {
                                        Err(e) => Err(e),
                                        Ok((dp, p7)) => match p_repeat(
                                            b,
                                            p7,
                                            n,
                                            el_nonneg(LayoutError::SplitGainInvalid),
                                        ) {
                                            Err(e) => Err(e),
                                            Ok((sg, p8)) => match p_repeat(
                                                b,
                                                p8,
                                                n,
                                                el_nonneg(LayoutError::NodeCountInvalid),
                                            ) {
                                                Err(e) => Err(e),
                                                Ok((nc, p9)) => match first_child_issue(
                                                    lf,
                                                    rt,
                                                    n as int,
                                                    0,
                                                ) {
                                                    Some(e) => layout(e),
                                                    None => Ok(
                                                        (
                                                            TreeView {
                                                                split_features: sf,
                                                                thresholds: th,
                                                                missing_go_left: mg,
                                                                left: lf,
                                                                right: rt,
                                                                leaf_values: lv,
                                                                depths: dp,
                                                                split_gains: sg,
                                                                node_counts: nc,
                                                            },
                                                            p9,
                                                        ),
                                                    ),
                                                },
                                            },
                                        },
                                    },
                                },
                            },
                        },
                    },
                },
            }
        }
    }
}

pub open spec fn el_tree() -> spec_fn(Seq<u8>, int) -> Step<TreeView> {
    |b: Seq<u8>, p: int| p_tree(b, p)
}

/// One feature's boundaries.
pub open spec fn el_boundary() -> spec_fn(Seq<u8>, int) -> Step<Seq<u64>> {
    |b: Seq<u8>, p: int|
        if !in_range(b, p, 4) {
            truncated()
        } else {
            p_repeat(b, p + 4, u32_at(b, p) as nat, el_u64())
        }
}

/// The bin table: `max_bins`, then the boundaries, then validation.
pub open spec fn p_table(b: Seq<u8>, pos: int) -> Step<(nat, Seq<Seq<u64>>)> {
    if !in_range(b, pos, 8) {
        truncated()
    } else {
        let max_bins = u32_at(b, pos) as nat;
        match p_repeat(b, pos + 8, u32_at(b, pos + 4) as nat, el_boundary()) {
            Err(e) => Err(e),
            Ok((bs, q)) => if table_valid(max_bins, bs) {
                Ok(((max_bins, bs), q))
            } else {
                layout(LayoutError::BinTableInvalid)
            },
        }
    }
}

/// Categorical entries `(key, value)`, keys strictly ascending after `prev`.
pub open spec fn p_entries(b: Seq<u8>, pos: int, n: nat, prev: Option<u32>) -> Step<
    Seq<(u32, u64)>,
>
    decreases n,
{
    if n == 0 {
        Ok((Seq::empty(), pos))
    } else if !in_range(b, pos, 12) {
        truncated()
    } else {
        let k = u32_at(b, pos);
        let v = u64_at(b, pos + 4);
        if prev matches Some(p) && p >= k {
            layout(LayoutError::CategoricalKeysNotAscending)
        } else {
            prepend(seq![(k, v)], p_entries(b, pos + 12, (n - 1) as nat, Some(k)))
        }
    }
}

/// One categorical feature's encoding.
pub open spec fn el_encoding() -> spec_fn(Seq<u8>, int) -> Step<FeatureEncodingView> {
    |b: Seq<u8>, p: int|
        if !in_range(b, p, 4) {
            truncated()
        } else {
            match p_entries(b, p + 4, u32_at(b, p) as nat, None) {
                Err(e) => Err(e),
                Ok((es, q)) => if !in_range(b, q, 16) {
                    truncated()
                } else {
                    Ok(
                        (
                            FeatureEncodingView {
                                entries: es,
                                prior: u64_at(b, q),
                                alpha: u64_at(b, q + 8),
                            },
                            q + 16,
                        ),
                    )
                },
            }
        }
}

/// The categorical section for a table with `num_features` features.
pub open spec fn p_categorical(b: Seq<u8>, pos: int, num_features: nat) -> Step<
    Option<CategoricalView>,
> {
    if !in_range(b, pos, 1) {
        truncated()
    } else if b[pos] == 0 {
        Ok((None, pos + 1))
    } else if b[pos] == 1 {
        if !in_range(b, pos + 1, 4) {
            truncated()
        } else {
            let n = u32_at(b, pos + 1) as nat;
            match p_repeat(
                b,
                pos + 5,
                n,
                el_u32_below(num_features, LayoutError::CategoricalFeatureOutOfRange),
            ) {
                Err(e) => Err(e),
                Ok((fs, q1)) => match p_repeat(b, q1, n, el_encoding()) {
                    Err(e) => Err(e),
                    Ok((es, q2)) => Ok(
                        (Some(CategoricalView { features: fs, encodings: es }), q2),
                    ),
                },
            }
        }
    } else {
        layout(LayoutError::CategoricalFlagInvalid)
    }
}

/// The trailing metadata string (read, checked, discarded).
pub open spec fn p_metadata(b: Seq<u8>, pos: int) -> Step<()> {
    if !in_range(b, pos, 4) || !in_range(b, pos + 4, u32_at(b, pos) as int) {
        truncated()
    } else if !valid_utf8(b.subrange(pos + 4, pos + 4 + u32_at(b, pos))) {
        layout(LayoutError::MetadataNotUtf8)
    } else {
        Ok(((), pos + 4 + u32_at(b, pos)))
    }
}

/// Header, trees, table, categorical section and metadata, from byte 8 on.
pub open spec fn p_body(b: Seq<u8>) -> Result<ModelView, ModelError> {
    if !in_range(b, 8, 2) || !in_range(b, 10, u16_at(b, 8) as int) {
        Err(ModelError::Truncated)
    } else {
        let name_end = 10 + u16_at(b, 8);
        let name_bytes = b.subrange(10, name_end);
        if !valid_utf8(name_bytes) {
            Err(ModelError::InvalidLayout(LayoutError::LossNameNotUtf8))
        } else if !in_range(b, name_end, 4) {
            Err(ModelError::Truncated)
        } else if u32_at(b, name_end) == 0 {
            Err(ModelError::InvalidLayout(LayoutError::ZeroClasses))
        } else {
            match p_repeat(b, name_end + 4, u32_at(b, name_end) as nat, el_u64()) {
                Err(e) => Err(e),
                Ok((init, p1)) => if !in_range(b, p1, 12) {
                    Err(ModelError::Truncated)
                } else {
                    match p_repeat(b, p1 + 12, u32_at(b, p1 + 8) as nat, el_tree()) {
                        Err(e) => Err(e),
                        Ok((trees, p2)) => match p_table(b, p2) {
                            Err(e) => Err(e),
                            Ok(((max_bins, bs), p3)) => match p_categorical(b, p3, bs.len()) {
                                Err(e) => Err(e),
                                Ok((cat, p4)) => match p_metadata(b, p4) {
                                    Err(e) => Err(e),
                                    Ok(_) => Ok(
                                        ModelView {
                                            loss_name: decode_utf8(name_bytes),
                                            init_scores: init,
                                            learning_rate: u64_at(b, p1),
                                            trees,
                                            max_bins,
                                            boundaries: bs,
                                            categorical: cat,
                                        },
                                    ),
                                },
                            },
                        },
                    }
                },
            }
        }
    }
}

/// The complete parse: magic, version, length, checksum, then the body.
pub open spec fn spec_parse(b: Seq<u8>) -> Result<ModelView, ModelError> {
    if b.len() < 8 || b.subrange(0, 4) != magic_seq() {
        Err(ModelError::InvalidMagic)
    } else if u32_at(b, 4) != VERSION {
        Err(ModelError::UnsupportedVersion { version: u32_at(b, 4), supported: VERSION })
    } else if b.len() < 16 {
        Err(ModelError::Truncated)
    } else if u64_at(b, b.len() - 8) != fnv1a64_spec(b.subrange(0, b.len() - 8)) {
        Err(
            ModelError::ChecksumFailed {
                expected: u64_at(b, b.len() - 8),
                actual: fnv1a64_spec(b.subrange(0, b.len() - 8)),
            },
        )
    } else {
        p_body(b)
    }
}

// -- encoding lemmas -------------------------------------------------------------

/// Appending an item appends its encoding.
pub proof fn lemma_ser_items_push<T>(s: Seq<T>, x: T, enc: spec_fn(T) -> Seq<u8>)
    ensures
        ser_items(s.push(x), enc) == ser_items(s, enc) + enc(x),
    decreases s.len(),
{
    if s.len() == 0 {
        let t = s.push(x);
        assert(t.drop_first() =~= Seq::<T>::empty());
        assert(t[0] == x);
        assert(ser_items(t.drop_first(), enc) =~= Seq::<u8>::empty());
        assert(ser_items(t, enc) =~= enc(x));
        assert(ser_items(s, enc) + enc(x) =~= enc(x));
    } else {
        lemma_ser_items_push(s.drop_first(), x, enc);
        assert(s.push(x).drop_first() =~= s.drop_first().push(x));
        assert(ser_items(s.push(x), enc) =~= enc(s[0]) + (ser_items(s.drop_first(), enc) + enc(x)));
    }
}

/// The encoding of a concatenation is the concatenation of encodings.
pub proof fn lemma_ser_items_concat<T>(a: Seq<T>, b: Seq<T>, enc: spec_fn(T) -> Seq<u8>)
    ensures
        ser_items(a + b, enc) == ser_items(a, enc) + ser_items(b, enc),
    decreases a.len(),
{
    if a.len() == 0 {
        assert(a + b =~= b);
        assert(ser_items(a, enc) + ser_items(b, enc) =~= ser_items(b, enc));
    } else {
        lemma_ser_items_concat(a.drop_first(), b, enc);
        assert((a + b).drop_first() =~= a.drop_first() + b);
        assert(ser_items(a + b, enc) =~= enc(a[0]) + (ser_items(a.drop_first(), enc) + ser_items(b, enc)));
    }
}

/// The encoding of a prefix one longer.
pub proof fn lemma_ser_items_prefix<T>(s: Seq<T>, i: int, enc: spec_fn(T) -> Seq<u8>)
    requires
        0 <= i < s.len(),
    ensures
        ser_items(s.subrange(0, i + 1), enc) == ser_items(s.subrange(0, i), enc) + enc(s[i]),
{
    assert(s.subrange(0, i + 1) =~= s.subrange(0, i).push(s[i]));
    lemma_ser_items_push(s.subrange(0, i), s[i], enc);
}

} // verus!
