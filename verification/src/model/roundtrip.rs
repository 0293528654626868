//! What is written is read back: the parser inverts the encoder on every
//! model that the layout can hold.

use vstd::prelude::*;
use vstd::bytes::{
    lemma_auto_spec_u16_to_from_le_bytes, lemma_auto_spec_u32_to_from_le_bytes,
    lemma_auto_spec_u64_to_from_le_bytes, spec_u16_to_le_bytes, spec_u32_to_le_bytes,
    spec_u64_to_le_bytes,
};
use crate::float_bits::is_finite_nonneg_bits;
use crate::model::error::ModelError;
use crate::model::format::{in_range, i32_at, u16_at, u32_at, u64_at};
use crate::model::layout::{
    children_valid, el_bool, el_i32, el_nonneg, el_tree, el_u32, el_u32_below, el_u64, enc_bool,
    enc_i32, enc_tree, enc_u32, enc_u64, first_child_issue, len32, p_repeat, p_tree, ser_items,
    ser_tree, Step, el_boundary, enc_boundary, p_table, ser_table, p_entries, enc_entry,
    el_encoding, enc_encoding, p_categorical, ser_categorical, CategoricalView, p_metadata,
};
use crate::binning::table_valid;
use crate::booster::{Booster, MulticlassBooster};
use crate::float_bits::is_finite_bits;
use crate::loss::Loss;
use crate::model::io::{all_finite, deserialized, deserialized_multiclass, splits_in_range};
use crate::model::format::{fnv1a64_spec, magic_seq, VERSION};
use crate::model::layout::{p_body, ser_body, ser_model, spec_parse, ModelView};
use vstd::utf8::{encode_utf8, encode_utf8_decode_utf8, encode_utf8_valid_utf8};
use crate::categorical::{keys_ascending, FeatureEncodingView};
use crate::tree::{predict_spec, TreeView};
use crate::model::error::LayoutError;

verus! {

// -- byte windows ------------------------------------------------------------------

/// `x` stands in `b` at position `p`.
pub open spec fn at(b: Seq<u8>, p: int, x: Seq<u8>) -> bool {
    &&& 0 <= p
    &&& p + x.len() <= b.len()
    &&& b.subrange(p, p + x.len()) == x
}

/// A window holding `x + y` holds `x`, then `y`.
pub proof fn lemma_at_split(b: Seq<u8>, p: int, x: Seq<u8>, y: Seq<u8>)
    requires
        at(b, p, x + y),
    ensures
        at(b, p, x),
        at(b, p + x.len(), y),
{
    let whole = b.subrange(p, p + (x + y).len());
    assert(b.subrange(p, p + x.len()) =~= whole.subrange(0, x.len() as int));
    assert(whole.subrange(0, x.len() as int) =~= x);
    assert(b.subrange(p + x.len(), p + x.len() + y.len()) =~= whole.subrange(
        x.len() as int,
        (x + y).len() as int,
    ));
    assert(whole.subrange(x.len() as int, (x + y).len() as int) =~= y);
}

/// A `u16` written at `p` is read back at `p`.
pub proof fn lemma_at_u16(b: Seq<u8>, p: int, v: u16)
    requires
        at(b, p, spec_u16_to_le_bytes(v)),
    ensures
        in_range(b, p, 2),
        u16_at(b, p) == v,
{
    lemma_auto_spec_u16_to_from_le_bytes();
}

/// A `u32` written at `p` is read back at `p`.
pub proof fn lemma_at_u32(b: Seq<u8>, p: int, v: u32)
    requires
        at(b, p, spec_u32_to_le_bytes(v)),
    ensures
        in_range(b, p, 4),
        u32_at(b, p) == v,
{
    lemma_auto_spec_u32_to_from_le_bytes();
}

/// A `u64` written at `p` is read back at `p`.
pub proof fn lemma_at_u64(b: Seq<u8>, p: int, v: u64)
    requires
        at(b, p, spec_u64_to_le_bytes(v)),
    ensures
        in_range(b, p, 8),
        u64_at(b, p) == v,
{
    lemma_auto_spec_u64_to_from_le_bytes();
}

/// An `i32` written at `p` is read back at `p`.
pub proof fn lemma_at_i32(b: Seq<u8>, p: int, v: i32)
    requires
        at(b, p, spec_u32_to_le_bytes(v as u32)),
    ensures
        in_range(b, p, 4),
        i32_at(b, p) == v,
{
    lemma_at_u32(b, p, v as u32);
    assert((v as u32) as i32 == v) by (bit_vector);
}

// -- repeated items ----------------------------------------------------------------

/// `elem` reads back what `enc` wrote, for every item that `ok` admits.
pub open spec fn inverts<T>(
    elem: spec_fn(Seq<u8>, int) -> Step<T>,
    enc: spec_fn(T) -> Seq<u8>,
    ok: spec_fn(T) -> bool,
) -> bool {
    forall|b: Seq<u8>, p: int, x: T|
        #![trigger at(b, p, enc(x)), ok(x)]
        ok(x) && at(b, p, enc(x)) ==> elem(b, p) == Ok::<(T, int), ModelError>(
            (x, p + enc(x).len()),
        )
}

/// Items written one after another are read back one after another.
pub proof fn lemma_repeat_roundtrip<T>(
    b: Seq<u8>,
    p: int,
    s: Seq<T>,
    elem: spec_fn(Seq<u8>, int) -> Step<T>,
    enc: spec_fn(T) -> Seq<u8>,
    ok: spec_fn(T) -> bool,
)
    requires
        inverts(elem, enc, ok),
        forall|i: int| 0 <= i < s.len() ==> #[trigger] ok(s[i]),
        at(b, p, ser_items(s, enc)),
    ensures
        p_repeat(b, p, s.len(), elem) == Ok::<(Seq<T>, int), ModelError>(
            (s, p + ser_items(s, enc).len()),
        ),
    decreases s.len(),
{
    if s.len() == 0 {
        assert(s =~= Seq::<T>::empty());
    } else {
        let x = s[0];
        let rest = s.drop_first();
        lemma_at_split(b, p, enc(x), ser_items(rest, enc));
        assert(ok(x));
        assert(elem(b, p) == Ok::<(T, int), ModelError>((x, p + enc(x).len())));
        assert forall|i: int| 0 <= i < rest.len() implies #[trigger] ok(rest[i]) by {
            assert(ok(s[i + 1]));
        }
        lemma_repeat_roundtrip(b, p + enc(x).len(), rest, elem, enc, ok);
        assert(seq![x] + rest =~= s);
    }
}

// -- item kinds ----------------------------------------------------------------------

/// Admits every item.
pub open spec fn any<T>() -> spec_fn(T) -> bool {
    |x: T| true
}

/// Admits finite, non-negative `f64` bit patterns.
pub open spec fn nonneg_ok() -> spec_fn(u64) -> bool {
    |x: u64| is_finite_nonneg_bits(x)
}

/// Admits values below `limit`.
pub open spec fn below(limit: nat) -> spec_fn(u32) -> bool {
    |x: u32| x < limit
}

pub proof fn lemma_inverts_u32()
    ensures
        inverts(el_u32(), enc_u32(), any::<u32>()),
{
    assert forall|b: Seq<u8>, p: int, x: u32|
        #![trigger at(b, p, enc_u32()(x))]
        any::<u32>()(x) && at(b, p, enc_u32()(x)) implies el_u32()(b, p) == Ok::<
        (u32, int),
        ModelError,
    >((x, p + enc_u32()(x).len())) by {
        lemma_at_u32(b, p, x);
        lemma_auto_spec_u32_to_from_le_bytes();
    }
}

pub proof fn lemma_inverts_u64()
    ensures
        inverts(el_u64(), enc_u64(), any::<u64>()),
{
    assert forall|b: Seq<u8>, p: int, x: u64|
        #![trigger at(b, p, enc_u64()(x))]
        any::<u64>()(x) && at(b, p, enc_u64()(x)) implies el_u64()(b, p) == Ok::<
        (u64, int),
        ModelError,
    >((x, p + enc_u64()(x).len())) by {
        lemma_at_u64(b, p, x);
        lemma_auto_spec_u64_to_from_le_bytes();
    }
}

pub proof fn lemma_inverts_i32()
    ensures
        inverts(el_i32(), enc_i32(), any::<i32>()),
{
    assert forall|b: Seq<u8>, p: int, x: i32|
        #![trigger at(b, p, enc_i32()(x))]
        any::<i32>()(x) && at(b, p, enc_i32()(x)) implies el_i32()(b, p) == Ok::<
        (i32, int),
        ModelError,
    >((x, p + enc_i32()(x).len())) by {
        lemma_at_i32(b, p, x);
        lemma_auto_spec_u32_to_from_le_bytes();
    }
}

pub proof fn lemma_inverts_bool()
    ensures
        inverts(el_bool(), enc_bool(), any::<bool>()),
{
    assert forall|b: Seq<u8>, p: int, x: bool|
        #![trigger at(b, p, enc_bool()(x))]
        any::<bool>()(x) && at(b, p, enc_bool()(x)) implies el_bool()(b, p) == Ok::<
        (bool, int),
        ModelError,
    >((x, p + enc_bool()(x).len())) by {
        assert(b.subrange(p, p + 1)[0] == b[p]);
    }
}

pub proof fn lemma_inverts_nonneg(err: LayoutError)
    ensures
        inverts(el_nonneg(err), enc_u64(), nonneg_ok()),
{
    assert forall|b: Seq<u8>, p: int, x: u64|
        #![trigger at(b, p, enc_u64()(x))]
        nonneg_ok()(x) && at(b, p, enc_u64()(x)) implies el_nonneg(err)(b, p) == Ok::<
        (u64, int),
        ModelError,
    >((x, p + enc_u64()(x).len())) by {
        lemma_at_u64(b, p, x);
        lemma_auto_spec_u64_to_from_le_bytes();
    }
}

pub proof fn lemma_inverts_below(limit: nat, err: LayoutError)
    ensures
        inverts(el_u32_below(limit, err), enc_u32(), below(limit)),
{
    assert forall|b: Seq<u8>, p: int, x: u32|
        #![trigger at(b, p, enc_u32()(x))]
        below(limit)(x) && at(b, p, enc_u32()(x)) implies el_u32_below(limit, err)(b, p) == Ok::<
        (u32, int),
        ModelError,
    >((x, p + enc_u32()(x).len())) by {
        lemma_at_u32(b, p, x);
        lemma_auto_spec_u32_to_from_le_bytes();
    }
}

// -- trees --------------------------------------------------------------------------

/// A tree the layout can hold: aligned arrays, between one and `u32::MAX`
/// nodes, finite non-negative gains and cover counts, valid child indices.
pub open spec fn tree_encodable(t: TreeView) -> bool {
    &&& t.aligned()
    &&& 0 < t.num_nodes() <= u32::MAX
    &&& forall|i: int| 0 <= i < t.num_nodes() ==> is_finite_nonneg_bits(#[trigger] t.split_gains[i])
    &&& forall|i: int| 0 <= i < t.num_nodes() ==> is_finite_nonneg_bits(#[trigger] t.node_counts[i])
    &&& children_valid(t.left, t.right, t.num_nodes() as int)
}

pub open spec fn tree_ok() -> spec_fn(TreeView) -> bool {
    |t: TreeView| tree_encodable(t)
}

/// Valid child indices raise no child issue.
pub proof fn lemma_children_valid_no_issue(l: Seq<i32>, r: Seq<i32>, n: int, i: int)
    requires
        children_valid(l, r, n),
        0 <= i,
    ensures
        first_child_issue(l, r, n, i) is None,
    decreases n - i,
{
    if i < n {
        assert(l[i] == -1 && r[i] == -1 || (0 <= l[i] < n && 0 <= r[i] < n));
        lemma_children_valid_no_issue(l, r, n, i + 1);
    }
}

/// A tree written at `p` is read back at `p`.
pub proof fn lemma_tree_roundtrip(b: Seq<u8>, p: int, t: TreeView)
    requires
        tree_encodable(t),
        at(b, p, ser_tree(t)),
    ensures
        p_tree(b, p) == Ok::<(TreeView, int), ModelError>((t, p + ser_tree(t).len())),
{
    let n = t.left.len();
    let s0 = len32(n);
    let s1 = ser_items(t.split_features, enc_u32());
    let s2 = ser_items(t.thresholds, enc_u64());
    let s3 = ser_items(t.missing_go_left, enc_bool());
    let s4 = ser_items(t.left, enc_i32());
    let s5 = ser_items(t.right, enc_i32());
    let s6 = ser_items(t.leaf_values, enc_u64());
    let s7 = ser_items(t.depths, enc_u32());
    let s8 = ser_items(t.split_gains, enc_u64());
    let s9 = ser_items(t.node_counts, enc_u64());
    let a1 = s0 + s1;
    let a2 = a1 + s2;
    let a3 = a2 + s3;
    let a4 = a3 + s4;
    let a5 = a4 + s5;
    let a6 = a5 + s6;
    let a7 = a6 + s7;
    let a8 = a7 + s8;
    assert(ser_tree(t) == a8 + s9);
    lemma_at_split(b, p, a8, s9);
    lemma_at_split(b, p, a7, s8);
    lemma_at_split(b, p, a6, s7);
    lemma_at_split(b, p, a5, s6);
    lemma_at_split(b, p, a4, s5);
    lemma_at_split(b, p, a3, s4);
    lemma_at_split(b, p, a2, s3);
    lemma_at_split(b, p, a1, s2);
    lemma_at_split(b, p, s0, s1);
    lemma_at_u32(b, p, n as u32);
    lemma_auto_spec_u32_to_from_le_bytes();
    assert(u32_at(b, p) as nat == n);
    lemma_inverts_u32();
    lemma_inverts_u64();
    lemma_inverts_bool();
    lemma_inverts_i32();
    lemma_inverts_nonneg(LayoutError::SplitGainInvalid);
    lemma_inverts_nonneg(LayoutError::NodeCountInvalid);
    lemma_repeat_roundtrip(b, p + a1.len() - s1.len(), t.split_features, el_u32(), enc_u32(), any::<u32>());
    lemma_repeat_roundtrip(b, p + a1.len(), t.thresholds, el_u64(), enc_u64(), any::<u64>());
    lemma_repeat_roundtrip(b, p + a2.len(), t.missing_go_left, el_bool(), enc_bool(), any::<bool>());
    lemma_repeat_roundtrip(b, p + a3.len(), t.left, el_i32(), enc_i32(), any::<i32>());
    lemma_repeat_roundtrip(b, p + a4.len(), t.right, el_i32(), enc_i32(), any::<i32>());
    lemma_repeat_roundtrip(b, p + a5.len(), t.leaf_values, el_u64(), enc_u64(), any::<u64>());
    lemma_repeat_roundtrip(b, p + a6.len(), t.depths, el_u32(), enc_u32(), any::<u32>());
    assert forall|i: int| 0 <= i < t.split_gains.len() implies #[trigger] nonneg_ok()(t.split_gains[i]) by {
        assert(is_finite_nonneg_bits(t.split_gains[i]));
    }
    assert forall|i: int| 0 <= i < t.node_counts.len() implies #[trigger] nonneg_ok()(t.node_counts[i]) by {
        assert(is_finite_nonneg_bits(t.node_counts[i]));
    }
    lemma_repeat_roundtrip(
        b,
        p + a7.len(),
        t.split_gains,
        el_nonneg(LayoutError::SplitGainInvalid),
        enc_u64(),
        nonneg_ok(),
    );
    lemma_repeat_roundtrip(
        b,
        p + a8.len(),
        t.node_counts,
        el_nonneg(LayoutError::NodeCountInvalid),
        enc_u64(),
        nonneg_ok(),
    );
    lemma_children_valid_no_issue(t.left, t.right, n as int, 0);
}

pub proof fn lemma_inverts_tree()
    ensures
        inverts(el_tree(), enc_tree(), tree_ok()),
{
    assert forall|b: Seq<u8>, p: int, t: TreeView|
        #![trigger at(b, p, enc_tree()(t))]
        tree_ok()(t) && at(b, p, enc_tree()(t)) implies el_tree()(b, p) == Ok::<
        (TreeView, int),
        ModelError,
    >((t, p + enc_tree()(t).len())) by {
        lemma_tree_roundtrip(b, p, t);
    }
}

// -- bin table ----------------------------------------------------------------------

/// Admits sequences whose length fits a `u32` count.
pub open spec fn boundary_ok() -> spec_fn(Seq<u64>) -> bool {
    |x: Seq<u64>| x.len() <= u32::MAX
}

pub proof fn lemma_inverts_boundary()
    ensures
        inverts(el_boundary(), enc_boundary(), boundary_ok()),
{
    assert forall|b: Seq<u8>, p: int, x: Seq<u64>|
        #![trigger at(b, p, enc_boundary()(x))]
        boundary_ok()(x) && at(b, p, enc_boundary()(x)) implies el_boundary()(b, p) == Ok::<
        (Seq<u64>, int),
        ModelError,
    >((x, p + enc_boundary()(x).len())) by {
        lemma_at_split(b, p, len32(x.len()), ser_items(x, enc_u64()));
        lemma_at_u32(b, p, x.len() as u32);
        lemma_auto_spec_u32_to_from_le_bytes();
        lemma_inverts_u64();
        lemma_repeat_roundtrip(b, p + 4, x, el_u64(), enc_u64(), any::<u64>());
    }
}

/// A bin table the layout can hold.
pub open spec fn table_encodable(max_bins: nat, bs: Seq<Seq<u64>>) -> bool {
    &&& max_bins <= u32::MAX
    &&& bs.len() <= u32::MAX
    &&& table_valid(max_bins, bs)
}

/// A bin table written at `p` is read back at `p`.
pub proof fn lemma_table_roundtrip(b: Seq<u8>, p: int, max_bins: nat, bs: Seq<Seq<u64>>)
    requires
        table_encodable(max_bins, bs),
        at(b, p, ser_table(max_bins, bs)),
    ensures
        p_table(b, p) == Ok::<((nat, Seq<Seq<u64>>), int), ModelError>(
            ((max_bins, bs), p + ser_table(max_bins, bs).len()),
        ),
{
    lemma_at_split(b, p, len32(max_bins) + len32(bs.len()), ser_items(bs, enc_boundary()));
    lemma_at_split(b, p, len32(max_bins), len32(bs.len()));
    lemma_at_u32(b, p, max_bins as u32);
    lemma_auto_spec_u32_to_from_le_bytes();
    lemma_at_u32(b, p + 4, bs.len() as u32);
    lemma_inverts_boundary();
    assert forall|f: int| 0 <= f < bs.len() implies #[trigger] boundary_ok()(bs[f]) by {
        assert(bs[f].len() <= max_bins);
    }
    lemma_repeat_roundtrip(b, p + 8, bs, el_boundary(), enc_boundary(), boundary_ok());
}

// -- categorical section ---------------------------------------------------------

/// Entries written at `p` are read back at `p`, given that their keys ascend
/// and follow `prev`.
pub proof fn lemma_entries_roundtrip(b: Seq<u8>, p: int, es: Seq<(u32, u64)>, prev: Option<u32>)
    requires
        keys_ascending(es),
        prev matches Some(k) ==> (es.len() > 0 ==> k < es[0].0),
        at(b, p, ser_items(es, enc_entry())),
    ensures
        p_entries(b, p, es.len(), prev) == Ok::<(Seq<(u32, u64)>, int), ModelError>(
            (es, p + ser_items(es, enc_entry()).len()),
        ),
    decreases es.len(),
{
    if es.len() == 0 {
        assert(es =~= Seq::<(u32, u64)>::empty());
    } else {
        let e = es[0];
        let rest = es.drop_first();
        lemma_at_split(b, p, enc_entry()(e), ser_items(rest, enc_entry()));
        lemma_at_split(b, p, spec_u32_to_le_bytes(e.0), spec_u64_to_le_bytes(e.1));
        lemma_at_u32(b, p, e.0);
        lemma_auto_spec_u32_to_from_le_bytes();
        lemma_at_u64(b, p + 4, e.1);
        lemma_auto_spec_u64_to_from_le_bytes();
        assert(keys_ascending(rest)) by {
            assert forall|i: int, j: int| 0 <= i < j < rest.len() implies #[trigger] rest[i].0
                < #[trigger] rest[j].0 by {
                assert(es[i + 1].0 < es[j + 1].0);
            }
        }
        if rest.len() > 0 {
            assert(es[0].0 < es[1].0);
        }
        lemma_entries_roundtrip(b, p + 12, rest, Some(e.0));
        assert(seq![e] + rest =~= es);
    }
}

/// An encoding the layout can hold: a `u32` entry count, ascending keys.
pub open spec fn encoding_ok() -> spec_fn(FeatureEncodingView) -> bool {
    |e: FeatureEncodingView| e.entries.len() <= u32::MAX && keys_ascending(e.entries)
}

pub proof fn lemma_inverts_encoding()
    ensures
        inverts(el_encoding(), enc_encoding(), encoding_ok()),
{
    assert forall|b: Seq<u8>, p: int, e: FeatureEncodingView|
        #![trigger at(b, p, enc_encoding()(e))]
        encoding_ok()(e) && at(b, p, enc_encoding()(e)) implies el_encoding()(b, p) == Ok::<
        (FeatureEncodingView, int),
        ModelError,
    >((e, p + enc_encoding()(e).len())) by {
        let s0 = len32(e.entries.len());
        let s1 = ser_items(e.entries, enc_entry());
        let s2 = spec_u64_to_le_bytes(e.prior);
        let s3 = spec_u64_to_le_bytes(e.alpha);
        assert(enc_encoding()(e) == s0 + s1 + s2 + s3);
        lemma_at_split(b, p, s0 + s1 + s2, s3);
        lemma_at_split(b, p, s0 + s1, s2);
        lemma_at_split(b, p, s0, s1);
        lemma_at_u32(b, p, e.entries.len() as u32);
        lemma_auto_spec_u32_to_from_le_bytes();
        lemma_auto_spec_u64_to_from_le_bytes();
        lemma_entries_roundtrip(b, p + 4, e.entries, None);
        let q = p + 4 + s1.len();
        lemma_at_u64(b, q, e.prior);
        lemma_at_u64(b, q + 8, e.alpha);
    }
}

/// A categorical section the layout can hold, for `nf` features.
pub open spec fn categorical_encodable(c: Option<CategoricalView>, nf: nat) -> bool {
    match c {
        None => true,
        Some(c) => {
            &&& c.features.len() <= u32::MAX
            &&& c.encodings.len() == c.features.len()
            &&& forall|i: int| 0 <= i < c.features.len() ==> #[trigger] c.features[i] < nf
            &&& forall|i: int| 0 <= i < c.encodings.len() ==> #[trigger] encoding_ok()(c.encodings[i])
        },
    }
}

/// A categorical section written at `p` is read back at `p`.
pub proof fn lemma_categorical_roundtrip(b: Seq<u8>, p: int, c: Option<CategoricalView>, nf: nat)
    requires
        categorical_encodable(c, nf),
        at(b, p, ser_categorical(c)),
    ensures
        p_categorical(b, p, nf) == Ok::<(Option<CategoricalView>, int), ModelError>(
            (c, p + ser_categorical(c).len()),
        ),
{
    match c {
        None => {
            assert(b.subrange(p, p + 1)[0] == b[p]);
        },
        Some(cv) => {
            let s0 = seq![1u8];
            let s1 = len32(cv.features.len());
            let s2 = ser_items(cv.features, enc_u32());
            let s3 = ser_items(cv.encodings, enc_encoding());
            assert(ser_categorical(c) == s0 + s1 + s2 + s3);
            lemma_at_split(b, p, s0 + s1 + s2, s3);
            lemma_at_split(b, p, s0 + s1, s2);
            lemma_at_split(b, p, s0, s1);
            assert(b.subrange(p, p + 1)[0] == b[p]);
            lemma_at_u32(b, p + 1, cv.features.len() as u32);
            lemma_auto_spec_u32_to_from_le_bytes();
            let lim = nf;
            lemma_inverts_below(lim, LayoutError::CategoricalFeatureOutOfRange);
            assert forall|i: int| 0 <= i < cv.features.len() implies #[trigger] below(lim)(cv.features[i]) by {
                assert(cv.features[i] < nf);
            }
            lemma_repeat_roundtrip(
                b,
                p + 5,
                cv.features,
                el_u32_below(lim, LayoutError::CategoricalFeatureOutOfRange),
                enc_u32(),
                below(lim),
            );
            lemma_inverts_encoding();
            lemma_repeat_roundtrip(b, p + 5 + s2.len(), cv.encodings, el_encoding(), enc_encoding(), encoding_ok());
        },
    }
}

/// An empty metadata string is read back.
pub proof fn lemma_metadata_roundtrip(b: Seq<u8>, p: int)
    requires
        at(b, p, len32(0)),
    ensures
        p_metadata(b, p) == Ok::<((), int), ModelError>(((), p + 4)),
{
    lemma_at_u32(b, p, 0);
    lemma_auto_spec_u32_to_from_le_bytes();
    assert(b.subrange(p + 4, p + 4) =~= Seq::<u8>::empty());
}

// -- whole model ----------------------------------------------------------------------

/// A model the layout can hold: every length fits its count field, there is
/// at least one class, every tree is well formed, the bin table is valid and
/// the categorical section names features of the table.
pub open spec fn encodable(m: ModelView) -> bool {
    &&& encode_utf8(m.loss_name).len() <= u16::MAX
    &&& 1 <= m.init_scores.len() <= u32::MAX
    &&& m.trees.len() <= u32::MAX
    &&& forall|i: int| 0 <= i < m.trees.len() ==> #[trigger] tree_encodable(m.trees[i])
    &&& table_encodable(m.max_bins, m.boundaries)
    &&& categorical_encodable(m.categorical, m.boundaries.len())
}

/// Reading back a written model gives the model: for every model the layout
/// can hold, parsing its file yields it again.
#[verifier::spinoff_prover]
#[verifier::rlimit(60)]
pub proof fn law_save_load_roundtrip(m: ModelView)
    requires
        encodable(m),
    ensures
        spec_parse(ser_model(m)) == Ok::<ModelView, ModelError>(m),
{
    let name = encode_utf8(m.loss_name);
    let h0 = magic_seq();
    let h1 = spec_u32_to_le_bytes(VERSION);
    let h2 = spec_u16_to_le_bytes(name.len() as u16);
    let h3 = name;
    let h4 = len32(m.init_scores.len());
    let h5 = ser_items(m.init_scores, enc_u64());
    let h6 = spec_u64_to_le_bytes(m.learning_rate);
    let h7 = len32(m.trees.len());
    let h8 = ser_items(m.trees, enc_tree());
    let h9 = ser_table(m.max_bins, m.boundaries);
    let h10 = ser_categorical(m.categorical);
    let h11 = len32(0);
    let c1 = h0 + h1;
    let c2 = c1 + h2;
    let c3 = c2 + h3;
    let c4 = c3 + h4;
    let c5 = c4 + h5;
    let c6 = c5 + h6;
    let c7 = c6 + h7;
    let c8 = c7 + h8;
    let c9 = c8 + h9;
    let c10 = c9 + h10;
    let body = ser_body(m);
    assert(body == c10 + h11);
    let sum = spec_u64_to_le_bytes(fnv1a64_spec(body));
    let b = ser_model(m);
    assert(b == body + sum);
    assert(b.subrange(0, b.len() as int) =~= b);
    lemma_at_split(b, 0, body, sum);
    lemma_at_split(b, 0, c10, h11);
    lemma_at_split(b, 0, c9, h10);
    lemma_at_split(b, 0, c8, h9);
    lemma_at_split(b, 0, c7, h8);
    lemma_at_split(b, 0, c6, h7);
    lemma_at_split(b, 0, c5, h6);
    lemma_at_split(b, 0, c4, h5);
    lemma_at_split(b, 0, c3, h4);
    lemma_at_split(b, 0, c2, h3);
    lemma_at_split(b, 0, c1, h2);
    lemma_at_split(b, 0, h0, h1);
    lemma_auto_spec_u16_to_from_le_bytes();
    lemma_auto_spec_u32_to_from_le_bytes();
    lemma_auto_spec_u64_to_from_le_bytes();
    // header
    lemma_at_u32(b, 4, VERSION);
    lemma_at_u16(b, 8, name.len() as u16);
    assert(b.len() >= 16);
    lemma_at_u64(b, body.len() as int, fnv1a64_spec(body));
    assert(b.len() - 8 == body.len());
    encode_utf8_valid_utf8(m.loss_name);
    encode_utf8_decode_utf8(m.loss_name);
    let name_end: int = 10 + name.len() as int;
    lemma_at_u32(b, name_end, m.init_scores.len() as u32);
    // initial scores
    lemma_inverts_u64();
    lemma_repeat_roundtrip(b, name_end + 4, m.init_scores, el_u64(), enc_u64(), any::<u64>());
    let p1 = c5.len() as int;
    lemma_at_u64(b, p1, m.learning_rate);
    lemma_at_u32(b, p1 + 8, m.trees.len() as u32);
    // trees
    lemma_inverts_tree();
    assert forall|i: int| 0 <= i < m.trees.len() implies #[trigger] tree_ok()(m.trees[i]) by {
        assert(tree_encodable(m.trees[i]));
    }
    lemma_repeat_roundtrip(b, p1 + 12, m.trees, el_tree(), enc_tree(), tree_ok());
    // table, categorical section, metadata
    lemma_table_roundtrip(b, c8.len() as int, m.max_bins, m.boundaries);
    lemma_categorical_roundtrip(b, c9.len() as int, m.categorical, m.boundaries.len());
    lemma_metadata_roundtrip(b, c10.len() as int);
    assert(p_body(b) == Ok::<ModelView, ModelError>(m));
}

/// Saving a scalar model and loading it with the same loss gives the same
/// model back, whenever the model passes the loader's checks (finite initial
/// score and learning rate, split features within the table).
pub proof fn law_booster_save_load<L: Loss>(b: Booster<L>, res: Result<Booster<L>, ModelError>)
    requires
        encodable(b.model_view()),
        is_finite_bits(b.model_view().init_scores[0]),
        is_finite_bits(b.model_view().learning_rate),
        splits_in_range(b.model_view().trees, b.model_view().boundaries.len()),
        deserialized(ser_model(b.model_view()), res),
    ensures
        res matches Ok(b2) && b2.model_view() == b.model_view(),
{
    b.lemma_model_view_fixed_parts();
    law_save_load_roundtrip(b.model_view());
}

/// Saving a multiclass model and loading it gives the same model back,
/// whenever the model passes the loader's checks (at least two classes, the
/// tree count a positive multiple of the class count, finite scores, split features
/// within the table).
pub proof fn law_multiclass_save_load(b: MulticlassBooster, res: Result<MulticlassBooster, ModelError>)
    requires
        encodable(b.model_view()),
        b.model_view().init_scores.len() >= 2,
        b.model_view().trees.len() % b.model_view().init_scores.len() == 0,
        b.model_view().trees.len() / b.model_view().init_scores.len() > 0,
        all_finite(b.model_view().init_scores),
        is_finite_bits(b.model_view().learning_rate),
        splits_in_range(b.model_view().trees, b.model_view().boundaries.len()),
        deserialized_multiclass(ser_model(b.model_view()), res),
    ensures
        res matches Ok(b2) && b2.model_view() == b.model_view() && b2.spec_n_classes()
            == b.model_view().init_scores.len(),
{
    b.lemma_model_view_fixed_parts();
    law_save_load_roundtrip(b.model_view());
}

/// A loaded scalar model predicts exactly as the saved one: every tree
/// sends every row to the same leaf value, and the initial score and
/// learning rate are the same bits.
pub proof fn law_loaded_model_predicts_the_same<L: Loss>(
    b: Booster<L>,
    res: Result<Booster<L>, ModelError>,
    values: Seq<u64>,
    missing: Seq<bool>,
)
    requires
        encodable(b.model_view()),
        is_finite_bits(b.model_view().init_scores[0]),
        is_finite_bits(b.model_view().learning_rate),
        splits_in_range(b.model_view().trees, b.model_view().boundaries.len()),
        deserialized(ser_model(b.model_view()), res),
    ensures
        res matches Ok(b2) && b2.model_view().trees.len() == b.model_view().trees.len() && (forall|i: int|
            0 <= i < b.model_view().trees.len() ==> predict_spec(#[trigger] b2.model_view().trees[i], values, missing)
                == predict_spec(b.model_view().trees[i], values, missing)) && b2.model_view().init_scores
            == b.model_view().init_scores && b2.model_view().learning_rate == b.model_view().learning_rate,
{
    law_booster_save_load(b, res);
}

} // verus!
