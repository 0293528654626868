//! Model serialization and deserialization over the explicit byte layout.

use vstd::prelude::*;
use crate::float_bits::{is_finite, is_finite_bits, is_finite_nonneg};
use crate::booster::{class_trees_view, Booster, MulticlassBooster};
use crate::loss::Loss;
use crate::model::format::multiclass_loss_name;
use vstd::utf8::{encode_utf8, encode_utf8_decode_utf8};
use crate::model::error::{LayoutError, ModelError};
use crate::model::format::{
    in_range, read_u32, read_u64, read_u8, read_i32, read_f64_bits, u32_at, u64_at, i32_at,
    Cursor,
};
use crate::model::layout::{
    el_bool, el_boundary, el_encoding, el_i32, el_nonneg, el_tree, el_u32, el_u32_below, el_u64,
    first_child_issue, p_categorical, p_entries, p_metadata, p_repeat, p_table, p_tree, prepend,
    spec_parse, CategoricalView, ModelView, Step,
};
use crate::model::format::{fnv1a64, magic_seq, read_bytes, read_len_str32, read_len_str16, MAGIC, VERSION};
use crate::binning::{lemma_first_table_issue, nested_view, BinTable, BinTableView};
use crate::categorical::{keys_ascending, CategoricalEncoding, FeatureEncoding, FeatureEncodingView};
use crate::model::format::{read_exact, utf8_string};
use vstd::utf8::valid_utf8;
use crate::tree::{Tree, TreeView};
use crate::model::layout::{
    enc_bool, enc_boundary, enc_encoding, enc_entry, enc_i32, enc_tree, enc_u32, enc_u64, len32,
    lemma_ser_items_concat, lemma_ser_items_prefix, ser_body, ser_categorical, ser_items,
    ser_model, ser_table, ser_tree,
};
use crate::model::format::{push_u8, push_u16, push_u32, push_u64, push_i32, push_bytes, push_f64_bits, fnv1a64_spec};
use vstd::bytes::{spec_u16_to_le_bytes, spec_u32_to_le_bytes, spec_u64_to_le_bytes};

verus! {

// -- repetition lemmas -----------------------------------------------------------

proof fn lemma_repeat_start<T>(
    b: Seq<u8>,
    p0: int,
    n: nat,
    elem: spec_fn(Seq<u8>, int) -> Step<T>,
)
    ensures
        p_repeat(b, p0, n, elem) == prepend(Seq::<T>::empty(), p_repeat(b, p0, n, elem)),
{
    match p_repeat(b, p0, n, elem) {
        Ok((s, q)) => {
            assert(Seq::<T>::empty() + s =~= s);
        },
        Err(_) => {},
    }
}

proof fn lemma_repeat_step<T>(
    b: Seq<u8>,
    p0: int,
    n: nat,
    elem: spec_fn(Seq<u8>, int) -> Step<T>,
    done: Seq<T>,
    pos: int,
    k: nat,
    x: T,
    q: int,
)
    requires
        p_repeat(b, p0, n, elem) == prepend(done, p_repeat(b, pos, k, elem)),
        k > 0,
        elem(b, pos) == Ok::<(T, int), ModelError>((x, q)),
    ensures
        p_repeat(b, p0, n, elem) == prepend(done.push(x), p_repeat(b, q, (k - 1) as nat, elem)),
{
    match p_repeat(b, q, (k - 1) as nat, elem) {
        Ok((s, r)) => {
            assert(done + (seq![x] + s) =~= done.push(x) + s);
        },
        Err(_) => {},
    }
}

proof fn lemma_repeat_fail<T>(
    b: Seq<u8>,
    p0: int,
    n: nat,
    elem: spec_fn(Seq<u8>, int) -> Step<T>,
    done: Seq<T>,
    pos: int,
    k: nat,
    e: ModelError,
)
    requires
        p_repeat(b, p0, n, elem) == prepend(done, p_repeat(b, pos, k, elem)),
        k > 0,
        elem(b, pos) == Err::<(T, int), ModelError>(e),
    ensures
        p_repeat(b, p0, n, elem) == Err::<(Seq<T>, int), ModelError>(e),
{
}

proof fn lemma_repeat_done<T>(
    b: Seq<u8>,
    p0: int,
    n: nat,
    elem: spec_fn(Seq<u8>, int) -> Step<T>,
    done: Seq<T>,
    pos: int,
)
    requires
        p_repeat(b, p0, n, elem) == prepend(done, p_repeat(b, pos, 0, elem)),
    ensures
        p_repeat(b, p0, n, elem) == Ok::<(Seq<T>, int), ModelError>((done, pos)),
{
    assert(done + Seq::<T>::empty() =~= done);
}

/// A successful repetition yields exactly `n` items.
pub proof fn lemma_repeat_len<T>(
    b: Seq<u8>,
    pos: int,
    n: nat,
    elem: spec_fn(Seq<u8>, int) -> Step<T>,
)
    ensures
        p_repeat(b, pos, n, elem) matches Ok((s, _)) ==> s.len() == n,
    decreases n,
{
    if n > 0 {
        match elem(b, pos) {
            Ok((x, q)) => lemma_repeat_len(b, q, (n - 1) as nat, elem),
            Err(_) => {},
        }
    }
}

// -- array readers -----------------------------------------------------------------

/// Reads `n` little-endian `u32`s.
fn read_u32_vec(c: &mut Cursor, n: usize) -> (res: Result<Vec<u32>, ModelError>)
    ensures
        final(c).bytes() == old(c).bytes(),
        res matches Ok(v) ==> p_repeat(old(c).bytes(), old(c).pos(), n as nat, el_u32()) == Ok::<
            (Seq<u32>, int),
            ModelError,
        >((v@, final(c).pos())),
        res matches Err(e) ==> p_repeat(old(c).bytes(), old(c).pos(), n as nat, el_u32()) == Err::<
            (Seq<u32>, int),
            ModelError,
        >(e),
{
    let ghost b = c.bytes();
    let ghost p0 = c.pos();
    proof {
        lemma_repeat_start(b, p0, n as nat, el_u32());
    }
    let mut v: Vec<u32> = Vec::new();
    let mut i: usize = 0;
    while i < n
        invariant
            i <= n,
            c.bytes() == b,
            b == old(c).bytes(),
            p0 == old(c).pos(),
            p_repeat(b, p0, n as nat, el_u32()) == prepend(
                v@,
                p_repeat(b, c.pos(), (n - i) as nat, el_u32()),
            ),
        decreases n - i,
    {
        let ghost pos = c.pos();
        match read_u32(c) {
            Ok(x) => {
                proof {
                    lemma_repeat_step(b, p0, n as nat, el_u32(), v@, pos, (n - i) as nat, x, pos + 4);
                }
                v.push(x);
            },
            Err(e) => {
                proof {
                    lemma_repeat_fail(b, p0, n as nat, el_u32(), v@, pos, (n - i) as nat, e);
                }
                return Err(e);
            },
        }
        i = i + 1;
    }
    proof {
        lemma_repeat_done(b, p0, n as nat, el_u32(), v@, c.pos());
    }
    Ok(v)
}

/// Reads `n` little-endian `u64`s (`f64` bit patterns).
fn read_u64_vec(c: &mut Cursor, n: usize) -> (res: Result<Vec<u64>, ModelError>)
    ensures
        final(c).bytes() == old(c).bytes(),
        res matches Ok(v) ==> p_repeat(old(c).bytes(), old(c).pos(), n as nat, el_u64()) == Ok::<
            (Seq<u64>, int),
            ModelError,
        >((v@, final(c).pos())),
        res matches Err(e) ==> p_repeat(old(c).bytes(), old(c).pos(), n as nat, el_u64()) == Err::<
            (Seq<u64>, int),
            ModelError,
        >(e),
{
    let ghost b = c.bytes();
    let ghost p0 = c.pos();
    proof {
        lemma_repeat_start(b, p0, n as nat, el_u64());
    }
    let mut v: Vec<u64> = Vec::new();
    let mut i: usize = 0;
    while i < n
        invariant
            i <= n,
            c.bytes() == b,
            b == old(c).bytes(),
            p0 == old(c).pos(),
            p_repeat(b, p0, n as nat, el_u64()) == prepend(
                v@,
                p_repeat(b, c.pos(), (n - i) as nat, el_u64()),
            ),
        decreases n - i,
    {
        let ghost pos = c.pos();
        match read_u64(c) {
            Ok(x) => {
                proof {
                    lemma_repeat_step(b, p0, n as nat, el_u64(), v@, pos, (n - i) as nat, x, pos + 8);
                }
                v.push(x);
            },
            Err(e) => {
                proof {
                    lemma_repeat_fail(b, p0, n as nat, el_u64(), v@, pos, (n - i) as nat, e);
                }
                return Err(e);
            },
        }
        i = i + 1;
    }
    proof {
        lemma_repeat_done(b, p0, n as nat, el_u64(), v@, c.pos());
    }
    Ok(v)
}

/// Reads `n` little-endian `i32`s.
fn read_i32_vec(c: &mut Cursor, n: usize) -> (res: Result<Vec<i32>, ModelError>)
    ensures
        final(c).bytes() == old(c).bytes(),
        res matches Ok(v) ==> p_repeat(old(c).bytes(), old(c).pos(), n as nat, el_i32()) == Ok::<
            (Seq<i32>, int),
            ModelError,
        >((v@, final(c).pos())),
        res matches Err(e) ==> p_repeat(old(c).bytes(), old(c).pos(), n as nat, el_i32()) == Err::<
            (Seq<i32>, int),
            ModelError,
        >(e),
{
    let ghost b = c.bytes();
    let ghost p0 = c.pos();
    proof {
        lemma_repeat_start(b, p0, n as nat, el_i32());
    }
    let mut v: Vec<i32> = Vec::new();
    let mut i: usize = 0;
    while i < n
        invariant
            i <= n,
            c.bytes() == b,
            b == old(c).bytes(),
            p0 == old(c).pos(),
            p_repeat(b, p0, n as nat, el_i32()) == prepend(
                v@,
                p_repeat(b, c.pos(), (n - i) as nat, el_i32()),
            ),
        decreases n - i,
    {
        let ghost pos = c.pos();
        match read_i32(c) {
            Ok(x) => {
                proof {
                    lemma_repeat_step(b, p0, n as nat, el_i32(), v@, pos, (n - i) as nat, x, pos + 4);
                }
                v.push(x);
            },
            Err(e) => {
                proof {
                    lemma_repeat_fail(b, p0, n as nat, el_i32(), v@, pos, (n - i) as nat, e);
                }
                return Err(e);
            },
        }
        i = i + 1;
    }
    proof {
        lemma_repeat_done(b, p0, n as nat, el_i32(), v@, c.pos());
    }
    Ok(v)
}

/// Reads `n` boolean bytes, each 0 or 1.
fn read_bool_vec(c: &mut Cursor, n: usize) -> (res: Result<Vec<bool>, ModelError>)
    ensures
        final(c).bytes() == old(c).bytes(),
        res matches Ok(v) ==> p_repeat(old(c).bytes(), old(c).pos(), n as nat, el_bool())
            == Ok::<(Seq<bool>, int), ModelError>((v@, final(c).pos())),
        res matches Err(e) ==> p_repeat(old(c).bytes(), old(c).pos(), n as nat, el_bool())
            == Err::<(Seq<bool>, int), ModelError>(e),
{
    let ghost b = c.bytes();
    let ghost p0 = c.pos();
    proof {
        lemma_repeat_start(b, p0, n as nat, el_bool());
    }
    let mut v: Vec<bool> = Vec::new();
    let mut i: usize = 0;
    while i < n
        invariant
            i <= n,
            c.bytes() == b,
            b == old(c).bytes(),
            p0 == old(c).pos(),
            p_repeat(b, p0, n as nat, el_bool()) == prepend(
                v@,
                p_repeat(b, c.pos(), (n - i) as nat, el_bool()),
            ),
        decreases n - i,
    {
        let ghost pos = c.pos();
        match read_u8(c) {
            Ok(x) => {
                if x == 0 {
                    proof {
                        lemma_repeat_step(b, p0, n as nat, el_bool(), v@, pos, (n - i) as nat, false, pos + 1);
                    }
                    v.push(false);
                } else if x == 1 {
                    proof {
                        lemma_repeat_step(b, p0, n as nat, el_bool(), v@, pos, (n - i) as nat, true, pos + 1);
                    }
                    v.push(true);
                } else {
                    let e = ModelError::InvalidLayout(LayoutError::BoolNotZeroOne);
                    proof {
                        lemma_repeat_fail(b, p0, n as nat, el_bool(), v@, pos, (n - i) as nat, e);
                    }
                    return Err(e);
                }
            },
            Err(e) => {
                proof {
                    lemma_repeat_fail(b, p0, n as nat, el_bool(), v@, pos, (n - i) as nat, e);
                }
                return Err(e);
            },
        }
        i = i + 1;
    }
    proof {
        lemma_repeat_done(b, p0, n as nat, el_bool(), v@, c.pos());
    }
    Ok(v)
}

/// Reads `n` `f64` bit patterns, each finite and not negative.
fn read_nonneg_vec(c: &mut Cursor, n: usize, err: LayoutError) -> (res: Result<Vec<u64>, ModelError>)
    ensures
        final(c).bytes() == old(c).bytes(),
        res matches Ok(v) ==> p_repeat(old(c).bytes(), old(c).pos(), n as nat, el_nonneg(err))
            == Ok::<(Seq<u64>, int), ModelError>((v@, final(c).pos())),
        res matches Err(e) ==> p_repeat(old(c).bytes(), old(c).pos(), n as nat, el_nonneg(err))
            == Err::<(Seq<u64>, int), ModelError>(e),
{
    let ghost b = c.bytes();
    let ghost p0 = c.pos();
    proof {
        lemma_repeat_start(b, p0, n as nat, el_nonneg(err));
    }
    let mut v: Vec<u64> = Vec::new();
    let mut i: usize = 0;
    while i < n
        invariant
            i <= n,
            c.bytes() == b,
            b == old(c).bytes(),
            p0 == old(c).pos(),
            p_repeat(b, p0, n as nat, el_nonneg(err)) == prepend(
                v@,
                p_repeat(b, c.pos(), (n - i) as nat, el_nonneg(err)),
            ),
        decreases n - i,
    {
        let ghost pos = c.pos();
        match read_f64_bits(c) {
            Ok(x) => {
                if is_finite_nonneg(x) {
                    proof {
                        lemma_repeat_step(b, p0, n as nat, el_nonneg(err), v@, pos, (n - i) as nat, x, pos + 8);
                    }
                    v.push(x);
                } else {
                    let e = ModelError::InvalidLayout(err);
                    proof {
                        lemma_repeat_fail(b, p0, n as nat, el_nonneg(err), v@, pos, (n - i) as nat, e);
                    }
                    return Err(e);
                }
            },
            Err(e) => {
                proof {
                    lemma_repeat_fail(b, p0, n as nat, el_nonneg(err), v@, pos, (n - i) as nat, e);
                }
                return Err(e);
            },
        }
        i = i + 1;
    }
    proof {
        lemma_repeat_done(b, p0, n as nat, el_nonneg(err), v@, c.pos());
    }
    Ok(v)
}

/// Reads `n` little-endian `u32`s, each below `limit`.
fn read_u32_below_vec(c: &mut Cursor, n: usize, limit: usize, err: LayoutError) -> (res: Result<Vec<u32>, ModelError>)
    ensures
        final(c).bytes() == old(c).bytes(),
        res matches Ok(v) ==> p_repeat(old(c).bytes(), old(c).pos(), n as nat, el_u32_below(limit as nat, err))
            == Ok::<(Seq<u32>, int), ModelError>((v@, final(c).pos())),
        res matches Err(e) ==> p_repeat(old(c).bytes(), old(c).pos(), n as nat, el_u32_below(limit as nat, err))
            == Err::<(Seq<u32>, int), ModelError>(e),
{
    let ghost b = c.bytes();
    let ghost p0 = c.pos();
    let ghost el = el_u32_below(limit as nat, err);
    proof {
        lemma_repeat_start(b, p0, n as nat, el);
    }
    let mut v: Vec<u32> = Vec::new();
    let mut i: usize = 0;
    while i < n
        invariant
            i <= n,
            c.bytes() == b,
            b == old(c).bytes(),
            p0 == old(c).pos(),
            el == el_u32_below(limit as nat, err),
            p_repeat(b, p0, n as nat, el) == prepend(v@, p_repeat(b, c.pos(), (n - i) as nat, el)),
        decreases n - i,
    {
        let ghost pos = c.pos();
        match read_u32(c) {
            Ok(x) => {
                if (x as usize) < limit {
                    proof {
                        lemma_repeat_step(b, p0, n as nat, el, v@, pos, (n - i) as nat, x, pos + 4);
                    }
                    v.push(x);
                } else {
                    let e = ModelError::InvalidLayout(err);
                    proof {
                        lemma_repeat_fail(b, p0, n as nat, el, v@, pos, (n - i) as nat, e);
                    }
                    return Err(e);
                }
            },
            Err(e) => {
                proof {
                    lemma_repeat_fail(b, p0, n as nat, el, v@, pos, (n - i) as nat, e);
                }
                return Err(e);
            },
        }
        i = i + 1;
    }
    proof {
        lemma_repeat_done(b, p0, n as nat, el, v@, c.pos());
    }
    Ok(v)
}

/// The first child-index problem among nodes `0..n`.
fn check_children(left: &Vec<i32>, right: &Vec<i32>, n: usize) -> (r: Option<LayoutError>)
    requires
        left@.len() == n,
        right@.len() == n,
    ensures
        r == first_child_issue(left@, right@, n as int, 0),
{
    let mut i: usize = 0;
    while i < n
        invariant
            i <= n,
            left@.len() == n,
            right@.len() == n,
            first_child_issue(left@, right@, n as int, 0) == first_child_issue(
                left@,
                right@,
                n as int,
                i as int,
            ),
        decreases n - i,
    {
        let l = left[i];
        let r = right[i];
        if l < 0 || r < 0 {
            if l != -1 || r != -1 {
                return Some(LayoutError::PartialChildren);
            }
        } else if (l as usize) >= n || (r as usize) >= n {
            return Some(LayoutError::ChildOutOfRange);
        }
        i = i + 1;
    }
    None
}

/// Reads one tree and checks its node structure.
pub fn read_tree(c: &mut Cursor) -> (res: Result<Tree, ModelError>)
    ensures
        final(c).bytes() == old(c).bytes(),
        res matches Ok(t) ==> p_tree(old(c).bytes(), old(c).pos()) == Ok::<(TreeView, int), ModelError>((t@, final(c).pos())),
        res matches Err(e) ==> p_tree(old(c).bytes(), old(c).pos()) == Err::<(TreeView, int), ModelError>(e),
{
    let num_nodes = read_u32(c)?;
    let n = num_nodes as usize;
    if n == 0 {
        return Err(ModelError::InvalidLayout(LayoutError::EmptyTree));
    }
    let split_features = read_u32_vec(c, n)?;
    let thresholds = read_u64_vec(c, n)?;
    let missing_go_left = read_bool_vec(c, n)?;
    let ghost p4 = c.pos();
    let left = read_i32_vec(c, n)?;
    let ghost p5 = c.pos();
    let right = read_i32_vec(c, n)?;
    let leaf_values = read_u64_vec(c, n)?;
    let depths = read_u32_vec(c, n)?;
    let split_gains = read_nonneg_vec(c, n, LayoutError::SplitGainInvalid)?;
    let node_counts = read_nonneg_vec(c, n, LayoutError::NodeCountInvalid)?;
    proof {
        lemma_repeat_len(old(c).bytes(), p4, n as nat, el_i32());
        lemma_repeat_len(old(c).bytes(), p5, n as nat, el_i32());
    }
    match check_children(&left, &right, n) {
        Some(e) => Err(ModelError::InvalidLayout(e)),
        None => Ok(
            Tree::from_soa(
                split_features,
                thresholds,
                missing_go_left,
                left,
                right,
                leaf_values,
                depths,
                split_gains,
                node_counts,
            ),
        ),
    }
}

/// The contents of a vector of trees.
pub open spec fn trees_view(ts: Seq<Tree>) -> Seq<TreeView> {
    ts.map_values(|t: Tree| t@)
}

/// Reads `n` trees.
fn read_trees(c: &mut Cursor, n: usize) -> (res: Result<Vec<Tree>, ModelError>)
    ensures
        final(c).bytes() == old(c).bytes(),
        res matches Ok(v) ==> p_repeat(old(c).bytes(), old(c).pos(), n as nat, el_tree())
            == Ok::<(Seq<TreeView>, int), ModelError>((trees_view(v@), final(c).pos())),
        res matches Err(e) ==> p_repeat(old(c).bytes(), old(c).pos(), n as nat, el_tree())
            == Err::<(Seq<TreeView>, int), ModelError>(e),
{
    let ghost b = c.bytes();
    let ghost p0 = c.pos();
    proof {
        lemma_repeat_start(b, p0, n as nat, el_tree());
        assert(trees_view(Seq::<Tree>::empty()) =~= Seq::<TreeView>::empty());
    }
    let mut v: Vec<Tree> = Vec::new();
    let mut i: usize = 0;
    while i < n
        invariant
            i <= n,
            c.bytes() == b,
            b == old(c).bytes(),
            p0 == old(c).pos(),
            p_repeat(b, p0, n as nat, el_tree()) == prepend(
                trees_view(v@),
                p_repeat(b, c.pos(), (n - i) as nat, el_tree()),
            ),
        decreases n - i,
    {
        let ghost pos = c.pos();
        match read_tree(c) {
            Ok(t) => {
                proof {
                    lemma_repeat_step(b, p0, n as nat, el_tree(), trees_view(v@), pos, (n - i) as nat, t@, c.pos());
                    assert(trees_view(v@.push(t)) =~= trees_view(v@).push(t@));
                }
                v.push(t);
            },
            Err(e) => {
                proof {
                    lemma_repeat_fail(b, p0, n as nat, el_tree(), trees_view(v@), pos, (n - i) as nat, e);
                }
                return Err(e);
            },
        }
        i = i + 1;
    }
    proof {
        lemma_repeat_done(b, p0, n as nat, el_tree(), trees_view(v@), c.pos());
    }
    Ok(v)
}

/// Reads one feature's boundaries: a `u32` count, then that many `f64`s.
fn read_boundary(c: &mut Cursor) -> (res: Result<Vec<u64>, ModelError>)
    ensures
        final(c).bytes() == old(c).bytes(),
        res matches Ok(v) ==> el_boundary()(old(c).bytes(), old(c).pos())
            == Ok::<(Seq<u64>, int), ModelError>((v@, final(c).pos())),
        res matches Err(e) ==> el_boundary()(old(c).bytes(), old(c).pos())
            == Err::<(Seq<u64>, int), ModelError>(e),
{
    let nb = read_u32(c)?;
    read_u64_vec(c, nb as usize)
}

/// Reads the bin table and checks its boundaries.
pub fn read_bin_table(c: &mut Cursor) -> (res: Result<BinTable, ModelError>)
    ensures
        final(c).bytes() == old(c).bytes(),
        res matches Ok(t) ==> p_table(old(c).bytes(), old(c).pos())
            == Ok::<((nat, Seq<Seq<u64>>), int), ModelError>(((t@.max_bins, t@.boundaries), final(c).pos())),
        res matches Err(e) ==> p_table(old(c).bytes(), old(c).pos())
            == Err::<((nat, Seq<Seq<u64>>), int), ModelError>(e),
{
    let ghost b = c.bytes();
    let ghost start = c.pos();
    let max_bins = read_u32(c)?;
    let num_features = read_u32(c)?;
    let n = num_features as usize;
    let ghost p0 = c.pos();
    proof {
        lemma_repeat_start(b, p0, n as nat, el_boundary());
    }
    let mut boundaries: Vec<Vec<u64>> = Vec::new();
    assert(nested_view(&boundaries) =~= Seq::<Seq<u64>>::empty());
    let mut i: usize = 0;
    while i < n
        invariant
            i <= n,
            c.bytes() == b,
            b == old(c).bytes(),
            p_table(b, old(c).pos()) == (match p_repeat(b, p0, n as nat, el_boundary()) {
                Err(e) => Err(e),
                Ok((bs, q)) => if crate::binning::table_valid(max_bins as nat, bs) {
                    Ok(((max_bins as nat, bs), q))
                } else {
                    crate::model::layout::layout(LayoutError::BinTableInvalid)
                },
            }),
            p_repeat(b, p0, n as nat, el_boundary()) == prepend(
                nested_view(&boundaries),
                p_repeat(b, c.pos(), (n - i) as nat, el_boundary()),
            ),
        decreases n - i,
    {
        let ghost pos = c.pos();
        match read_boundary(c) {
            Ok(v) => {
                proof {
                    lemma_repeat_step(b, p0, n as nat, el_boundary(), nested_view(&boundaries), pos, (n - i) as nat, v@, c.pos());
                }
                let ghost before = boundaries;
                boundaries.push(v);
                proof {
                    assert(nested_view(&boundaries) =~= nested_view(&before).push(v@));
                }
            },
            Err(e) => {
                proof {
                    lemma_repeat_fail(b, p0, n as nat, el_boundary(), nested_view(&boundaries), pos, (n - i) as nat, e);
                }
                return Err(e);
            },
        }
        i = i + 1;
    }
    proof {
        lemma_repeat_done(b, p0, n as nat, el_boundary(), nested_view(&boundaries), c.pos());
        lemma_first_table_issue(max_bins as nat, nested_view(&boundaries), 0);
    }
    match BinTable::new(boundaries, max_bins as usize) {
        Ok(t) => Ok(t),
        Err(_) => Err(ModelError::InvalidLayout(LayoutError::BinTableInvalid)),
    }
}

/// Entries read by `p_entries` have strictly ascending keys, all above `prev`.
proof fn lemma_entries_ascending(b: Seq<u8>, pos: int, n: nat, prev: Option<u32>)
    ensures
        p_entries(b, pos, n, prev) matches Ok((es, _)) ==> {
            &&& keys_ascending(es)
            &&& es.len() == n
            &&& (prev matches Some(p) ==> forall|i: int| 0 <= i < es.len() ==> p < #[trigger] es[i].0)
        },
    decreases n,
{
    if n > 0 && in_range(b, pos, 12) {
        let k = u32_at(b, pos);
        lemma_entries_ascending(b, pos + 12, (n - 1) as nat, Some(k));
        if let Ok((es, q)) = p_entries(b, pos, n, prev) {
            let v = u64_at(b, pos + 4);
            let rest = p_entries(b, pos + 12, (n - 1) as nat, Some(k))->Ok_0.0;
            assert(es == seq![(k, v)] + rest);
            assert forall|i: int, j: int| 0 <= i < j < es.len() implies #[trigger] es[i].0 < #[trigger] es[j].0 by {
                if i > 0 {
                    assert(es[i] == rest[i - 1]);
                    assert(es[j] == rest[j - 1]);
                } else {
                    assert(es[j] == rest[j - 1]);
                }
            }
            assert forall|i: int| 0 <= i < es.len() implies (prev matches Some(p) ==> p < #[trigger] es[i].0) by {
                if i > 0 {
                    assert(es[i] == rest[i - 1]);
                }
            }
        }
    }
}

/// Reads `n` categorical entries with strictly ascending keys.
fn read_entries(c: &mut Cursor, n: usize) -> (res: Result<Vec<(u32, u64)>, ModelError>)
    ensures
        final(c).bytes() == old(c).bytes(),
        res matches Ok(v) ==> p_entries(old(c).bytes(), old(c).pos(), n as nat, None)
            == Ok::<(Seq<(u32, u64)>, int), ModelError>((v@, final(c).pos())),
        res matches Err(e) ==> p_entries(old(c).bytes(), old(c).pos(), n as nat, None)
            == Err::<(Seq<(u32, u64)>, int), ModelError>(e),
{
    let ghost b = c.bytes();
    let ghost p0 = c.pos();
    let mut v: Vec<(u32, u64)> = Vec::new();
    let mut prev: Option<u32> = None;
    let mut i: usize = 0;
    proof {
        match p_entries(b, p0, n as nat, None) {
            Ok((s, q)) => {
                assert(Seq::<(u32, u64)>::empty() + s =~= s);
            },
            Err(_) => {},
        }
    }
    while i < n
        invariant
            i <= n,
            c.bytes() == b,
            b == old(c).bytes(),
            p0 == old(c).pos(),
            p_entries(b, p0, n as nat, None) == prepend(
                v@,
                p_entries(b, c.pos(), (n - i) as nat, prev),
            ),
        decreases n - i,
    {
        let ghost pos = c.pos();
        let k = match read_u32(c) {
            Ok(k) => k,
            Err(e) => {
                return Err(e);
            },
        };
        let x = match read_f64_bits(c) {
            Ok(x) => x,
            Err(e) => {
                return Err(e);
            },
        };
        if let Some(p) = prev {
            if p >= k {
                return Err(ModelError::InvalidLayout(LayoutError::CategoricalKeysNotAscending));
            }
        }
        proof {
            match p_entries(b, pos + 12, (n - i - 1) as nat, Some(k)) {
                Ok((s, q)) => {
                    assert(v@ + (seq![(k, x)] + s) =~= v@.push((k, x)) + s);
                },
                Err(_) => {},
            }
        }
        v.push((k, x));
        prev = Some(k);
        i = i + 1;
    }
    proof {
        assert(v@ + Seq::<(u32, u64)>::empty() =~= v@);
    }
    Ok(v)
}

/// Reads one categorical feature's encoding: entries, prior, alpha.
fn read_encoding(c: &mut Cursor) -> (res: Result<FeatureEncoding, ModelError>)
    ensures
        final(c).bytes() == old(c).bytes(),
        res matches Ok(e) ==> el_encoding()(old(c).bytes(), old(c).pos())
            == Ok::<(FeatureEncodingView, int), ModelError>((e@, final(c).pos())),
        res matches Err(e) ==> el_encoding()(old(c).bytes(), old(c).pos())
            == Err::<(FeatureEncodingView, int), ModelError>(e),
{
    let ghost b = c.bytes();
    let ghost p0 = c.pos();
    let num_entries = read_u32(c)?;
    let ghost p1 = c.pos();
    let entries = read_entries(c, num_entries as usize)?;
    let prior = read_f64_bits(c)?;
    let alpha = read_f64_bits(c)?;
    proof {
        lemma_entries_ascending(b, p1, num_entries as nat, None);
    }
    match FeatureEncoding::new(entries, prior, alpha) {
        Some(e) => Ok(e),
        None => Err(ModelError::InvalidLayout(LayoutError::CategoricalKeysNotAscending)),
    }
}

/// The categorical section: the feature indices and their encodings.
pub open spec fn categorical_view(enc: Option<CategoricalEncoding>, features: Seq<u32>) -> Option<CategoricalView> {
    match enc {
        None => None,
        Some(e) => Some(CategoricalView { features, encodings: e@ }),
    }
}

/// Reads the categorical section for a table with `num_features` features.
fn read_categorical(c: &mut Cursor, num_features: usize) -> (res: Result<(Option<CategoricalEncoding>, Vec<u32>), ModelError>)
    ensures
        final(c).bytes() == old(c).bytes(),
        res matches Ok((enc, fs)) ==> p_categorical(old(c).bytes(), old(c).pos(), num_features as nat)
            == Ok::<(Option<CategoricalView>, int), ModelError>((categorical_view(enc, fs@), final(c).pos())),
        res matches Ok((enc, fs)) ==> (enc is None ==> fs@.len() == 0),
        res matches Err(e) ==> p_categorical(old(c).bytes(), old(c).pos(), num_features as nat)
            == Err::<(Option<CategoricalView>, int), ModelError>(e),
{
    let ghost b = c.bytes();
    let flag = read_u8(c)?;
    if flag == 0 {
        return Ok((None, Vec::new()));
    } else if flag != 1 {
        return Err(ModelError::InvalidLayout(LayoutError::CategoricalFlagInvalid));
    }
    let num_cat = read_u32(c)?;
    let n = num_cat as usize;
    let features = read_u32_below_vec(c, n, num_features, LayoutError::CategoricalFeatureOutOfRange)?;
    let ghost p0 = c.pos();
    proof {
        lemma_repeat_start(b, p0, n as nat, el_encoding());
    }
    let mut encs: Vec<FeatureEncoding> = Vec::new();
    proof {
        assert(encs@.map_values(|e: FeatureEncoding| e@) =~= Seq::<FeatureEncodingView>::empty());
    }
    let mut i: usize = 0;
    while i < n
        invariant
            i <= n,
            c.bytes() == b,
            b == old(c).bytes(),
            p_categorical(b, old(c).pos(), num_features as nat) == (match p_repeat(b, p0, n as nat, el_encoding()) {
                Err(e) => Err(e),
                Ok((es, q2)) => Ok((Some(CategoricalView { features: features@, encodings: es }), q2)),
            }),
            p_repeat(b, p0, n as nat, el_encoding()) == prepend(
                encs@.map_values(|e: FeatureEncoding| e@),
                p_repeat(b, c.pos(), (n - i) as nat, el_encoding()),
            ),
        decreases n - i,
    {
        let ghost pos = c.pos();
        match read_encoding(c) {
            Ok(e) => {
                proof {
                    lemma_repeat_step(b, p0, n as nat, el_encoding(), encs@.map_values(|e: FeatureEncoding| e@), pos, (n - i) as nat, e@, c.pos());
                    assert(encs@.push(e).map_values(|e: FeatureEncoding| e@) =~= encs@.map_values(|e: FeatureEncoding| e@).push(e@));
                }
                encs.push(e);
            },
            Err(e) => {
                proof {
                    lemma_repeat_fail(b, p0, n as nat, el_encoding(), encs@.map_values(|e: FeatureEncoding| e@), pos, (n - i) as nat, e);
                }
                return Err(e);
            },
        }
        i = i + 1;
    }
    proof {
        lemma_repeat_done(b, p0, n as nat, el_encoding(), encs@.map_values(|e: FeatureEncoding| e@), c.pos());
    }
    let enc = CategoricalEncoding::from_parts(encs);
    Ok((Some(enc), features))
}

/// Reads the metadata string (checked for UTF-8, then discarded).
fn read_metadata(c: &mut Cursor) -> (res: Result<(), ModelError>)
    ensures
        final(c).bytes() == old(c).bytes(),
        res matches Ok(_) ==> p_metadata(old(c).bytes(), old(c).pos()) == Ok::<((), int), ModelError>(((), final(c).pos())),
        res matches Err(e) ==> p_metadata(old(c).bytes(), old(c).pos()) == Err::<((), int), ModelError>(e),
{
    let _metadata = read_len_str32(c)?;
    Ok(())
}

/// A parsed model file (header, trees, table, categorical section).
pub struct Parsed {
    pub loss_name: String,
    pub init_scores: Vec<u64>,
    pub learning_rate: u64,
    pub trees: Vec<Tree>,
    pub table: BinTable,
    pub encoding: Option<CategoricalEncoding>,
    pub cat_features: Vec<u32>,
}

impl Parsed {
    /// The contents of the parsed file.
    pub open spec fn model_view(&self) -> ModelView {
        ModelView {
            loss_name: self.loss_name@,
            init_scores: self.init_scores@,
            learning_rate: self.learning_rate,
            trees: trees_view(self.trees@),
            max_bins: self.table@.max_bins,
            boundaries: self.table@.boundaries,
            categorical: categorical_view(self.encoding, self.cat_features@),
        }
    }
}

/// Shared parse: magic, version, checksum, header, trees, bin table,
/// categorical section, metadata.
pub fn parse(bytes: &[u8]) -> (res: Result<Parsed, ModelError>)
    ensures
        match spec_parse(bytes@) {
            Ok(m) => res matches Ok(p) && p.model_view() == m && (p.encoding is None ==> p.cat_features@.len() == 0),
            Err(e) => res matches Err(e2) && e2 == e,
        },
{
    let ghost b = bytes@;
    if bytes.len() < 8 || bytes[0] != MAGIC[0] || bytes[1] != MAGIC[1] || bytes[2] != MAGIC[2]
        || bytes[3] != MAGIC[3] {
        proof {
            if bytes.len() >= 8 {
                assert(b.subrange(0, 4) != magic_seq()) by {
                    if b.subrange(0, 4) == magic_seq() {
                        assert(b.subrange(0, 4)[0] == b[0]);
                        assert(b.subrange(0, 4)[1] == b[1]);
                        assert(b.subrange(0, 4)[2] == b[2]);
                        assert(b.subrange(0, 4)[3] == b[3]);
                    }
                }
            }
        }
        return Err(ModelError::InvalidMagic);
    }
    assert(b.subrange(0, 4) =~= magic_seq());
    let version = vstd::bytes::u32_from_le_bytes(vstd::slice::slice_subrange(bytes, 4, 8));
    if version != VERSION {
        return Err(ModelError::UnsupportedVersion { version, supported: VERSION });
    }
    if bytes.len() < 16 {
        return Err(ModelError::Truncated);
    }
    let n = bytes.len();
    let checksum = vstd::bytes::u64_from_le_bytes(vstd::slice::slice_subrange(bytes, n - 8, n));
    let actual = fnv1a64(vstd::slice::slice_subrange(bytes, 0, n - 8));
    if checksum != actual {
        return Err(ModelError::ChecksumFailed { expected: checksum, actual });
    }
    let mut c = Cursor::new(bytes);
    read_bytes(&mut c, 4)?;
    read_u32(&mut c)?;
    let loss_name = read_len_str16(&mut c)?;
    let num_classes = read_u32(&mut c)?;
    if num_classes == 0 {
        return Err(ModelError::InvalidLayout(LayoutError::ZeroClasses));
    }
    let init_scores = read_u64_vec(&mut c, num_classes as usize)?;
    let learning_rate = read_f64_bits(&mut c)?;
    let num_trees = read_u32(&mut c)?;
    let trees = read_trees(&mut c, num_trees as usize)?;
    let table = read_bin_table(&mut c)?;
    let (encoding, cat_features) = read_categorical(&mut c, table.num_features())?;
    read_metadata(&mut c)?;
    Ok(Parsed { loss_name, init_scores, learning_rate, trees, table, encoding, cat_features })
}

/// Every split feature index is below `num_features`.
pub open spec fn splits_in_range(trees: Seq<TreeView>, num_features: nat) -> bool {
    forall|t: int, i: int|
        0 <= t < trees.len() && 0 <= i < trees[t].split_features.len() ==> #[trigger] trees[t].split_features[i]
            < num_features
}

/// Every value is finite.
pub open spec fn all_finite(s: Seq<u64>) -> bool {
    forall|i: int| 0 <= i < s.len() ==> #[trigger] is_finite_bits(s[i])
}

/// Structure check: every node's split feature is below the feature count.
fn validate_tree_features(trees: &Vec<Tree>, num_features: usize) -> (res: Result<(), ModelError>)
    ensures
        res is Ok <==> splits_in_range(trees_view(trees@), num_features as nat),
        res matches Err(e) ==> e == ModelError::InvalidLayout(LayoutError::SplitFeatureOutOfRange),
{
    let ghost tv = trees_view(trees@);
    let mut t: usize = 0;
    while t < trees.len()
        invariant
            t <= trees@.len(),
            tv == trees_view(trees@),
            forall|u: int, i: int|
                0 <= u < t && 0 <= i < tv[u].split_features.len() ==> #[trigger] tv[u].split_features[i]
                    < num_features,
        decreases trees@.len() - t,
    {
        let sf = trees[t].split_features();
        assert(sf@ == tv[t as int].split_features);
        let mut i: usize = 0;
        while i < sf.len()
            invariant
                i <= sf@.len(),
                t < trees@.len(),
                tv == trees_view(trees@),
                sf@ == tv[t as int].split_features,
                forall|j: int| 0 <= j < i ==> #[trigger] sf@[j] < num_features,
                forall|u: int, j: int|
                    0 <= u < t && 0 <= j < tv[u].split_features.len() ==> #[trigger] tv[u].split_features[j]
                        < num_features,
            decreases sf@.len() - i,
        {
            if (sf[i] as usize) >= num_features {
                return Err(ModelError::InvalidLayout(LayoutError::SplitFeatureOutOfRange));
            }
            i = i + 1;
        }
        t = t + 1;
    }
    Ok(())
}

/// Whether all values are finite.
fn check_all_finite(s: &Vec<u64>) -> (r: bool)
    ensures
        r == all_finite(s@),
{
    let mut i: usize = 0;
    while i < s.len()
        invariant
            i <= s@.len(),
            forall|j: int| 0 <= j < i ==> #[trigger] is_finite_bits(s@[j]),
        decreases s@.len() - i,
    {
        if !is_finite(s[i]) {
            return false;
        }
        i = i + 1;
    }
    true
}

/// String equality by characters.
fn str_eq(a: &str, b: &str) -> (r: bool)
    ensures
        r == (a@ == b@),
{
    let x = a.as_bytes();
    let y = b.as_bytes();
    proof {
        encode_utf8_decode_utf8(a@);
        encode_utf8_decode_utf8(b@);
    }
    if x.len() != y.len() {
        return false;
    }
    let mut i: usize = 0;
    while i < x.len()
        invariant
            i <= x@.len(),
            x@.len() == y@.len(),
            x@ == encode_utf8(a@),
            y@ == encode_utf8(b@),
            forall|j: int| 0 <= j < i ==> x@[j] == y@[j],
        decreases x@.len() - i,
    {
        if x[i] != y[i] {
            return false;
        }
        i = i + 1;
    }
    assert(x@ =~= y@);
    true
}

/// The name of the multiclass softmax loss.
pub fn multiclass_loss_name_str() -> (r: &'static str)
    ensures
        r@ == multiclass_loss_name(),
{
    proof {
        reveal_strlit("multiclass_softmax");
    }
    "multiclass_softmax"
}

/// What deserializing `bytes` as a scalar model with loss `L` gives.
///
/// Checks, in order: magic, version, checksum, structure (all in
/// `spec_parse`), then the loss name, exactly one class, finite initial score
/// and learning rate, and split features within the table.
pub open spec fn deserialized<L: Loss>(bytes: Seq<u8>, res: Result<Booster<L>, ModelError>) -> bool {
    match spec_parse(bytes) {
        Err(e) => res matches Err(e2) && e2 == e,
        Ok(m) => if m.loss_name != L::spec_name() {
            res matches Err(ModelError::LossMismatch { expected, found })
                && expected@ == L::spec_name() && found@ == m.loss_name
        } else if m.init_scores.len() != 1 {
            res matches Err(e) && e == ModelError::InvalidLayout(LayoutError::ScalarNeedsOneClass)
        } else if !(is_finite_bits(m.init_scores[0]) && is_finite_bits(m.learning_rate)) {
            res matches Err(e) && e == ModelError::InvalidLayout(LayoutError::NonFiniteScores)
        } else if !splits_in_range(m.trees, m.boundaries.len()) {
            res matches Err(e) && e == ModelError::InvalidLayout(LayoutError::SplitFeatureOutOfRange)
        } else {
            &&& res matches Ok(b)
            &&& b.model_view() == m
            &&& b.spec_best_iteration() == m.trees.len()
            &&& b.spec_eval_history() == Seq::<u64>::empty()
        },
    }
}

/// Deserializes a scalar-loss model; `loss` names the expected loss.
pub fn deserialize<L: Loss>(bytes: &[u8], loss: L) -> (res: Result<Booster<L>, ModelError>)
    ensures
        deserialized(bytes@, res),
{
    let p = parse(bytes)?;
    let name = loss.name();
    if !str_eq(p.loss_name.as_str(), name) {
        return Err(ModelError::LossMismatch { expected: name.to_owned(), found: p.loss_name });
    }
    if p.init_scores.len() != 1 {
        return Err(ModelError::InvalidLayout(LayoutError::ScalarNeedsOneClass));
    }
    if !is_finite(p.init_scores[0]) || !is_finite(p.learning_rate) {
        return Err(ModelError::InvalidLayout(LayoutError::NonFiniteScores));
    }
    validate_tree_features(&p.trees, p.table.num_features())?;
    let init = p.init_scores[0];
    assert(seq![init] =~= p.init_scores@);
    Ok(Booster::from_parts(loss, p.trees, p.table, init, p.learning_rate, p.encoding, p.cat_features))
}

/// Splits class-major flat trees into `n_classes` runs of `per_class` trees.
fn split_classes(trees: Vec<Tree>, n_classes: usize, per_class: usize) -> (out: Vec<Vec<Tree>>)
    requires
        trees@.len() == n_classes * per_class,
    ensures
        out@.len() == n_classes,
        forall|k: int|
            0 <= k < n_classes ==> #[trigger] class_trees_view(out@)[k] == trees_view(trees@).subrange(
                k * per_class,
                (k + 1) * per_class,
            ),
        class_trees_view(out@).flatten() == trees_view(trees@),
{
    let ghost flat = trees_view(trees@);
    let mut rest = trees;
    let mut rev: Vec<Vec<Tree>> = Vec::new();
    let mut k: usize = n_classes;
    while k > 0
        invariant
            k <= n_classes,
            rest@.len() == k * per_class,
            trees_view(rest@) == flat.subrange(0, k * per_class),
            flat.len() == n_classes * per_class,
            rev@.len() == n_classes - k,
            forall|j: int|
                0 <= j < n_classes - k ==> #[trigger] trees_view(rev@[j]@) == flat.subrange(
                    (n_classes - 1 - j) * per_class,
                    (n_classes - j) * per_class,
                ),
        decreases k,
    {
        k = k - 1;
        assert(k * per_class <= (k + 1) * per_class) by (nonlinear_arith);
        assert((k + 1) * per_class == k * per_class + per_class) by (nonlinear_arith);
        assert((k + 1) * per_class <= n_classes * per_class) by (nonlinear_arith)
            requires k + 1 <= n_classes;
        assert(0 <= k * per_class) by (nonlinear_arith);
        let ghost before = rest@;
        assert(trees_view(before) == flat.subrange(0, (k + 1) * per_class));
        let rest_len = rest.len();
        assert(k * per_class <= rest_len);
        let at = k * per_class;
        let chunk = rest.split_off(at);
        proof {
            assert(trees_view(chunk@) =~= flat.subrange(k * per_class, (k + 1) * per_class)) by {
                assert forall|i: int| 0 <= i < chunk@.len() implies trees_view(chunk@)[i]
                    == flat.subrange(k * per_class, (k + 1) * per_class)[i] by {
                    assert(chunk@.len() == per_class);
                    assert(chunk@[i] == before[k * per_class + i]);
                    assert(trees_view(chunk@)[i] == chunk@[i]@);
                    assert(k * per_class + i < (k + 1) * per_class);
                    assert(flat.subrange(k * per_class, (k + 1) * per_class)[i] == flat[k * per_class + i]);
                    assert(trees_view(before)[k * per_class + i] == flat.subrange(0, (k + 1) * per_class)[k * per_class + i]);
                }
            }
            assert(trees_view(rest@) =~= flat.subrange(0, k * per_class)) by {
                assert forall|i: int| 0 <= i < rest@.len() implies trees_view(rest@)[i]
                    == flat.subrange(0, k * per_class)[i] by {
                    assert(rest@[i] == before[i]);
                    assert(trees_view(before)[i] == flat[i]);
                }
            }
        }
        rev.push(chunk);
    }
    let mut out: Vec<Vec<Tree>> = Vec::new();
    proof {
        assert(class_trees_view(out@).flatten() =~= flat.subrange(0, 0));
    }
    while rev.len() > 0
        invariant
            rev@.len() + out@.len() == n_classes,
            flat.len() == n_classes * per_class,
            forall|j: int|
                0 <= j < rev@.len() ==> #[trigger] trees_view(rev@[j]@) == flat.subrange(
                    (n_classes - 1 - j) * per_class,
                    (n_classes - j) * per_class,
                ),
            forall|j: int|
                0 <= j < out@.len() ==> #[trigger] class_trees_view(out@)[j] == flat.subrange(
                    j * per_class,
                    (j + 1) * per_class,
                ),
            class_trees_view(out@).flatten() == flat.subrange(0, out@.len() * per_class),
        decreases rev@.len(),
    {
        let ghost j = out@.len();
        let chunk = rev.pop().unwrap();
        proof {
            assert(trees_view(chunk@) == flat.subrange(j * per_class, (j + 1) * per_class));
            assert(class_trees_view(out@.push(chunk)) =~= class_trees_view(out@).push(trees_view(chunk@)));
            class_trees_view(out@).lemma_flatten_push(trees_view(chunk@));
            assert(j * per_class <= (j + 1) * per_class) by (nonlinear_arith);
            assert((j + 1) * per_class <= n_classes * per_class) by (nonlinear_arith)
                requires j + 1 <= n_classes;
            assert(flat.subrange(0, j * per_class) + flat.subrange(j * per_class, (j + 1) * per_class)
                =~= flat.subrange(0, (j + 1) * per_class));
        }
        out.push(chunk);
    }
    assert(flat.subrange(0, n_classes * per_class) =~= flat);
    out
}

/// What deserializing `bytes` as a multiclass softmax model gives.
///
/// After the shared parse: the loss name `multiclass_softmax`, at least two
/// classes, a tree count that is a positive multiple of the class count
/// (class-major layout), finite initial scores and learning rate, no
/// categorical section, and split features within the table.
pub open spec fn deserialized_multiclass(bytes: Seq<u8>, res: Result<MulticlassBooster, ModelError>) -> bool {
    match spec_parse(bytes) {
        Err(e) => res matches Err(e2) && e2 == e,
        Ok(m) => if m.loss_name != multiclass_loss_name() {
            res matches Err(ModelError::LossMismatch { expected, found })
                && expected@ == multiclass_loss_name() && found@ == m.loss_name
        } else if m.init_scores.len() < 2 {
            res matches Err(e) && e == ModelError::InvalidLayout(LayoutError::MulticlassNeedsTwoClasses)
        } else if m.trees.len() % m.init_scores.len() != 0 || m.trees.len() / m.init_scores.len() == 0 {
            res matches Err(e) && e == ModelError::InvalidLayout(LayoutError::TreeCountNotMultiple)
        } else if !(all_finite(m.init_scores) && is_finite_bits(m.learning_rate)) {
            res matches Err(e) && e == ModelError::InvalidLayout(LayoutError::NonFiniteScores)
        } else if m.categorical is Some {
            res matches Err(e) && e == ModelError::InvalidLayout(LayoutError::MulticlassWithCategorical)
        } else if !splits_in_range(m.trees, m.boundaries.len()) {
            res matches Err(e) && e == ModelError::InvalidLayout(LayoutError::SplitFeatureOutOfRange)
        } else {
            let per = m.trees.len() / m.init_scores.len();
            &&& res matches Ok(b)
            &&& b.model_view() == m
            &&& b.spec_n_classes() == m.init_scores.len()
            &&& b.spec_class_trees().len() == m.init_scores.len()
            &&& forall|k: int| 0 <= k < m.init_scores.len() ==> #[trigger] b.spec_class_trees()[k]
                == m.trees.subrange(k * per, (k + 1) * per)
            &&& b.spec_best_iteration() == per
            &&& b.spec_eval_history() == Seq::<u64>::empty()
        },
    }
}

/// Deserializes a multiclass softmax model.
pub fn deserialize_multiclass(bytes: &[u8]) -> (res: Result<MulticlassBooster, ModelError>)
    ensures
        deserialized_multiclass(bytes@, res),
{
    let p = parse(bytes)?;
    let name = multiclass_loss_name_str();
    if !str_eq(p.loss_name.as_str(), name) {
        return Err(ModelError::LossMismatch { expected: name.to_owned(), found: p.loss_name });
    }
    let num_classes = p.init_scores.len();
    if num_classes < 2 {
        return Err(ModelError::InvalidLayout(LayoutError::MulticlassNeedsTwoClasses));
    }
    let per_class = p.trees.len() / num_classes;
    if p.trees.len() % num_classes != 0 || per_class == 0 {
        return Err(ModelError::InvalidLayout(LayoutError::TreeCountNotMultiple));
    }
    if !check_all_finite(&p.init_scores) || !is_finite(p.learning_rate) {
        return Err(ModelError::InvalidLayout(LayoutError::NonFiniteScores));
    }
    if p.encoding.is_some() {
        return Err(ModelError::InvalidLayout(LayoutError::MulticlassWithCategorical));
    }
    validate_tree_features(&p.trees, p.table.num_features())?;
    let total = p.trees.len();
    assert(total == num_classes * per_class) by (nonlinear_arith)
        requires
            total % num_classes == 0,
            per_class == total / num_classes,
            num_classes > 0;
    let trees = split_classes(p.trees, num_classes, per_class);
    proof {
        assert(per_class <= per_class * num_classes) by (nonlinear_arith)
            requires num_classes >= 1;
    }
    Ok(MulticlassBooster::from_parts(num_classes, trees, p.table, p.init_scores, p.learning_rate))
}

// -- writing ----------------------------------------------------------------------

/// Writes `u32`s.
fn write_u32_items(out: &mut Vec<u8>, s: &[u32])
    ensures
        final(out)@ == old(out)@ + ser_items(s@, enc_u32()),
{
    let ghost start = out@;
    let mut i: usize = 0;
    while i < s.len()
        invariant
            i <= s@.len(),
            out@ == start + ser_items(s@.subrange(0, i as int), enc_u32()),
        decreases s@.len() - i,
    {
        proof {
            lemma_ser_items_prefix(s@, i as int, enc_u32());
        }
        push_u32(out, s[i]);
        assert(out@ =~= start + ser_items(s@.subrange(0, i + 1), enc_u32()));
        i = i + 1;
    }
    assert(s@.subrange(0, i as int) =~= s@);
}

/// Writes `u64`s (`f64` bit patterns).
fn write_u64_items(out: &mut Vec<u8>, s: &[u64])
    ensures
        final(out)@ == old(out)@ + ser_items(s@, enc_u64()),
{
    let ghost start = out@;
    let mut i: usize = 0;
    while i < s.len()
        invariant
            i <= s@.len(),
            out@ == start + ser_items(s@.subrange(0, i as int), enc_u64()),
        decreases s@.len() - i,
    {
        proof {
            lemma_ser_items_prefix(s@, i as int, enc_u64());
        }
        push_u64(out, s[i]);
        assert(out@ =~= start + ser_items(s@.subrange(0, i + 1), enc_u64()));
        i = i + 1;
    }
    assert(s@.subrange(0, i as int) =~= s@);
}

/// Writes `i32`s.
fn write_i32_items(out: &mut Vec<u8>, s: &[i32])
    ensures
        final(out)@ == old(out)@ + ser_items(s@, enc_i32()),
{
    let ghost start = out@;
    let mut i: usize = 0;
    while i < s.len()
        invariant
            i <= s@.len(),
            out@ == start + ser_items(s@.subrange(0, i as int), enc_i32()),
        decreases s@.len() - i,
    {
        proof {
            lemma_ser_items_prefix(s@, i as int, enc_i32());
        }
        push_i32(out, s[i]);
        assert(out@ =~= start + ser_items(s@.subrange(0, i + 1), enc_i32()));
        i = i + 1;
    }
    assert(s@.subrange(0, i as int) =~= s@);
}

/// Writes booleans as bytes 0/1.
fn write_bool_items(out: &mut Vec<u8>, s: &[bool])
    ensures
        final(out)@ == old(out)@ + ser_items(s@, enc_bool()),
{
    let ghost start = out@;
    let mut i: usize = 0;
    while i < s.len()
        invariant
            i <= s@.len(),
            out@ == start + ser_items(s@.subrange(0, i as int), enc_bool()),
        decreases s@.len() - i,
    {
        proof {
            lemma_ser_items_prefix(s@, i as int, enc_bool());
        }
        push_u8(out, if s[i] { 1u8 } else { 0u8 });
        assert(out@ =~= start + ser_items(s@.subrange(0, i + 1), enc_bool()));
        i = i + 1;
    }
    assert(s@.subrange(0, i as int) =~= s@);
}

/// Writes one tree.
#[verifier::spinoff_prover]
#[verifier::rlimit(30)]
fn write_tree(out: &mut Vec<u8>, t: &Tree)
    ensures
        final(out)@ == old(out)@ + ser_tree(t@),
{
    let ghost start = out@;
    push_u32(out, t.num_nodes() as u32);
    write_u32_items(out, t.split_features());
    write_u64_items(out, t.thresholds());
    write_bool_items(out, t.missing_go_left());
    write_i32_items(out, t.left());
    write_i32_items(out, t.right());
    write_u64_items(out, t.leaf_values());
    write_u32_items(out, t.depths());
    write_u64_items(out, t.split_gains());
    write_u64_items(out, t.node_counts());
    assert(out@ =~= start + ser_tree(t@));
}

/// Writes a sequence of trees (without a count).
fn write_tree_items(out: &mut Vec<u8>, trees: &Vec<Tree>)
    ensures
        final(out)@ == old(out)@ + ser_items(trees_view(trees@), enc_tree()),
{
    let ghost start = out@;
    let ghost tv = trees_view(trees@);
    let mut i: usize = 0;
    while i < trees.len()
        invariant
            i <= trees@.len(),
            tv == trees_view(trees@),
            out@ == start + ser_items(tv.subrange(0, i as int), enc_tree()),
        decreases trees@.len() - i,
    {
        proof {
            lemma_ser_items_prefix(tv, i as int, enc_tree());
        }
        write_tree(out, &trees[i]);
        assert(out@ =~= start + ser_items(tv.subrange(0, i + 1), enc_tree()));
        i = i + 1;
    }
    assert(tv.subrange(0, i as int) =~= tv);
}

/// Writes the bin table.
fn write_table(out: &mut Vec<u8>, table: &BinTable)
    ensures
        final(out)@ == old(out)@ + ser_table(table@.max_bins, table@.boundaries),
{
    let ghost start = out@;
    let ghost bs = table@.boundaries;
    push_u32(out, table.max_bins() as u32);
    let nf = table.num_features();
    push_u32(out, nf as u32);
    let ghost mid = out@;
    let mut f: usize = 0;
    while f < nf
        invariant
            f <= nf,
            nf == bs.len(),
            bs == table@.boundaries,
            out@ == mid + ser_items(bs.subrange(0, f as int), enc_boundary()),
        decreases nf - f,
    {
        proof {
            lemma_ser_items_prefix(bs, f as int, enc_boundary());
        }
        let b = table.boundaries(f);
        push_u32(out, b.len() as u32);
        write_u64_items(out, b.as_slice());
        assert(out@ =~= mid + ser_items(bs.subrange(0, f + 1), enc_boundary()));
        f = f + 1;
    }
    assert(bs.subrange(0, f as int) =~= bs);
    assert(out@ =~= start + ser_table(table@.max_bins, table@.boundaries));
}

/// Writes one categorical feature's encoding.
fn write_encoding(out: &mut Vec<u8>, e: &FeatureEncoding)
    ensures
        final(out)@ == old(out)@ + enc_encoding()(e@),
{
    let ghost start = out@;
    let entries = e.entries();
    push_u32(out, entries.len() as u32);
    let ghost mid = out@;
    let mut i: usize = 0;
    while i < entries.len()
        invariant
            i <= entries@.len(),
            out@ == mid + ser_items(entries@.subrange(0, i as int), enc_entry()),
        decreases entries@.len() - i,
    {
        proof {
            lemma_ser_items_prefix(entries@, i as int, enc_entry());
        }
        let (k, v) = entries[i];
        push_u32(out, k);
        push_u64(out, v);
        assert(out@ =~= mid + ser_items(entries@.subrange(0, i + 1), enc_entry()));
        i = i + 1;
    }
    assert(entries@.subrange(0, i as int) =~= entries@);
    push_u64(out, e.prior());
    push_u64(out, e.alpha());
    assert(out@ =~= start + enc_encoding()(e@));
}

/// Writes the model header: magic, version, loss name, class count, initial
/// scores, learning rate.
fn write_header(out: &mut Vec<u8>, name: &str, init_scores: &[u64], learning_rate: u64)
    ensures
        final(out)@ == old(out)@ + magic_seq() + spec_u32_to_le_bytes(VERSION) + spec_u16_to_le_bytes(
            encode_utf8(name@).len() as u16,
        ) + encode_utf8(name@) + len32(init_scores@.len()) + ser_items(init_scores@, enc_u64())
            + spec_u64_to_le_bytes(learning_rate),
{
    let ghost start = out@;
    push_u8(out, MAGIC[0]);
    push_u8(out, MAGIC[1]);
    push_u8(out, MAGIC[2]);
    push_u8(out, MAGIC[3]);
    assert(out@ =~= start + magic_seq());
    push_u32(out, VERSION);
    let bytes = name.as_bytes();
    push_u16(out, bytes.len() as u16);
    push_bytes(out, bytes);
    push_u32(out, init_scores.len() as u32);
    write_u64_items(out, init_scores);
    push_f64_bits(out, learning_rate);
    assert(out@ =~= start + magic_seq() + spec_u32_to_le_bytes(VERSION) + spec_u16_to_le_bytes(
        encode_utf8(name@).len() as u16,
    ) + encode_utf8(name@) + len32(init_scores@.len()) + ser_items(init_scores@, enc_u64())
        + spec_u64_to_le_bytes(learning_rate));
}

/// Appends the empty metadata and the checksum of everything so far.
fn write_tail(out: &mut Vec<u8>)
    ensures
        final(out)@ == old(out)@ + len32(0) + spec_u64_to_le_bytes(fnv1a64_spec(old(out)@ + len32(0))),
{
    push_u32(out, 0);
    let checksum = fnv1a64(out.as_slice());
    push_u64(out, checksum);
}

/// Serializes a scalar-loss model.
pub fn serialize<L: Loss>(booster: &Booster<L>) -> (out: Vec<u8>)
    ensures
        out@ == ser_model(booster.model_view()),
{
    let ghost m = booster.model_view();
    let mut out: Vec<u8> = Vec::new();
    let mut init: Vec<u64> = Vec::new();
    init.push(booster.init_score());
    assert(init@ =~= m.init_scores);
    let name = booster.loss_name();
    write_header(&mut out, name, init.as_slice(), booster.learning_rate());
    let ghost after_header = out@;
    assert(name@ == m.loss_name);
    assert(after_header =~= magic_seq() + spec_u32_to_le_bytes(VERSION) + spec_u16_to_le_bytes(
        encode_utf8(m.loss_name).len() as u16,
    ) + encode_utf8(m.loss_name) + len32(m.init_scores.len()) + ser_items(m.init_scores, enc_u64())
        + spec_u64_to_le_bytes(m.learning_rate));
    let trees = booster.trees();
    push_u32(&mut out, trees.len() as u32);
    write_tree_items(&mut out, trees);
    let ghost after_trees = out@;
    assert(after_trees =~= after_header + len32(m.trees.len()) + ser_items(m.trees, enc_tree()));
    write_table(&mut out, booster.bin_table());
    let enc = booster.categorical_encoding();
    let ghost before_cat = out@;
    assert(before_cat =~= after_trees + ser_table(m.max_bins, m.boundaries));
    match enc {
        None => push_u8(&mut out, 0),
        Some(e) => {
            push_u8(&mut out, 1);
            let cat = booster.cat_features();
            push_u32(&mut out, cat.len() as u32);
            write_u32_items(&mut out, cat.as_slice());
            let ghost mid = out@;
            let ghost ev = e@;
            let n = e.num_features();
            let mut i: usize = 0;
            while i < n
                invariant
                    i <= n,
                    n == ev.len(),
                    ev == e@,
                    out@ == mid + ser_items(ev.subrange(0, i as int), enc_encoding()),
                decreases n - i,
            {
                proof {
                    lemma_ser_items_prefix(ev, i as int, enc_encoding());
                }
                write_encoding(&mut out, e.feature(i));
                assert(out@ =~= mid + ser_items(ev.subrange(0, i + 1), enc_encoding()));
                i = i + 1;
            }
            assert(ev.subrange(0, i as int) =~= ev);
        },
    }
    assert(out@ =~= before_cat + ser_categorical(m.categorical));
    let ghost body = out@ + len32(0);
    assert(body =~= ser_body(m));
    write_tail(&mut out);
    out
}

/// Serializes a multiclass model (trees class-major, no categorical section).
pub fn serialize_multiclass(booster: &MulticlassBooster) -> (out: Vec<u8>)
    ensures
        out@ == ser_model(booster.model_view()),
{
    let ghost m = booster.model_view();
    proof {
        booster.lemma_model_view_fixed_parts();
    }
    let mut out: Vec<u8> = Vec::new();
    let name = multiclass_loss_name_str();
    write_header(&mut out, name, booster.init_scores().as_slice(), booster.learning_rate());
    let ghost after_header = out@;
    assert(after_header =~= magic_seq() + spec_u32_to_le_bytes(VERSION) + spec_u16_to_le_bytes(
        encode_utf8(m.loss_name).len() as u16,
    ) + encode_utf8(m.loss_name) + len32(m.init_scores.len()) + ser_items(m.init_scores, enc_u64())
        + spec_u64_to_le_bytes(m.learning_rate));
    let classes = booster.class_trees();
    let ghost cv = class_trees_view(classes@);
    let total = booster.num_trees();
    push_u32(&mut out, total as u32);
    let ghost after_count = out@;
    let ghost mid = out@;
    let mut k: usize = 0;
    while k < classes.len()
        invariant
            k <= classes@.len(),
            cv == class_trees_view(classes@),
            out@ == mid + ser_items(cv.subrange(0, k as int).flatten(), enc_tree()),
        decreases classes@.len() - k,
    {
        proof {
            assert(cv.subrange(0, k + 1) =~= cv.subrange(0, k as int).push(cv[k as int]));
            cv.subrange(0, k as int).lemma_flatten_push(cv[k as int]);
            lemma_ser_items_concat(cv.subrange(0, k as int).flatten(), cv[k as int], enc_tree());
        }
        write_tree_items(&mut out, &classes[k]);
        assert(out@ =~= mid + ser_items(cv.subrange(0, k + 1).flatten(), enc_tree()));
        k = k + 1;
    }
    assert(cv.subrange(0, k as int) =~= cv);
    assert(out@ =~= after_header + len32(m.trees.len()) + ser_items(m.trees, enc_tree()));
    let ghost after_trees = out@;
    write_table(&mut out, booster.bin_table());
    assert(out@ =~= after_trees + ser_table(m.max_bins, m.boundaries));
    push_u8(&mut out, 0);
    let ghost body = out@ + len32(0);
    assert(body =~= ser_body(m));
    write_tail(&mut out);
    out
}

} // verus!
