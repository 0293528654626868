//! The structural side of level-wise tree growth: node buffers, row
//! partitioning by a split's bin, and assembling the tree.
//!
//! Which split a node takes (histograms, gains, leaf values) is
//! floating-point work done by the caller; here each level's decisions are
//! applied to the node list and the row order.

use vstd::prelude::*;
use crate::binning::{BinnedMatrix, BinnedMatrixView, MISSING_BIN};
use crate::tree::{child_of, children_follow, depths_follow, parent_before, single_parents, Tree, TreeView};
use crate::context::lemma_swap_multiset;
use vstd::arithmetic::power2::{lemma2_to64, lemma_pow2_unfold, pow2};
use crate::float_bits::{is_nan_bits, le, le_bits, lemma_lt_implies_le, lemma_lt_not_le, lemma_order_trans, lt, lt_bits};

verus! {

/// A node under construction.
#[derive(Debug, Clone, Copy)]
pub struct NodeBuf {
    /// The node's rows: `rows[range.0..range.1]`.
    pub range: (usize, usize),
    pub depth: usize,
    pub split_feature: Option<usize>,
    /// The split's bin: non-missing bins up to it go left.
    pub split_bin: u16,
    /// The split threshold (bits).
    pub threshold: u64,
    pub missing_go_left: bool,
    pub left: Option<usize>,
    pub right: Option<usize>,
    /// The leaf value (bits), once the node is a leaf.
    pub leaf_value: Option<u64>,
    /// The split gain (bits).
    pub gain: u64,
}

impl NodeBuf {
    /// A fresh node over `range` at `depth`: no split, no leaf value yet.
    pub fn new(range: (usize, usize), depth: usize) -> (nd: NodeBuf)
        ensures
            nd == fresh_node(range, depth),
    {
        NodeBuf {
            range,
            depth,
            split_feature: None,
            split_bin: 0,
            threshold: 0,
            missing_go_left: false,
            left: None,
            right: None,
            leaf_value: None,
            gain: 0,
        }
    }
}

pub open spec fn fresh_node(range: (usize, usize), depth: usize) -> NodeBuf {
    NodeBuf {
        range,
        depth,
        split_feature: None,
        split_bin: 0,
        threshold: 0,
        missing_go_left: false,
        left: None,
        right: None,
        leaf_value: None,
        gain: 0,
    }
}

// -- assembling the tree ------------------------------------------------------------

/// The tree arrays' entry for one node: split nodes carry their split, leaves
/// `-1` children; the leaf value defaults to 0; every node records its depth.
pub open spec fn tree_of(nodes: Seq<NodeBuf>, counts: Seq<u64>) -> TreeView {
    TreeView {
        split_features: nodes.map_values(
            |nd: NodeBuf|
                match nd.split_feature {
                    Some(f) => f as u32,
                    None => 0u32,
                },
        ),
        thresholds: nodes.map_values(
            |nd: NodeBuf|
                if nd.split_feature is Some {
                    nd.threshold
                } else {
                    0u64
                },
        ),
        missing_go_left: nodes.map_values(
            |nd: NodeBuf| nd.split_feature is Some && nd.missing_go_left,
        ),
        left: nodes.map_values(
            |nd: NodeBuf|
                if nd.split_feature is Some && nd.left is Some && nd.right is Some {
                    nd.left->0 as i32
                } else {
                    -1i32
                },
        ),
        right: nodes.map_values(
            |nd: NodeBuf|
                if nd.split_feature is Some && nd.left is Some && nd.right is Some {
                    nd.right->0 as i32
                } else {
                    -1i32
                },
        ),
        leaf_values: nodes.map_values(
            |nd: NodeBuf|
                match nd.leaf_value {
                    Some(v) => v,
                    None => 0u64,
                },
        ),
        depths: nodes.map_values(|nd: NodeBuf| nd.depth as u32),
        split_gains: nodes.map_values(|nd: NodeBuf| nd.gain),
        node_counts: counts,
    }
}

impl Tree {
    /// Lays the node buffers out as tree arrays; `node_counts` gives each
    /// node's cover count (bits).
    pub fn from_nodes(nodes: &Vec<NodeBuf>, node_counts: Vec<u64>) -> (t: Tree)
        requires
            node_counts@.len() == nodes@.len(),
        ensures
            t@ == tree_of(nodes@, node_counts@),
            t@.aligned(),
    {
        let len = nodes.len();
        let mut split_features: Vec<u32> = Vec::new();
        let mut thresholds: Vec<u64> = Vec::new();
        let mut missing_go_left: Vec<bool> = Vec::new();
        let mut left: Vec<i32> = Vec::new();
        let mut right: Vec<i32> = Vec::new();
        let mut leaf_values: Vec<u64> = Vec::new();
        let mut depths: Vec<u32> = Vec::new();
        let mut split_gains: Vec<u64> = Vec::new();
        let ghost tv = tree_of(nodes@, node_counts@);
        let mut i: usize = 0;
        while i < len
            invariant
                len == nodes@.len(),
                i <= len,
                tv == tree_of(nodes@, node_counts@),
                split_features@ == tv.split_features.subrange(0, i as int),
                thresholds@ == tv.thresholds.subrange(0, i as int),
                missing_go_left@ == tv.missing_go_left.subrange(0, i as int),
                left@ == tv.left.subrange(0, i as int),
                right@ == tv.right.subrange(0, i as int),
                leaf_values@ == tv.leaf_values.subrange(0, i as int),
                depths@ == tv.depths.subrange(0, i as int),
                split_gains@ == tv.split_gains.subrange(0, i as int),
            decreases len - i,
        {
            let nd = nodes[i];
            let mut sf: u32 = 0;
            let mut th: u64 = 0;
            let mut mg: bool = false;
            let mut l: i32 = -1;
            let mut r: i32 = -1;

            if let Some(f) = nd.split_feature {
                sf = f as u32;
                th = nd.threshold;
                mg = nd.missing_go_left;
                if let (Some(a), Some(b)) = (nd.left, nd.right) {
                    l = a as i32;
                    r = b as i32;
                }
            }
            let d = nd.depth as u32;
            let lv = match nd.leaf_value {
                Some(v) => v,
                None => 0,
            };
            split_features.push(sf);
            thresholds.push(th);
            missing_go_left.push(mg);
            left.push(l);
            right.push(r);
            leaf_values.push(lv);
            depths.push(d);
            split_gains.push(nd.gain);
            proof {
                assert(split_features@ =~= tv.split_features.subrange(0, i + 1));
                assert(thresholds@ =~= tv.thresholds.subrange(0, i + 1));
                assert(missing_go_left@ =~= tv.missing_go_left.subrange(0, i + 1));
                assert(left@ =~= tv.left.subrange(0, i + 1));
                assert(right@ =~= tv.right.subrange(0, i + 1));
                assert(leaf_values@ =~= tv.leaf_values.subrange(0, i + 1));
                assert(depths@ =~= tv.depths.subrange(0, i + 1));
                assert(split_gains@ =~= tv.split_gains.subrange(0, i + 1));
            }
            i = i + 1;
        }
        proof {
            assert(split_features@ =~= tv.split_features);
            assert(thresholds@ =~= tv.thresholds);
            assert(missing_go_left@ =~= tv.missing_go_left);
            assert(left@ =~= tv.left);
            assert(right@ =~= tv.right);
            assert(leaf_values@ =~= tv.leaf_values);
            assert(depths@ =~= tv.depths);
            assert(split_gains@ =~= tv.split_gains);
        }
        Tree::from_soa(
            split_features,
            thresholds,
            missing_go_left,
            left,
            right,
            leaf_values,
            depths,
            split_gains,
            node_counts,
        )
    }
}

// -- partitioning rows ---------------------------------------------------------------

/// Whether row `r` goes left at a split on `feature` at `bin`: a missing bin
/// follows `missing_go_left`, any other bin goes left when `<= bin`.
pub open spec fn goes_left(m: BinnedMatrixView, feature: int, bin: u16, missing_go_left: bool, r: int) -> bool {
    let b = m.bins[feature * m.num_rows + r];
    if b == MISSING_BIN {
        missing_go_left
    } else {
        b <= bin
    }
}

/// No value occurs twice.
pub open spec fn distinct(s: Seq<usize>) -> bool {
    forall|a: int, b: int| 0 <= a < s.len() && 0 <= b < s.len() && a != b ==> s[a] != s[b]
}

/// `new` holds in `s..e` only values that `old` held there, and agrees with
/// `old` elsewhere.
pub open spec fn rearranged_within(old: Seq<usize>, new: Seq<usize>, s: int, e: int) -> bool {
    &&& new.len() == old.len()
    &&& forall|k: int| 0 <= k < old.len() && !(s <= k < e) ==> new[k] == old[k]
    &&& forall|k: int| s <= k < e ==> old.subrange(s, e).contains(#[trigger] new[k])
    &&& (distinct(old) ==> distinct(new))
}

/// Partitions `rows[s..e]` in place: rows going left move to the front,
/// the others to the back; returns the boundary `m`.
pub fn partition_rows(
    rows: &mut Vec<usize>,
    s: usize,
    e: usize,
    matrix: &BinnedMatrix,
    feature: usize,
    bin: u16,
    missing_go_left: bool,
) -> (m: usize)
    requires
        s <= e <= old(rows)@.len(),
        feature < matrix@.num_features,
        forall|k: int| s <= k < e ==> #[trigger] old(rows)@[k] < matrix@.num_rows,
    ensures
        s <= m <= e,
        rearranged_within(old(rows)@, final(rows)@, s as int, e as int),
        final(rows)@.subrange(s as int, e as int).to_multiset() == old(rows)@.subrange(s as int, e as int).to_multiset(),
        forall|k: int| s <= k < m ==> goes_left(matrix@, feature as int, bin, missing_go_left, #[trigger] final(rows)@[k] as int),
        forall|k: int| m <= k < e ==> !goes_left(matrix@, feature as int, bin, missing_go_left, #[trigger] final(rows)@[k] as int),
{
    let ghost start = rows@;
    let ghost mv = matrix@;
    let mut i = s;
    let mut j = e;
    proof {
        assert forall|k: int| s <= k < e implies start.subrange(s as int, e as int).contains(#[trigger] rows@[k]) by {
            assert(start.subrange(s as int, e as int)[k - s] == rows@[k]);
        }
    }
    while i < j
        invariant
            s <= i <= j <= e,
            e <= rows@.len(),
            mv == matrix@,
            feature < mv.num_features,
            rearranged_within(start, rows@, s as int, e as int),
            rows@.subrange(s as int, e as int).to_multiset() == start.subrange(s as int, e as int).to_multiset(),
            forall|k: int| s <= k < e ==> #[trigger] start[k] < mv.num_rows,
            forall|k: int| s <= k < i ==> goes_left(mv, feature as int, bin, missing_go_left, #[trigger] rows@[k] as int),
            forall|k: int| j <= k < e ==> !goes_left(mv, feature as int, bin, missing_go_left, #[trigger] rows@[k] as int),
        decreases j - i,
    {
        let r = rows[i];
        proof {
            assert(start.subrange(s as int, e as int).contains(rows@[i as int]));
            let w = choose|w: int| 0 <= w < e - s && start.subrange(s as int, e as int)[w] == rows@[i as int];
            assert(start[s + w] < mv.num_rows);
            assert(feature * mv.num_rows + r < mv.num_features * mv.num_rows) by (nonlinear_arith)
                requires
                    feature < mv.num_features,
                    r < mv.num_rows,
            ;
        }
        let b = matrix.bin(feature, r);
        let left = if b == MISSING_BIN {
            missing_go_left
        } else {
            b <= bin
        };
        if left {
            i = i + 1;
        } else {
            j = j - 1;
            let ghost before = rows@;
            let x = rows[i];
            let y = rows[j];
            rows[i] = y;
            rows[j] = x;
            proof {
                let sub = before.subrange(s as int, e as int);
                lemma_swap_multiset(sub, i - s, j - s);
                assert(rows@.subrange(s as int, e as int) =~= sub.update(i - s, sub[j - s]).update(j - s, sub[i - s]));
                assert forall|k: int| s <= k < e implies start.subrange(s as int, e as int).contains(
                    #[trigger] rows@[k],
                ) by {
                    let src = if k == i {
                        j as int
                    } else if k == j {
                        i as int
                    } else {
                        k
                    };
                    assert(rows@[k] == before[src]);
                    assert(start.subrange(s as int, e as int).contains(before[src]));
                }
                if distinct(start) {
                    assert(distinct(before));
                    assert forall|a: int, c: int|
                        0 <= a < rows@.len() && 0 <= c < rows@.len() && a != c implies rows@[a] != rows@[c] by {
                        let sa = if a == i {
                            j as int
                        } else if a == j {
                            i as int
                        } else {
                            a
                        };
                        let sc = if c == i {
                            j as int
                        } else if c == j {
                            i as int
                        } else {
                            c
                        };
                        assert(rows@[a] == before[sa]);
                        assert(rows@[c] == before[sc]);
                    }
                }
            }
        }
    }
    i
}

// -- choosing among candidate splits ------------------------------------------------

/// A candidate split of one node (threshold and gain as `f64` bits).
#[derive(Debug, Clone, Copy, PartialEq, Eq, Structural)]
pub struct SplitCandidate {
    pub feature: usize,
    pub bin: u16,
    pub threshold: u64,
    pub gain: u64,
    pub missing_go_left: bool,
}

/// `x` is kept over `y`: its gain is larger, or the gains are equal and its
/// feature does not come after `y`'s.
pub open spec fn prefers(x: SplitCandidate, y: SplitCandidate) -> bool {
    lt_bits(y.gain, x.gain) || (le_bits(x.gain, y.gain) && le_bits(y.gain, x.gain) && x.feature <= y.feature)
}

/// The better of two optional candidates; a missing one never wins.
pub open spec fn better_of(a: Option<SplitCandidate>, b: Option<SplitCandidate>) -> Option<SplitCandidate> {
    match a {
        Some(x) => match b {
            Some(y) => if prefers(x, y) {
                Some(x)
            } else {
                Some(y)
            },
            None => Some(x),
        },
        None => b,
    }
}

/// The better of two candidates: the larger gain, ties going to the lower
/// feature index.
pub fn better_split(a: Option<SplitCandidate>, b: Option<SplitCandidate>) -> (r: Option<SplitCandidate>)
    ensures
        r == better_of(a, b),
{
    match (a, b) {
        (Some(x), Some(y)) => {
            let equal = le(x.gain, y.gain) && le(y.gain, x.gain);
            if lt(y.gain, x.gain) || (equal && x.feature <= y.feature) {
                Some(x)
            } else {
                Some(y)
            }
        },
        (Some(x), None) => Some(x),
        (None, b) => b,
    }
}

/// A candidate whose gain is a number (not NaN).
pub open spec fn gain_ok(c: Option<SplitCandidate>) -> bool {
    c matches Some(x) ==> !is_nan_bits(x.gain)
}

/// Two candidates on different features.
pub open spec fn apart(a: Option<SplitCandidate>, b: Option<SplitCandidate>) -> bool {
    a matches Some(x) && b matches Some(y) ==> x.feature != y.feature
}

/// Over non-NaN gains and distinct features, `prefers` is a strict total
/// order: exactly one of two candidates is preferred, and preference chains.
proof fn lemma_prefers_order(x: SplitCandidate, y: SplitCandidate, z: SplitCandidate)
    requires
        !is_nan_bits(x.gain),
        !is_nan_bits(y.gain),
        !is_nan_bits(z.gain),
        x.feature != y.feature,
    ensures
        prefers(x, y) != prefers(y, x),
        prefers(x, y) && prefers(y, z) ==> prefers(x, z),
{
    lemma_lt_not_le(x.gain, y.gain);
    lemma_lt_not_le(y.gain, x.gain);
    lemma_lt_not_le(y.gain, z.gain);
    lemma_lt_not_le(z.gain, y.gain);
    lemma_lt_not_le(x.gain, z.gain);
    lemma_lt_not_le(z.gain, x.gain);
    lemma_order_trans(x.gain, y.gain, z.gain);
    lemma_order_trans(z.gain, y.gain, x.gain);
    lemma_order_trans(y.gain, x.gain, z.gain);
    lemma_order_trans(z.gain, x.gain, y.gain);
    lemma_order_trans(x.gain, z.gain, y.gain);
    lemma_order_trans(y.gain, z.gain, x.gain);
    lemma_lt_implies_le(x.gain, y.gain);
    lemma_lt_implies_le(y.gain, x.gain);
    lemma_lt_implies_le(y.gain, z.gain);
    lemma_lt_implies_le(z.gain, y.gain);
}

/// Choosing between candidates on different features with numeric gains
/// does not depend on the order they are compared in.
pub proof fn law_better_split_commutes(a: Option<SplitCandidate>, b: Option<SplitCandidate>)
    requires
        gain_ok(a),
        gain_ok(b),
        apart(a, b),
    ensures
        better_of(a, b) == better_of(b, a),
{
    if let (Some(x), Some(y)) = (a, b) {
        lemma_prefers_order(x, y, y);
    }
}

/// Choosing among candidates on distinct features with numeric gains does
/// not depend on how the comparisons are grouped, so any merge order of
/// per-feature results gives the same split.
pub proof fn law_better_split_associates(a: Option<SplitCandidate>, b: Option<SplitCandidate>, c: Option<SplitCandidate>)
    requires
        gain_ok(a),
        gain_ok(b),
        gain_ok(c),
        apart(a, b),
        apart(b, c),
        apart(a, c),
    ensures
        better_of(better_of(a, b), c) == better_of(a, better_of(b, c)),
{
    if let (Some(x), Some(y), Some(z)) = (a, b, c) {
        lemma_prefers_order(x, y, z);
        lemma_prefers_order(y, z, x);
        lemma_prefers_order(x, z, y);
        lemma_prefers_order(y, x, z);
        lemma_prefers_order(z, y, x);
        lemma_prefers_order(z, x, y);
    }
}

/// The better candidate has at least the gain of either.
pub proof fn law_better_split_keeps_the_largest_gain(x: SplitCandidate, y: SplitCandidate)
    requires
        !is_nan_bits(x.gain),
        !is_nan_bits(y.gain),
    ensures
        better_of(Some(x), Some(y)) == Some(x) || better_of(Some(x), Some(y)) == Some(y),
        le_bits(x.gain, better_of(Some(x), Some(y))->0.gain),
        le_bits(y.gain, better_of(Some(x), Some(y))->0.gain),
{
    lemma_lt_not_le(x.gain, y.gain);
    lemma_lt_not_le(y.gain, x.gain);
    lemma_lt_implies_le(x.gain, y.gain);
    lemma_lt_implies_le(y.gain, x.gain);
}

// -- growing a tree level by level ----------------------------------------------------

/// Why a tree cannot be built.
#[derive(Debug, Clone, Copy, PartialEq, Eq, Structural)]
pub enum TreeError {
    /// Gradients or hessians do not have one entry per row.
    LengthMismatch { rows: usize, grad: usize, hess: usize },
    /// There are no rows.
    Empty,
}

/// The input checks of a tree build: no rows is `Empty`; otherwise the
/// gradients and hessians must have one entry per row.
pub fn check_build_inputs(rows: usize, grad_len: usize, hess_len: usize) -> (r: Result<(), TreeError>)
    ensures
        rows == 0 ==> r == Err::<(), TreeError>(TreeError::Empty),
        rows != 0 && (grad_len != rows || hess_len != rows) ==> r == Err::<(), TreeError>(
            TreeError::LengthMismatch { rows, grad: grad_len, hess: hess_len },
        ),
        rows != 0 && grad_len == rows && hess_len == rows ==> r is Ok,
{
    if rows == 0 {
        return Err(TreeError::Empty);
    }
    if grad_len != rows || hess_len != rows {
        return Err(TreeError::LengthMismatch { rows, grad: grad_len, hess: hess_len });
    }
    Ok(())
}

/// What the caller decided for one frontier node.
#[derive(Debug, Clone, Copy)]
pub enum NodeDecision {
    /// The node becomes a leaf with this value (bits).
    Leaf { value: u64 },
    /// The node splits: non-missing bins up to `bin` (and missing values when
    /// `missing_go_left`) go left.
    Split { feature: usize, bin: u16, threshold: u64, missing_go_left: bool, gain: u64 },
}

/// A node that is neither split nor a leaf yet.
pub open spec fn unresolved(nd: NodeBuf) -> bool {
    &&& nd.split_feature is None
    &&& nd.left is None
    &&& nd.right is None
    &&& nd.leaf_value is None
}

/// Node `i`'s range lies in `0..n`; a split node's children follow it, split
/// its range in two and sit one level deeper.
pub open spec fn node_shape_ok(nodes: Seq<NodeBuf>, i: int, n: nat) -> bool {
    let nd = nodes[i];
    &&& nd.range.0 <= nd.range.1 <= n
    &&& (nd.split_feature is Some <==> nd.left is Some)
    &&& (nd.left is Some <==> nd.right is Some)
    &&& (nd.left matches Some(l) ==> {
        &&& i < l
        &&& l + 1 < nodes.len()
        &&& nd.right == Some((l + 1) as usize)
        &&& nodes[l as int].range.0 == nd.range.0
        &&& nodes[l as int].range.1 == nodes[l + 1].range.0
        &&& nodes[l + 1].range.1 == nd.range.1
        &&& nodes[l as int].depth == nd.depth + 1
        &&& nodes[l + 1].depth == nd.depth + 1
    })
}

/// The number of splits among the first `a` decisions.
pub open spec fn splits_before(ds: Seq<NodeDecision>, a: int) -> nat
    decreases a,
{
    if a <= 0 {
        0
    } else {
        splits_before(ds, a - 1) + if ds[a - 1] is Split {
            1nat
        } else {
            0nat
        }
    }
}

/// A frontier node after its decision; a split's children are `l`, `l + 1`.
pub open spec fn decided(nd: NodeBuf, d: NodeDecision, l: int) -> NodeBuf {
    match d {
        NodeDecision::Leaf { value } => NodeBuf { leaf_value: Some(value), ..nd },
        NodeDecision::Split { feature, bin, threshold, missing_go_left, gain } => NodeBuf {
            split_feature: Some(feature),
            split_bin: bin,
            threshold,
            missing_go_left,
            left: Some(l as usize),
            right: Some((l + 1) as usize),
            gain,
            ..nd
        },
    }
}

/// The node list after deciding the first `a` frontier nodes (new children
/// not included); children are numbered from `base`.
pub open spec fn decide_prefix(nodes: Seq<NodeBuf>, level: Seq<usize>, ds: Seq<NodeDecision>, base: int, a: int) -> Seq<NodeBuf>
    decreases a,
{
    if a <= 0 {
        nodes
    } else {
        decide_prefix(nodes, level, ds, base, a - 1).update(
            level[a - 1] as int,
            decided(nodes[level[a - 1] as int], ds[a - 1], base + 2 * splits_before(ds, a - 1)),
        )
    }
}

/// Node `m` is one of the two children of `nd`.
pub open spec fn child_slot(nd: NodeBuf, m: int) -> bool {
    nd.left matches Some(l) && (l == m || l + 1 == m)
}

/// Node `m` is a child of an earlier node.
pub open spec fn has_parent(nodes: Seq<NodeBuf>, m: int) -> bool {
    exists|j: int| 0 <= j < m && #[trigger] child_slot(nodes[j], m)
}

/// How children are numbered: the node count is odd, every left child has
/// an odd index, no two nodes share a left child, and every node after the
/// root is a child of an earlier one.
#[verifier::opaque]
pub open spec fn lineage_ok(nodes: Seq<NodeBuf>) -> bool {
    &&& nodes.len() % 2 == 1
    &&& forall|i: int|
        0 <= i < nodes.len() ==> ((#[trigger] nodes[i]).left matches Some(l) ==> l % 2 == 1 && l + 1
            < nodes.len())
    &&& forall|i: int, j: int|
        0 <= i < nodes.len() && 0 <= j < nodes.len() && i != j && (#[trigger] nodes[i]).left is Some
            && (#[trigger] nodes[j]).left is Some ==> nodes[i].left != nodes[j].left
    &&& forall|m: int| 1 <= m < nodes.len() ==> #[trigger] has_parent(nodes, m)
}

/// Changing a node but not its left child keeps the numbering.
proof fn lemma_lineage_update(nodes: Seq<NodeBuf>, id: int, nd: NodeBuf)
    requires
        lineage_ok(nodes),
        0 <= id < nodes.len(),
        nd.left == nodes[id].left,
    ensures
        lineage_ok(nodes.update(id, nd)),
{
    reveal(lineage_ok);
    let s = nodes.update(id, nd);
    assert forall|m: int| 1 <= m < s.len() implies #[trigger] has_parent(s, m) by {
        assert(has_parent(nodes, m));
        let j = choose|j: int| 0 <= j < m && #[trigger] child_slot(nodes[j], m);
        assert(child_slot(s[j], m));
    }
}

/// Giving an unsplit node the next two indices as children keeps the
/// numbering.
proof fn lemma_lineage_split(nodes: Seq<NodeBuf>, id: int, c1: NodeBuf, c2: NodeBuf, nd: NodeBuf)
    requires
        lineage_ok(nodes),
        0 <= id < nodes.len(),
        nodes[id].left is None,
        c1.left is None,
        c2.left is None,
        nd.left == Some(nodes.len() as usize),
        nodes.len() < usize::MAX,
    ensures
        lineage_ok(nodes.push(c1).push(c2).update(id, nd)),
{
    reveal(lineage_ok);
    let n = nodes.len() as int;
    let s = nodes.push(c1).push(c2).update(id, nd);
    assert forall|i: int|
        0 <= i < s.len() implies ((#[trigger] s[i]).left matches Some(l) ==> l % 2 == 1 && l + 1 < s.len()) by {
        if i < n && i != id {
            assert(s[i] == nodes[i]);
        }
    }
    assert forall|i: int, j: int|
        0 <= i < s.len() && 0 <= j < s.len() && i != j && (#[trigger] s[i]).left is Some
            && (#[trigger] s[j]).left is Some implies s[i].left != s[j].left by {
        if i != id && j != id {
            assert(s[i] == nodes[i] && s[j] == nodes[j]);
        } else if i == id {
            assert(s[j] == nodes[j]);
        } else {
            assert(s[i] == nodes[i]);
        }
    }
    assert forall|m: int| 1 <= m < s.len() implies #[trigger] has_parent(s, m) by {
        if m < n {
            assert(has_parent(nodes, m));
            let j = choose|j: int| 0 <= j < m && #[trigger] child_slot(nodes[j], m);
            assert(j != id);
            assert(s[j] == nodes[j]);
            assert(child_slot(s[j], m));
        } else {
            assert(child_slot(s[id], m));
        }
    }
}

/// In the laid-out tree, being a child means taking a child slot.
proof fn lemma_child_of_slot(nodes: Seq<NodeBuf>, counts: Seq<u64>, n: nat, m: int, j: int)
    requires
        forall|i: int| 0 <= i < nodes.len() ==> #[trigger] node_shape_ok(nodes, i, n),
        nodes.len() <= i32::MAX,
        0 <= j < nodes.len(),
        0 <= m,
    ensures
        child_of(tree_of(nodes, counts), m, j) <==> child_slot(nodes[j], m),
{
    assert(node_shape_ok(nodes, j, n));
}

/// A tree laid out from a consistently numbered node list gives every node
/// after the root exactly one parent, and the root none.
proof fn lemma_single_parents(nodes: Seq<NodeBuf>, counts: Seq<u64>, n: nat)
    requires
        lineage_ok(nodes),
        forall|i: int| 0 <= i < nodes.len() ==> #[trigger] node_shape_ok(nodes, i, n),
        nodes.len() <= i32::MAX,
    ensures
        single_parents(tree_of(nodes, counts)),
{
    reveal(lineage_ok);
    let t = tree_of(nodes, counts);
    assert forall|j: int| 0 <= j < t.num_nodes() implies !#[trigger] child_of(t, 0, j) by {
        lemma_child_of_slot(nodes, counts, n, 0, j);
        assert(node_shape_ok(nodes, j, n));
    }
    assert forall|m: int| 1 <= m < t.num_nodes() implies #[trigger] parent_before(t, m) by {
        assert(has_parent(nodes, m));
        let j = choose|j: int| 0 <= j < m && #[trigger] child_slot(nodes[j], m);
        lemma_child_of_slot(nodes, counts, n, m, j);
    }
    assert forall|m: int, j1: int, j2: int|
        0 <= m < t.num_nodes() && 0 <= j1 < t.num_nodes() && 0 <= j2 < t.num_nodes()
            && #[trigger] child_of(t, m, j1) && #[trigger] child_of(t, m, j2) implies j1 == j2 by {
        lemma_child_of_slot(nodes, counts, n, m, j1);
        lemma_child_of_slot(nodes, counts, n, m, j2);
        if j1 != j2 {
            assert(nodes[j1].left != nodes[j2].left);
        }
    }
}

/// The state of a growing tree.
pub struct TreeGrowthView {
    pub rows: Seq<usize>,
    pub nodes: Seq<NodeBuf>,
    pub level: Seq<usize>,
    pub depth: nat,
}

/// The invariant of a growing tree: the rows are a permutation of `0..n`;
/// the root covers them all; every node is well shaped; the frontier lists
/// unresolved nodes at the current depth, in increasing order of index and of
/// row range.
pub open spec fn growth_wf(v: TreeGrowthView) -> bool {
    let n = v.rows.len();
    &&& forall|k: int| 0 <= k < n ==> #[trigger] v.rows[k] < n
    &&& distinct(v.rows)
    &&& v.nodes.len() >= 1
    &&& v.nodes[0].range == (0usize, n as usize)
    &&& v.nodes[0].depth == 0
    &&& forall|i: int| 0 <= i < v.nodes.len() ==> (#[trigger] v.nodes[i]).depth <= v.depth
    &&& forall|i: int| 0 <= i < v.nodes.len() ==> #[trigger] node_shape_ok(v.nodes, i, n)
    &&& forall|a: int|
        0 <= a < v.level.len() ==> {
            &&& (#[trigger] v.level[a]) < v.nodes.len()
            &&& unresolved(v.nodes[v.level[a] as int])
            &&& v.nodes[v.level[a] as int].depth == v.depth
        }
    &&& forall|a: int|
        0 <= a < v.level.len() - 1 ==> {
            &&& #[trigger] v.level[a] < v.level[a + 1]
            &&& v.nodes[v.level[a] as int].range.1 <= v.nodes[v.level[a + 1] as int].range.0
        }
}

/// Frontier ranges are ordered pairwise.
pub proof fn lemma_level_ordered(v: TreeGrowthView, a: int, b: int)
    requires
        growth_wf(v),
        0 <= a < b < v.level.len(),
    ensures
        v.level[a] < v.level[b],
        v.nodes[v.level[a] as int].range.1 <= v.nodes[v.level[b] as int].range.0,
    decreases b - a,
{
    assert(v.level[a] < v.level[a + 1]);
    if a + 1 < b {
        lemma_level_ordered(v, a + 1, b);
        assert(node_shape_ok(v.nodes, v.level[a + 1] as int, v.rows.len()));
    }
}

/// The rows of a split node's children are routed by its split.
pub open spec fn routed(rows: Seq<usize>, m: BinnedMatrixView, nodes: Seq<NodeBuf>, id: int) -> bool {
    let nd = nodes[id];
    nd.left matches Some(l) ==> {
        &&& forall|k: int|
            nodes[l as int].range.0 <= k < nodes[l as int].range.1 ==> goes_left(
                m,
                nd.split_feature->0 as int,
                nd.split_bin,
                nd.missing_go_left,
                #[trigger] rows[k] as int,
            )
        &&& forall|k: int|
            nodes[l + 1].range.0 <= k < nodes[l + 1].range.1 ==> !goes_left(
                m,
                nd.split_feature->0 as int,
                nd.split_bin,
                nd.missing_go_left,
                #[trigger] rows[k] as int,
            )
    }
}

/// The state of `apply_level` after deciding the first `a` frontier nodes.
#[verifier::opaque]
pub open spec fn loop_inv(
    old_v: TreeGrowthView,
    ds: Seq<NodeDecision>,
    mv: BinnedMatrixView,
    base: int,
    a: int,
    rows: Seq<usize>,
    nodes: Seq<NodeBuf>,
    next: Seq<usize>,
    last_end: int,
) -> bool {
    let n = old_v.rows.len();
    let level = old_v.level;
    let nl = level.len();
    &&& rows.len() == n
    &&& forall|k: int| 0 <= k < n ==> #[trigger] rows[k] < n
    &&& distinct(rows)
    &&& nodes.len() == base + 2 * splits_before(ds, a)
    &&& splits_before(ds, a) <= a
    &&& nodes.subrange(0, base) == decide_prefix(old_v.nodes, level, ds, base, a)
    &&& forall|i: int| 0 <= i < nodes.len() ==> #[trigger] node_shape_ok(nodes, i, n)
    &&& forall|i: int|
        0 <= i < base ==> (#[trigger] nodes[i]).range == old_v.nodes[i].range && nodes[i].depth
            == old_v.nodes[i].depth
    &&& forall|q: int| a <= q < nl ==> #[trigger] nodes[level[q] as int] == old_v.nodes[level[q] as int]
    &&& forall|b: int|
        base <= b < nodes.len() ==> unresolved(#[trigger] nodes[b]) && nodes[b].depth == old_v.depth
            + 1
    &&& next.len() == nodes.len() - base
    &&& forall|b: int| 0 <= b < next.len() ==> #[trigger] next[b] == base + b
    &&& forall|b: int|
        0 <= b < next.len() - 1 ==> #[trigger] nodes[next[b] as int].range.1 <= nodes[next[b + 1] as int].range.0
    &&& (next.len() > 0 ==> nodes[next.last() as int].range.1 == last_end)
    &&& 0 <= last_end
    &&& forall|q: int| a <= q < nl ==> last_end <= #[trigger] old_v.nodes[level[q] as int].range.0
    &&& forall|q: int| 0 <= q < a ==> routed(rows, mv, nodes, #[trigger] level[q] as int)
    &&& forall|q: int|
        0 <= q < a ==> ((#[trigger] nodes[level[q] as int]).range.1 <= last_end || nodes[level[q] as int].left
            is None)
}

proof fn lemma_loop_start(old_v: TreeGrowthView, ds: Seq<NodeDecision>, mv: BinnedMatrixView, base: int)
    requires
        growth_wf(old_v),
        base == old_v.nodes.len(),
    ensures
        loop_inv(old_v, ds, mv, base, 0, old_v.rows, old_v.nodes, Seq::empty(), 0),
{
    reveal(loop_inv);
    assert(old_v.nodes.subrange(0, base) =~= old_v.nodes);
    assert forall|q: int| 0 <= q < old_v.level.len() implies 0 <= #[trigger] old_v.nodes[old_v.level[q] as int].range.0 by {
    }
}

proof fn lemma_loop_pending(
    old_v: TreeGrowthView,
    ds: Seq<NodeDecision>,
    mv: BinnedMatrixView,
    base: int,
    a: int,
    rows: Seq<usize>,
    nodes: Seq<NodeBuf>,
    next: Seq<usize>,
    last_end: int,
)
    requires
        growth_wf(old_v),
        loop_inv(old_v, ds, mv, base, a, rows, nodes, next, last_end),
        0 <= a < old_v.level.len(),
        base == old_v.nodes.len(),
        base + 2 * old_v.level.len() <= usize::MAX,
    ensures
        old_v.level[a] < base,
        nodes[old_v.level[a] as int] == old_v.nodes[old_v.level[a] as int],
        unresolved(old_v.nodes[old_v.level[a] as int]),
        old_v.nodes[old_v.level[a] as int].depth == old_v.depth,
        old_v.nodes[old_v.level[a] as int].range.0 <= old_v.nodes[old_v.level[a] as int].range.1 <= rows.len(),
        forall|k: int|
            old_v.nodes[old_v.level[a] as int].range.0 <= k < old_v.nodes[old_v.level[a] as int].range.1
                ==> #[trigger] rows[k] < rows.len(),
        nodes.len() + 2 <= usize::MAX,
        nodes.len() == base + 2 * splits_before(ds, a),
        next.len() == nodes.len() - base,
        rows.len() == old_v.rows.len(),
{
    reveal(loop_inv);
    assert(node_shape_ok(old_v.nodes, old_v.level[a] as int, old_v.rows.len()));
}

#[verifier::spinoff_prover]
#[verifier::rlimit(100)]
proof fn lemma_loop_leaf(
    old_v: TreeGrowthView,
    ds: Seq<NodeDecision>,
    mv: BinnedMatrixView,
    base: int,
    a: int,
    rows: Seq<usize>,
    prev_nodes: Seq<NodeBuf>,
    next: Seq<usize>,
    last_end: int,
    nodes: Seq<NodeBuf>,
)
    requires
        growth_wf(old_v),
        loop_inv(old_v, ds, mv, base, a, rows, prev_nodes, next, last_end),
        0 <= a < old_v.level.len(),
        ds.len() == old_v.level.len(),
        base == old_v.nodes.len(),
        ds[a] is Leaf,
        nodes == prev_nodes.update(
            old_v.level[a] as int,
            decided(old_v.nodes[old_v.level[a] as int], ds[a], base + 2 * splits_before(ds, a)),
        ),
    ensures
        loop_inv(old_v, ds, mv, base, a + 1, rows, nodes, next, last_end),
{
    reveal(loop_inv);
    let n = old_v.rows.len();
    let level = old_v.level;
    let id = level[a] as int;
    let nd = old_v.nodes[id];
    assert(unresolved(nd));
    assert(prev_nodes[id] == nd);
    assert(id < base);
    assert(splits_before(ds, a + 1) == splits_before(ds, a));
    assert(nodes.subrange(0, base) =~= decide_prefix(old_v.nodes, level, ds, base, a + 1));
    assert(nodes[id].range == nd.range && nodes[id].depth == nd.depth);
    assert(nodes[id].left is None && nodes[id].split_feature is None && nodes[id].right is None);
    assert forall|i: int| 0 <= i < nodes.len() implies #[trigger] node_shape_ok(nodes, i, n) by {
        assert(node_shape_ok(prev_nodes, i, n));
        if i != id {
            assert(nodes[i] == prev_nodes[i]);
        }
    }
    assert forall|i: int| 0 <= i < base implies (#[trigger] nodes[i]).range == old_v.nodes[i].range
        && nodes[i].depth == old_v.nodes[i].depth by {
        if i != id {
            assert(nodes[i] == prev_nodes[i]);
        }
    }
    assert forall|q: int| a + 1 <= q < level.len() implies #[trigger] nodes[level[q] as int]
        == old_v.nodes[level[q] as int] by {
        lemma_level_ordered(old_v, a, q);
    }
    assert forall|b: int| base <= b < nodes.len() implies unresolved(#[trigger] nodes[b]) && nodes[b].depth
        == old_v.depth + 1 by {
        assert(nodes[b] == prev_nodes[b]);
    }
    assert forall|b: int| 0 <= b < next.len() - 1 implies #[trigger] nodes[next[b] as int].range.1
        <= nodes[next[b + 1] as int].range.0 by {
        assert(prev_nodes[next[b] as int].range.1 <= prev_nodes[next[b + 1] as int].range.0);
        assert(nodes[next[b] as int] == prev_nodes[next[b] as int]);
        assert(nodes[next[b + 1] as int] == prev_nodes[next[b + 1] as int]);
    }
    if next.len() > 0 {
        assert(nodes[next.last() as int] == prev_nodes[next.last() as int]);
    }
    assert forall|q: int| 0 <= q < a + 1 implies routed(rows, mv, nodes, #[trigger] level[q] as int) by {
        if q < a {
            lemma_level_ordered(old_v, q, a);
            let iq = level[q] as int;
            assert(routed(rows, mv, prev_nodes, iq));
            assert(nodes[iq] == prev_nodes[iq]);
            assert(node_shape_ok(prev_nodes, iq, n));
            if let Some(lq) = prev_nodes[iq].left {
                if lq as int != id {
                    assert(nodes[lq as int] == prev_nodes[lq as int]);
                }
                if lq + 1 != id {
                    assert(nodes[lq + 1] == prev_nodes[lq + 1]);
                }
            }
        }
    }
    assert forall|q: int| 0 <= q < a + 1 implies ((#[trigger] nodes[level[q] as int]).range.1 <= last_end
        || nodes[level[q] as int].left is None) by {
        if q < a {
            lemma_level_ordered(old_v, q, a);
            assert(nodes[level[q] as int] == prev_nodes[level[q] as int]);
        }
    }
}

#[verifier::spinoff_prover]
#[verifier::rlimit(100)]
proof fn lemma_loop_split(
    old_v: TreeGrowthView,
    ds: Seq<NodeDecision>,
    mv: BinnedMatrixView,
    base: int,
    a: int,
    prev_rows: Seq<usize>,
    prev_nodes: Seq<NodeBuf>,
    prev_next: Seq<usize>,
    prev_end: int,
    rows: Seq<usize>,
    nodes: Seq<NodeBuf>,
    next: Seq<usize>,
    m: int,
)
    requires
        growth_wf(old_v),
        loop_inv(old_v, ds, mv, base, a, prev_rows, prev_nodes, prev_next, prev_end),
        0 <= a < old_v.level.len(),
        ds.len() == old_v.level.len(),
        base == old_v.nodes.len(),
        old_v.depth < usize::MAX,
        prev_nodes.len() + 2 <= usize::MAX,
        ds[a] is Split,
        old_v.nodes[old_v.level[a] as int].range.0 <= m <= old_v.nodes[old_v.level[a] as int].range.1,
        rearranged_within(
            prev_rows,
            rows,
            old_v.nodes[old_v.level[a] as int].range.0 as int,
            old_v.nodes[old_v.level[a] as int].range.1 as int,
        ),
        forall|k: int|
            old_v.nodes[old_v.level[a] as int].range.0 <= k < m ==> goes_left(
                mv,
                ds[a]->feature as int,
                ds[a]->bin,
                ds[a]->missing_go_left,
                #[trigger] rows[k] as int,
            ),
        forall|k: int|
            m <= k < old_v.nodes[old_v.level[a] as int].range.1 ==> !goes_left(
                mv,
                ds[a]->feature as int,
                ds[a]->bin,
                ds[a]->missing_go_left,
                #[trigger] rows[k] as int,
            ),
        nodes == prev_nodes.push(
            fresh_node(
                (old_v.nodes[old_v.level[a] as int].range.0, m as usize),
                (old_v.nodes[old_v.level[a] as int].depth + 1) as usize,
            ),
        ).push(
            fresh_node(
                (m as usize, old_v.nodes[old_v.level[a] as int].range.1),
                (old_v.nodes[old_v.level[a] as int].depth + 1) as usize,
            ),
        ).update(
            old_v.level[a] as int,
            decided(old_v.nodes[old_v.level[a] as int], ds[a], prev_nodes.len() as int),
        ),
        next == prev_next.push(prev_nodes.len() as usize).push((prev_nodes.len() + 1) as usize),
    ensures
        loop_inv(
            old_v,
            ds,
            mv,
            base,
            a + 1,
            rows,
            nodes,
            next,
            old_v.nodes[old_v.level[a] as int].range.1 as int,
        ),
{
    reveal(loop_inv);
    let n = old_v.rows.len();
    let level = old_v.level;
    let id = level[a] as int;
    let nd = old_v.nodes[id];
    let s = nd.range.0 as int;
    let e = nd.range.1 as int;
    let l = prev_nodes.len() as int;
    assert(node_shape_ok(old_v.nodes, id, n));
    assert(unresolved(nd));
    assert(nd.depth == old_v.depth);
    assert(prev_nodes[id] == nd);
    assert(id < base <= l);
    // rows
    assert forall|k: int| 0 <= k < n implies #[trigger] rows[k] < n by {
        if s <= k < e {
            assert(prev_rows.subrange(s, e).contains(rows[k]));
        } else {
            assert(rows[k] == prev_rows[k]);
        }
    }
    // node list prefix
    assert(splits_before(ds, a + 1) == splits_before(ds, a) + 1);
    assert(nodes.subrange(0, base) =~= decide_prefix(old_v.nodes, level, ds, base, a + 1));
    // shapes
    assert(nodes[id].range == nd.range && nodes[id].depth == nd.depth);
    assert forall|i: int| 0 <= i < nodes.len() implies #[trigger] node_shape_ok(nodes, i, n) by {
        if i < l && i != id {
            assert(node_shape_ok(prev_nodes, i, n));
            assert(nodes[i] == prev_nodes[i]);
        }
    }
    assert forall|i: int| 0 <= i < base implies (#[trigger] nodes[i]).range == old_v.nodes[i].range
        && nodes[i].depth == old_v.nodes[i].depth by {
        if i != id {
            assert(nodes[i] == prev_nodes[i]);
        }
    }
    assert forall|q: int| a + 1 <= q < level.len() implies #[trigger] nodes[level[q] as int]
        == old_v.nodes[level[q] as int] by {
        lemma_level_ordered(old_v, a, q);
    }
    assert forall|b: int| base <= b < nodes.len() implies unresolved(#[trigger] nodes[b]) && nodes[b].depth
        == old_v.depth + 1 by {
        if b < l {
            assert(nodes[b] == prev_nodes[b]);
        }
    }
    // next frontier
    assert forall|b: int| 0 <= b < next.len() implies #[trigger] next[b] == base + b by {
        if b < prev_next.len() {
            assert(next[b] == prev_next[b]);
        }
    }
    assert forall|b: int| 0 <= b < next.len() - 1 implies #[trigger] nodes[next[b] as int].range.1
        <= nodes[next[b + 1] as int].range.0 by {
        if b + 1 < prev_next.len() {
            assert(prev_nodes[prev_next[b] as int].range.1 <= prev_nodes[prev_next[b + 1] as int].range.0);
        } else if b + 1 == prev_next.len() {
            assert(prev_nodes[prev_next.last() as int].range.1 == prev_end);
        }
    }
    assert forall|q: int| a + 1 <= q < level.len() implies e <= #[trigger] old_v.nodes[level[q] as int].range.0 by {
        lemma_level_ordered(old_v, a, q);
    }
    // routing
    assert forall|q: int| 0 <= q < a + 1 implies routed(rows, mv, nodes, #[trigger] level[q] as int) by {
        if q < a {
            lemma_level_ordered(old_v, q, a);
            let iq = level[q] as int;
            assert(routed(prev_rows, mv, prev_nodes, iq));
            assert(nodes[iq] == prev_nodes[iq]);
            if let Some(lq) = prev_nodes[iq].left {
                assert(prev_nodes[iq].range.1 <= prev_end);
                assert(node_shape_ok(prev_nodes, iq, n));
                assert(node_shape_ok(prev_nodes, lq as int, n));
                assert(node_shape_ok(prev_nodes, lq + 1, n));
                assert(nodes[lq as int].range == prev_nodes[lq as int].range);
                assert(nodes[lq + 1].range == prev_nodes[lq + 1].range);
                assert forall|k: int| prev_nodes[lq as int].range.0 <= k < prev_nodes[lq + 1].range.1 implies rows[k]
                    == prev_rows[k] by {
                }
            }
        }
    }
    assert forall|q: int| 0 <= q < a + 1 implies ((#[trigger] nodes[level[q] as int]).range.1 <= e
        || nodes[level[q] as int].left is None) by {
        if q < a {
            lemma_level_ordered(old_v, q, a);
            assert(nodes[level[q] as int] == prev_nodes[level[q] as int]);
        }
    }
}

proof fn lemma_loop_end(
    old_v: TreeGrowthView,
    ds: Seq<NodeDecision>,
    mv: BinnedMatrixView,
    base: int,
    rows: Seq<usize>,
    nodes: Seq<NodeBuf>,
    next: Seq<usize>,
    last_end: int,
)
    requires
        growth_wf(old_v),
        loop_inv(old_v, ds, mv, base, old_v.level.len() as int, rows, nodes, next, last_end),
        base == old_v.nodes.len(),
        old_v.depth < usize::MAX,
    ensures
        growth_wf(TreeGrowthView { rows, nodes, level: next, depth: old_v.depth + 1 }),
        rows.len() == old_v.rows.len(),
        nodes.len() == base + 2 * splits_before(ds, old_v.level.len() as int),
        nodes.subrange(0, base) == decide_prefix(old_v.nodes, old_v.level, ds, base, old_v.level.len() as int),
        forall|b: int| base <= b < nodes.len() ==> unresolved(#[trigger] nodes[b]),
        next.len() == nodes.len() - base,
        forall|b: int| 0 <= b < next.len() ==> #[trigger] next[b] == base + b,
        forall|q: int| 0 <= q < old_v.level.len() ==> routed(rows, mv, nodes, #[trigger] old_v.level[q] as int),
{
    reveal(loop_inv);
    let v = TreeGrowthView { rows, nodes, level: next, depth: old_v.depth + 1 };
    assert(nodes[0].range == old_v.nodes[0].range);
    assert forall|b: int| 0 <= b < next.len() implies (#[trigger] next[b]) < nodes.len() && unresolved(
        nodes[next[b] as int],
    ) && nodes[next[b] as int].depth == v.depth by {
    }
    assert forall|b: int| 0 <= b < next.len() - 1 implies #[trigger] next[b] < next[b + 1]
        && nodes[next[b] as int].range.1 <= nodes[next[b + 1] as int].range.0 by {
    }
}

/// A tree grown `depth` levels has at most `2^depth` frontier nodes and at
/// most `2^(depth + 1) - 1` nodes.
pub open spec fn size_bounded(v: TreeGrowthView) -> bool {
    &&& v.level.len() <= pow2(v.depth)
    &&& v.nodes.len() + 1 <= 2 * pow2(v.depth)
}

/// At most one split per decision.
proof fn lemma_splits_at_most(ds: Seq<NodeDecision>, a: int)
    requires
        0 <= a <= ds.len(),
    ensures
        splits_before(ds, a) <= a,
    decreases a,
{
    if a > 0 {
        lemma_splits_at_most(ds, a - 1);
    }
}

/// A tree being grown level by level over `n` rows.
#[derive(Debug)]
pub struct TreeGrowth {
    rows: Vec<usize>,
    nodes: Vec<NodeBuf>,
    level: Vec<usize>,
    depth: usize,
}

impl View for TreeGrowth {
    type V = TreeGrowthView;

    closed spec fn view(&self) -> TreeGrowthView {
        TreeGrowthView {
            rows: self.rows@,
            nodes: self.nodes@,
            level: self.level@,
            depth: self.depth as nat,
        }
    }
}

impl TreeGrowth {
    #[verifier::type_invariant]
    spec fn inv(self) -> bool {
        growth_wf(self@) && lineage_ok(self@.nodes) && size_bounded(self@)
    }

    /// A root over rows `0..num_rows`, at depth 0, as the only frontier node.
    pub fn new(num_rows: usize) -> (g: TreeGrowth)
        ensures
            g@.rows == Seq::new(num_rows as nat, |k: int| k as usize),
            g@.nodes == seq![fresh_node((0usize, num_rows), 0usize)],
            g@.level == seq![0usize],
            g@.depth == 0,
    {
        let mut rows: Vec<usize> = Vec::new();
        let mut k: usize = 0;
        while k < num_rows
            invariant
                k <= num_rows,
                rows@ == Seq::new(k as nat, |q: int| q as usize),
            decreases num_rows - k,
        {
            rows.push(k);
            assert(rows@ =~= Seq::new((k + 1) as nat, |q: int| q as usize));
            k = k + 1;
        }
        let mut nodes: Vec<NodeBuf> = Vec::new();
        nodes.push(NodeBuf::new((0, num_rows), 0));
        let mut level: Vec<usize> = Vec::new();
        level.push(0);
        proof {
            reveal(lineage_ok);
            lemma2_to64();
            assert(nodes@ =~= seq![fresh_node((0usize, num_rows), 0usize)]);
        }
        let g = TreeGrowth { rows, nodes, level, depth: 0 };
        assert(g@.nodes =~= seq![fresh_node((0usize, num_rows), 0usize)]);
        assert(g@.level =~= seq![0usize]);
        g
    }

    /// The frontier node ids.
    pub fn level(&self) -> (l: &Vec<usize>)
        ensures
            l@ == self@.level,
    {
        &self.level
    }

    /// The current depth.
    pub fn depth(&self) -> (d: usize)
        ensures
            d == self@.depth,
    {
        self.depth
    }

    /// The row order; each node's rows are `rows[range.0..range.1]`.
    pub fn rows(&self) -> (r: &Vec<usize>)
        ensures
            r@ == self@.rows,
    {
        &self.rows
    }

    /// The node list.
    pub fn nodes(&self) -> (n: &Vec<NodeBuf>)
        ensures
            n@ == self@.nodes,
    {
        &self.nodes
    }

    /// Applies one decision per frontier node, in frontier order: a leaf
    /// takes its value; a split partitions its rows (left first), appends
    /// its two children, and the children form the next frontier.
    #[verifier::spinoff_prover]
    #[verifier::rlimit(100)]
    pub fn apply_level(self, matrix: &BinnedMatrix, decisions: &Vec<NodeDecision>) -> (g: TreeGrowth)
        requires
            decisions@.len() == self@.level.len(),
            matrix@.num_rows == self@.rows.len(),
            forall|a: int|
                0 <= a < decisions@.len() ==> (#[trigger] decisions@[a] matches NodeDecision::Split {
                    feature,
                    ..
                } ==> feature < matrix@.num_features),
            self@.nodes.len() + 2 * self@.level.len() <= usize::MAX,
            self@.depth < usize::MAX,
        ensures
            g@.depth == self@.depth + 1,
            g@.rows.len() == self@.rows.len(),
            g@.nodes.len() == self@.nodes.len() + 2 * splits_before(decisions@, decisions@.len() as int),
            g@.nodes.subrange(0, self@.nodes.len() as int) == decide_prefix(
                self@.nodes,
                self@.level,
                decisions@,
                self@.nodes.len() as int,
                decisions@.len() as int,
            ),
            forall|b: int| self@.nodes.len() <= b < g@.nodes.len() ==> unresolved(#[trigger] g@.nodes[b]),
            g@.level.len() == g@.nodes.len() - self@.nodes.len(),
            forall|b: int| 0 <= b < g@.level.len() ==> #[trigger] g@.level[b] == self@.nodes.len() + b,
            forall|a: int| 0 <= a < self@.level.len() ==> routed(g@.rows, matrix@, g@.nodes, #[trigger] self@.level[a] as int),
    {
        proof {
            use_type_invariant(&self);
        }
        let ghost old_v = self@;
        let ghost ds = decisions@;
        let ghost mv = matrix@;
        let TreeGrowth { mut rows, mut nodes, level, depth } = self;
        let ghost n = rows@.len();
        let ghost base = nodes@.len() as int;
        let mut next_level: Vec<usize> = Vec::new();
        let nl = level.len();
        let mut a: usize = 0;
        let ghost mut last_end: int = 0;
        proof {
            lemma_loop_start(old_v, ds, mv, base);
            assert(nodes@.subrange(0, base) =~= nodes@);
        }
        while a < nl
            invariant
                growth_wf(old_v),
                old_v.level == level@,
                old_v.depth == depth,
                old_v.rows.len() == n,
                old_v.nodes.len() == base,
                ds == decisions@,
                mv == matrix@,
                mv.num_rows == n,
                nl == level@.len(),
                ds.len() == nl,
                forall|q: int|
                    0 <= q < ds.len() ==> (#[trigger] ds[q] matches NodeDecision::Split { feature, .. }
                        ==> feature < mv.num_features),
                base + 2 * nl <= usize::MAX,
                depth < usize::MAX,
                a <= nl,
                loop_inv(old_v, ds, mv, base, a as int, rows@, nodes@, next_level@, last_end),
                lineage_ok(nodes@),
            decreases nl - a,
        {
            let id = level[a];
            proof {
                lemma_loop_pending(old_v, ds, mv, base, a as int, rows@, nodes@, next_level@, last_end);
            }
            let nd = nodes[id];
            let s = nd.range.0;
            let e = nd.range.1;
            let ghost prev_nodes = nodes@;
            let ghost prev_rows = rows@;
            let ghost prev_next = next_level@;
            let ghost prev_end = last_end;
            let d = decisions[a];
            match d {
                NodeDecision::Leaf { value } => {
                    let upd = NodeBuf { leaf_value: Some(value), ..nd };
                    nodes.set(id, upd);
                    proof {
                        lemma_lineage_update(prev_nodes, id as int, upd);
                        lemma_loop_leaf(old_v, ds, mv, base, a as int, prev_rows, prev_nodes, prev_next, prev_end, nodes@);
                    }
                },
                NodeDecision::Split { feature, bin, threshold, missing_go_left, gain } => {
                    let m = partition_rows(&mut rows, s, e, matrix, feature, bin, missing_go_left);
                    let left_id = nodes.len();
                    let right_id = left_id + 1;
                    nodes.push(NodeBuf::new((s, m), nd.depth + 1));
                    nodes.push(NodeBuf::new((m, e), nd.depth + 1));
                    let upd = NodeBuf {
                        split_feature: Some(feature),
                        split_bin: bin,
                        threshold,
                        missing_go_left,
                        left: Some(left_id),
                        right: Some(right_id),
                        gain,
                        ..nd
                    };
                    nodes.set(id, upd);
                    next_level.push(left_id);
                    next_level.push(right_id);
                    proof {
                        lemma_lineage_split(prev_nodes, id as int, fresh_node((s, m), (nd.depth + 1) as usize), fresh_node((m, e), (nd.depth + 1) as usize), upd);
                        lemma_loop_split(
                            old_v,
                            ds,
                            mv,
                            base,
                            a as int,
                            prev_rows,
                            prev_nodes,
                            prev_next,
                            prev_end,
                            rows@,
                            nodes@,
                            next_level@,
                            m as int,
                        );
                        last_end = e as int;
                    }
                },
            }
            a = a + 1;
        }
        proof {
            lemma_loop_end(old_v, ds, mv, base, rows@, nodes@, next_level@, last_end);
            lemma_splits_at_most(ds, nl as int);
            lemma_pow2_unfold((depth + 1) as nat);
        }
        TreeGrowth { rows, nodes, level: next_level, depth: depth + 1 }
    }

    /// Makes every frontier node a leaf with the given values (bits), then
    /// lays the tree out; `node_counts` gives each node's cover count (bits).
    /// The tree is rooted at node 0: each split node's children are two
    /// consecutive later indices, each node after the root has exactly one
    /// parent, each child sits one level below its parent, no node is
    /// deeper than the levels grown, and `d` levels give at most
    /// `2^(d + 1) - 1` nodes.
    pub fn finish(self, leaf_values: &Vec<u64>, node_counts: Vec<u64>) -> (t: Tree)
        requires
            leaf_values@.len() == self@.level.len(),
            node_counts@.len() == self@.nodes.len(),
        ensures
            t@ == tree_of(with_leaves(self@.nodes, self@.level, leaf_values@, self@.level.len() as int), node_counts@),
            self@.nodes.len() <= i32::MAX ==> children_follow(t@) && single_parents(t@),
            self@.nodes.len() <= i32::MAX && self@.depth <= u32::MAX ==> depths_follow(t@),
            self@.depth <= u32::MAX ==> forall|i: int| 0 <= i < t@.num_nodes() ==> #[trigger] t@.depths[i] <= self@.depth,
            t@.num_nodes() + 1 <= 2 * pow2(self@.depth),
    {
        proof {
            use_type_invariant(&self);
        }
        let ghost v = self@;
        let TreeGrowth { rows, mut nodes, level, depth } = self;
        let ghost n = rows@.len();
        let mut a: usize = 0;
        while a < level.len()
            invariant
                growth_wf(v),
                v.nodes.len() == nodes@.len(),
                v.level == level@,
                n == v.rows.len(),
                leaf_values@.len() == level@.len(),
                a <= level@.len(),
                nodes@ == with_leaves(v.nodes, level@, leaf_values@, a as int),
                forall|i: int| 0 <= i < nodes@.len() ==> #[trigger] node_shape_ok(nodes@, i, n),
                lineage_ok(nodes@),
            decreases level@.len() - a,
        {
            let id = level[a];
            let ghost prev = nodes@;
            let nd = nodes[id];
            let upd = NodeBuf { leaf_value: Some(leaf_values[a]), ..nd };
            nodes.set(id, upd);
            proof {
                lemma_lineage_update(prev, id as int, upd);
                assert forall|i: int| 0 <= i < nodes@.len() implies #[trigger] node_shape_ok(nodes@, i, n) by {
                    assert(node_shape_ok(prev, i, n));
                    if i != id {
                        assert(nodes@[i] == prev[i]);
                    }
                }
            }
            a = a + 1;
        }
        let t = Tree::from_nodes(&nodes, node_counts);
        proof {
            if v.depth <= u32::MAX {
                lemma_with_leaves_depths(v.nodes, level@, leaf_values@, a as int);
                assert forall|i: int| 0 <= i < t@.num_nodes() implies #[trigger] t@.depths[i] <= v.depth by {
                    assert(nodes@[i].depth == v.nodes[i].depth);
                }
            }
            if v.nodes.len() <= i32::MAX {
                lemma_single_parents(nodes@, node_counts@, n);
                let tv = t@;
                assert forall|i: int| 0 <= i < tv.num_nodes() implies (#[trigger] tv.left[i] == -1 && tv.right[i]
                    == -1) || (i < tv.left[i] && tv.right[i] == tv.left[i] + 1 && tv.right[i] < tv.num_nodes()) by {
                    assert(node_shape_ok(nodes@, i, n));
                }
                if v.depth <= u32::MAX {
                    lemma_with_leaves_depths(v.nodes, level@, leaf_values@, a as int);
                    assert(nodes@[0].depth == v.nodes[0].depth);
                    assert forall|i: int| 0 <= i < tv.num_nodes() && #[trigger] tv.left[i] >= 0 implies tv.depths[tv.left[i] as int]
                        == tv.depths[i] + 1 && tv.depths[tv.right[i] as int] == tv.depths[i] + 1 by {
                        assert(node_shape_ok(nodes@, i, n));
                        let l = nodes@[i].left->0 as int;
                        assert(nodes@[l].depth == v.nodes[l].depth);
                        assert(nodes@[l + 1].depth == v.nodes[l + 1].depth);
                        assert(nodes@[i].depth == v.nodes[i].depth);
                    }
                }
            }
        }
        t
    }
}

/// The node list with the first `a` frontier nodes made leaves.
pub open spec fn with_leaves(nodes: Seq<NodeBuf>, level: Seq<usize>, vals: Seq<u64>, a: int) -> Seq<NodeBuf>
    decreases a,
{
    if a <= 0 {
        nodes
    } else {
        let prev = with_leaves(nodes, level, vals, a - 1);
        prev.update(level[a - 1] as int, NodeBuf { leaf_value: Some(vals[a - 1]), ..prev[level[a - 1] as int] })
    }
}

/// Making nodes leaves keeps the node count and every node's depth.
proof fn lemma_with_leaves_depths(nodes: Seq<NodeBuf>, level: Seq<usize>, vals: Seq<u64>, a: int)
    requires
        a <= level.len(),
        forall|b: int| 0 <= b < level.len() ==> #[trigger] level[b] < nodes.len(),
    ensures
        with_leaves(nodes, level, vals, a).len() == nodes.len(),
        forall|i: int| 0 <= i < nodes.len() ==> (#[trigger] with_leaves(nodes, level, vals, a)[i]).depth == nodes[i].depth,
    decreases a,
{
    if a > 0 {
        lemma_with_leaves_depths(nodes, level, vals, a - 1);
    }
}

} // verus!
