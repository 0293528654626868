//! Decision trees in a structure-of-arrays layout.
//!
//! All arrays are aligned by node index; a leaf has `left[i] == right[i] == -1`.
//! Split semantics: `x <= threshold` goes left; a missing value goes the way
//! `missing_go_left` says. Thresholds, leaf values, gains and cover counts are
//! `f64` bit patterns.

use vstd::prelude::*;
use crate::float_bits::{le, le_bits};

verus! {

/// The contents of a tree.
pub struct TreeView {
    pub split_features: Seq<u32>,
    pub thresholds: Seq<u64>,
    pub missing_go_left: Seq<bool>,
    pub left: Seq<i32>,
    pub right: Seq<i32>,
    pub leaf_values: Seq<u64>,
    pub depths: Seq<u32>,
    pub split_gains: Seq<u64>,
    pub node_counts: Seq<u64>,
}

impl TreeView {
    /// The number of nodes.
    pub open spec fn num_nodes(self) -> nat {
        self.left.len()
    }

    /// Every array has one entry per node.
    pub open spec fn aligned(self) -> bool {
        let n = self.left.len();
        &&& self.split_features.len() == n
        &&& self.thresholds.len() == n
        &&& self.missing_go_left.len() == n
        &&& self.right.len() == n
        &&& self.leaf_values.len() == n
        &&& self.depths.len() == n
        &&& self.split_gains.len() == n
        &&& self.node_counts.len() == n
    }
}

/// A binary decision tree with scalar leaves.
#[derive(Debug, Clone)]
pub struct Tree {
    split_features: Vec<u32>,
    thresholds: Vec<u64>,
    missing_go_left: Vec<bool>,
    left: Vec<i32>,
    right: Vec<i32>,
    leaf_values: Vec<u64>,
    depths: Vec<u32>,
    split_gains: Vec<u64>,
    node_counts: Vec<u64>,
}

impl View for Tree {
    type V = TreeView;

    closed spec fn view(&self) -> TreeView {
        TreeView {
            split_features: self.split_features@,
            thresholds: self.thresholds@,
            missing_go_left: self.missing_go_left@,
            left: self.left@,
            right: self.right@,
            leaf_values: self.leaf_values@,
            depths: self.depths@,
            split_gains: self.split_gains@,
            node_counts: self.node_counts@,
        }
    }
}

impl Tree {
    /// Assembles a tree from its node arrays.
    pub fn from_soa(
        split_features: Vec<u32>,
        thresholds: Vec<u64>,
        missing_go_left: Vec<bool>,
        left: Vec<i32>,
        right: Vec<i32>,
        leaf_values: Vec<u64>,
        depths: Vec<u32>,
        split_gains: Vec<u64>,
        node_counts: Vec<u64>,
    ) -> (t: Tree)
        ensures
            t@ == (TreeView {
                split_features: split_features@,
                thresholds: thresholds@,
                missing_go_left: missing_go_left@,
                left: left@,
                right: right@,
                leaf_values: leaf_values@,
                depths: depths@,
                split_gains: split_gains@,
                node_counts: node_counts@,
            }),
    {
        Tree {
            split_features,
            thresholds,
            missing_go_left,
            left,
            right,
            leaf_values,
            depths,
            split_gains,
            node_counts,
        }
    }

    /// The number of nodes.
    pub fn num_nodes(&self) -> (n: usize)
        ensures
            n == self@.num_nodes(),
    {
        self.left.len()
    }

    /// Split feature of each node.
    pub fn split_features(&self) -> (r: &[u32])
        ensures
            r@ == self@.split_features,
    {
        self.split_features.as_slice()
    }

    /// Split threshold (bits) of each node.
    pub fn thresholds(&self) -> (r: &[u64])
        ensures
            r@ == self@.thresholds,
    {
        self.thresholds.as_slice()
    }

    /// Missing-value direction of each node.
    pub fn missing_go_left(&self) -> (r: &[bool])
        ensures
            r@ == self@.missing_go_left,
    {
        self.missing_go_left.as_slice()
    }

    /// Left child of each node (`-1` for a leaf).
    pub fn left(&self) -> (r: &[i32])
        ensures
            r@ == self@.left,
    {
        self.left.as_slice()
    }

    /// Right child of each node (`-1` for a leaf).
    pub fn right(&self) -> (r: &[i32])
        ensures
            r@ == self@.right,
    {
        self.right.as_slice()
    }

    /// Leaf value (bits) of each node.
    pub fn leaf_values(&self) -> (r: &[u64])
        ensures
            r@ == self@.leaf_values,
    {
        self.leaf_values.as_slice()
    }

    /// Depth of each split node (root = 0).
    pub fn depths(&self) -> (r: &[u32])
        ensures
            r@ == self@.depths,
    {
        self.depths.as_slice()
    }

    /// Split gain (bits) of each node.
    pub fn split_gains(&self) -> (r: &[u64])
        ensures
            r@ == self@.split_gains,
    {
        self.split_gains.as_slice()
    }

    /// Cover count (bits) of each node.
    pub fn node_counts(&self) -> (r: &[u64])
        ensures
            r@ == self@.node_counts,
    {
        self.node_counts.as_slice()
    }
}

/// Where a row's walk from node `i` ends within `fuel` nodes: the value of
/// the leaf it reaches, or `None` when it needs more nodes (a cycle) or an
/// index it reads is out of range. A split node reads its feature, then the
/// missing direction (for a missing value) or the threshold, then the child
/// it goes to, and nothing else.
pub open spec fn walk(t: TreeView, values: Seq<u64>, missing: Seq<bool>, i: int, fuel: nat) -> Option<u64>
    decreases fuel,
{
    if fuel == 0 || i < 0 || i >= t.left.len() {
        None
    } else if t.left[i] < 0 {
        if i < t.leaf_values.len() {
            Some(t.leaf_values[i])
        } else {
            None
        }
    } else if i >= t.split_features.len() {
        None
    } else {
        let f = t.split_features[i] as int;
        if f >= values.len() || f >= missing.len() {
            None
        } else {
            let go = if missing[f] {
                if i < t.missing_go_left.len() {
                    Some(t.missing_go_left[i])
                } else {
                    None
                }
            } else if i < t.thresholds.len() {
                Some(le_bits(values[f], t.thresholds[i]))
            } else {
                None
            };
            match go {
                None => None,
                Some(true) => walk(t, values, missing, t.left[i] as int, (fuel - 1) as nat),
                Some(false) => if i < t.right.len() {
                    walk(t, values, missing, t.right[i] as int, (fuel - 1) as nat)
                } else {
                    None
                },
            }
        }
    }
}

/// The leaf value a row reaches from the root, if it reaches one.
pub open spec fn predict_spec(t: TreeView, values: Seq<u64>, missing: Seq<bool>) -> Option<u64> {
    walk(t, values, missing, 0, t.left.len())
}

/// The largest of the depths, 0 when there are none.
pub open spec fn max_of(s: Seq<u32>) -> nat
    decreases s.len(),
{
    if s.len() == 0 {
        0
    } else {
        let rest = max_of(s.drop_last());
        if s.last() > rest {
            s.last() as nat
        } else {
            rest
        }
    }
}

/// `max_of` is the largest depth: no depth exceeds it, and some node has it.
proof fn lemma_max_of(s: Seq<u32>)
    ensures
        forall|i: int| 0 <= i < s.len() ==> #[trigger] s[i] <= max_of(s),
        s.len() > 0 ==> exists|i: int| 0 <= i < s.len() && s[i] == max_of(s),
    decreases s.len(),
{
    if s.len() > 0 {
        let p = s.drop_last();
        lemma_max_of(p);
        assert forall|i: int| 0 <= i < s.len() implies #[trigger] s[i] <= max_of(s) by {
            if i < s.len() - 1 {
                assert(s[i] == p[i]);
            }
        }
        if s.last() <= max_of(p) && p.len() > 0 {
            let j = choose|j: int| 0 <= j < p.len() && p[j] == max_of(p);
            assert(s[j] == max_of(s));
        } else {
            assert(s[s.len() - 1] == max_of(s));
        }
    }
}

impl Tree {
    /// Prediction for one row: from the root, a split node sends the row left
    /// when its feature is missing and `missing_go_left` holds, or when the
    /// value is `<=` the threshold; the leaf reached gives the value.
    ///
    /// A row whose walk does not reach a leaf within `num_nodes` nodes would
    /// cycle forever, and one that reads outside the arrays would panic:
    /// both are left out.
    pub fn predict(&self, values: &[u64], is_missing: &[bool]) -> (r: u64)
        requires
            predict_spec(self@, values@, is_missing@) is Some,
        ensures
            predict_spec(self@, values@, is_missing@) == Some(r),
    {
        let ghost t = self@;
        let mut i: usize = 0;
        let ghost mut fuel: nat = t.left.len();
        loop
            invariant
                t == self@,
                walk(t, values@, is_missing@, i as int, fuel) == predict_spec(t, values@, is_missing@),
                walk(t, values@, is_missing@, i as int, fuel) is Some,
            decreases fuel,
        {
            if self.left[i] < 0 {
                return self.leaf_values[i];
            }
            let f = self.split_features[i] as usize;
            let go_left = if is_missing[f] {
                self.missing_go_left[i]
            } else {
                le(values[f], self.thresholds[i])
            };
            let next = if go_left {
                self.left[i]
            } else {
                self.right[i]
            };
            proof {
                assert(walk(t, values@, is_missing@, i as int, fuel) == walk(
                    t,
                    values@,
                    is_missing@,
                    next as int,
                    (fuel - 1) as nat,
                ));
                assert(next >= 0);
                fuel = (fuel - 1) as nat;
            }
            i = next as usize;
        }
    }

    /// Prediction for one row, for any input: the leaf value the row reaches
    /// from the root as `predict` gives it, or `None` exactly where `predict`
    /// is left undefined: the walk would cycle (a walk longer than the node
    /// count revisits a node) or read outside the arrays.
    pub fn predict_checked(&self, values: &[u64], is_missing: &[bool]) -> (r: Option<u64>)
        ensures
            r == predict_spec(self@, values@, is_missing@),
    {
        let ghost t = self@;
        let mut i: usize = 0;
        let mut fuel: usize = self.left.len();
        loop
            invariant
                t == self@,
                fuel <= t.left.len(),
                walk(t, values@, is_missing@, i as int, fuel as nat) == predict_spec(
                    t,
                    values@,
                    is_missing@,
                ),
            decreases fuel,
        {
            if fuel == 0 || i >= self.left.len() {
                return None;
            }
            if self.left[i] < 0 {
                if i < self.leaf_values.len() {
                    return Some(self.leaf_values[i]);
                }
                return None;
            }
            if i >= self.split_features.len() {
                return None;
            }
            let f = self.split_features[i] as usize;
            if f >= values.len() || f >= is_missing.len() {
                return None;
            }
            let go_left = if is_missing[f] {
                if i >= self.missing_go_left.len() {
                    return None;
                }
                self.missing_go_left[i]
            } else {
                if i >= self.thresholds.len() {
                    return None;
                }
                le(values[f], self.thresholds[i])
            };
            let next = if go_left {
                self.left[i]
            } else {
                if i >= self.right.len() {
                    return None;
                }
                self.right[i]
            };
            if next < 0 {
                proof {
                    assert(walk(t, values@, is_missing@, next as int, (fuel - 1) as nat) is None);
                }
                return None;
            }
            i = next as usize;
            fuel = fuel - 1;
        }
    }

    /// The depth of the deepest node (root = 0, every node recording its
    /// own depth), 0 for no nodes.
    pub fn max_depth(&self) -> (d: u32)
        ensures
            d == max_of(self@.depths),
            forall|i: int| 0 <= i < self@.depths.len() ==> #[trigger] self@.depths[i] <= d,
            self@.depths.len() > 0 ==> exists|i: int| 0 <= i < self@.depths.len() && self@.depths[i] == d,
    {
        proof {
            lemma_max_of(self@.depths);
        }
        let mut best: u32 = 0;
        let mut i: usize = 0;
        while i < self.depths.len()
            invariant
                i <= self.depths@.len(),
                best == max_of(self.depths@.subrange(0, i as int)),
            decreases self.depths@.len() - i,
        {
            let ghost prefix = self.depths@.subrange(0, i + 1);
            assert(prefix.drop_last() =~= self.depths@.subrange(0, i as int));
            if self.depths[i] > best {
                best = self.depths[i];
            }
            i = i + 1;
        }
        assert(self.depths@.subrange(0, i as int) =~= self.depths@);
        best
    }
}

/// The shape of a grown tree: aligned arrays, at least one node, and every
/// split node's children are the next two free indices after it (leaves have
/// `-1` children).
pub open spec fn children_follow(t: TreeView) -> bool {
    &&& t.aligned()
    &&& t.num_nodes() >= 1
    &&& forall|i: int|
        0 <= i < t.num_nodes() ==> (#[trigger] t.left[i] == -1 && t.right[i] == -1) || (i < t.left[i]
            && t.right[i] == t.left[i] + 1 && t.right[i] < t.num_nodes())
}

/// Depths follow the structure: the root is at depth 0, and both children
/// of a split node sit one level below it.
pub open spec fn depths_follow(t: TreeView) -> bool {
    &&& t.depths.len() > 0 ==> t.depths[0] == 0
    &&& forall|i: int|
        0 <= i < t.num_nodes() && #[trigger] t.left[i] >= 0 ==> t.depths[t.left[i] as int] == t.depths[i] + 1
            && t.depths[t.right[i] as int] == t.depths[i] + 1
}

/// One step of prediction: a leaf gives its value; at a split node whose
/// feature the row has, a missing value goes to the left child exactly when
/// the node's `missing_go_left` holds (to the right child otherwise), and a
/// present value goes left exactly when it is at most the threshold (`x <=
/// threshold` on `f64`); the walk then goes on from that child.
pub proof fn law_walk_step(t: TreeView, values: Seq<u64>, missing: Seq<bool>, i: int, fuel: nat)
    requires
        t.aligned(),
        0 <= i < t.num_nodes(),
        fuel > 0,
    ensures
        t.left[i] < 0 ==> walk(t, values, missing, i, fuel) == Some(t.leaf_values[i]),
        t.left[i] >= 0 && t.split_features[i] < values.len() && t.split_features[i] < missing.len()
            && missing[t.split_features[i] as int] ==> walk(t, values, missing, i, fuel) == walk(
            t,
            values,
            missing,
            (if t.missing_go_left[i] { t.left[i] } else { t.right[i] }) as int,
            (fuel - 1) as nat,
        ),
        t.left[i] >= 0 && t.split_features[i] < values.len() && t.split_features[i] < missing.len()
            && !missing[t.split_features[i] as int] ==> walk(t, values, missing, i, fuel) == walk(
            t,
            values,
            missing,
            (if le_bits(values[t.split_features[i] as int], t.thresholds[i]) { t.left[i] } else { t.right[i] }) as int,
            (fuel - 1) as nat,
        ),
{
}

/// Prediction starts at the root: on a tree whose root splits on a feature
/// the row has, the prediction is the walk from the child the root sends
/// the row to (by `missing_go_left` for a missing value, by the threshold
/// otherwise).
pub proof fn law_predict_from_root(t: TreeView, values: Seq<u64>, missing: Seq<bool>)
    requires
        t.aligned(),
        t.num_nodes() > 0,
        t.left[0] >= 0,
        t.split_features[0] < values.len(),
        t.split_features[0] < missing.len(),
    ensures
        predict_spec(t, values, missing) == walk(
            t,
            values,
            missing,
            (if missing[t.split_features[0] as int] {
                if t.missing_go_left[0] { t.left[0] } else { t.right[0] }
            } else if le_bits(values[t.split_features[0] as int], t.thresholds[0]) {
                t.left[0]
            } else {
                t.right[0]
            }) as int,
            (t.num_nodes() - 1) as nat,
        ),
{
    law_walk_step(t, values, missing, 0, t.left.len());
}

/// Node `m` is a child (left or right) of node `j`.
pub open spec fn child_of(t: TreeView, m: int, j: int) -> bool {
    t.left[j] == m || t.right[j] == m
}

/// Node `m` is a child of a node before it.
pub open spec fn parent_before(t: TreeView, m: int) -> bool {
    exists|j: int| 0 <= j < m && #[trigger] child_of(t, m, j)
}

/// Every node has one parent, but the root, which has none: each node after
/// the root is a child of exactly one node, and that node comes before it.
pub open spec fn single_parents(t: TreeView) -> bool {
    &&& forall|j: int| 0 <= j < t.num_nodes() ==> !#[trigger] child_of(t, 0, j)
    &&& forall|m: int| 1 <= m < t.num_nodes() ==> #[trigger] parent_before(t, m)
    &&& forall|m: int, j1: int, j2: int|
        0 <= m < t.num_nodes() && 0 <= j1 < t.num_nodes() && 0 <= j2 < t.num_nodes()
            && #[trigger] child_of(t, m, j1) && #[trigger] child_of(t, m, j2) ==> j1 == j2
}

proof fn lemma_walk_reaches_leaf(t: TreeView, values: Seq<u64>, missing: Seq<bool>, i: int, fuel: nat)
    requires
        children_follow(t),
        forall|j: int| 0 <= j < t.num_nodes() && t.left[j] >= 0 ==> #[trigger] t.split_features[j] < values.len()
            && t.split_features[j] < missing.len(),
        0 <= i < t.num_nodes(),
        fuel >= t.num_nodes() - i,
    ensures
        walk(t, values, missing, i, fuel) is Some,
    decreases t.num_nodes() - i,
{
    assert(t.left[i] == -1 && t.right[i] == -1 || (i < t.left[i] && t.right[i] == t.left[i] + 1
        && t.right[i] < t.num_nodes()));
    if t.left[i] >= 0 {
        assert(t.split_features[i] < values.len());
        let f = t.split_features[i] as int;
        let go_left = if missing[f] {
            t.missing_go_left[i]
        } else {
            le_bits(values[f], t.thresholds[i])
        };
        let next = if go_left {
            t.left[i]
        } else {
            t.right[i]
        };
        lemma_walk_reaches_leaf(t, values, missing, next as int, (fuel - 1) as nat);
    }
}

/// Prediction on a grown tree always reaches a leaf: whenever every split
/// feature is a column of the row, the walk from the root ends in a leaf.
pub proof fn law_grown_tree_predicts(t: TreeView, values: Seq<u64>, missing: Seq<bool>)
    requires
        children_follow(t),
        forall|j: int| 0 <= j < t.num_nodes() && t.left[j] >= 0 ==> #[trigger] t.split_features[j] < values.len()
            && t.split_features[j] < missing.len(),
    ensures
        predict_spec(t, values, missing) is Some,
{
    lemma_walk_reaches_leaf(t, values, missing, 0, t.left.len());
}

} // verus!
