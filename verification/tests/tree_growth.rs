use sooboost::binning::{BinTable, MISSING_BIN};
use sooboost::data::{FeatureColumns, MissingPolicy};
use sooboost::growth::{
    better_split, check_build_inputs, partition_rows, NodeBuf, NodeDecision, SplitCandidate, TreeError, TreeGrowth,
};
use sooboost::tree::Tree;

fn b(x: f64) -> u64 {
    x.to_bits()
}

fn matrix() -> (BinTable, sooboost::binning::BinnedMatrix) {
    // feature 0: 0..8 ; feature 1: has a null at row 3
    let f0: Vec<u64> = (0..8).map(|i| b(i as f64)).collect();
    let f1: Vec<u64> = [5.0, 1.0, 4.0, 0.0, 2.0, 7.0, 3.0, 6.0].iter().map(|x| b(*x)).collect();
    let mut n1 = vec![false; 8];
    n1[3] = true;
    let ds = FeatureColumns::new(vec![f0, f1], vec![vec![false; 8], n1], 8, MissingPolicy::default()).unwrap();
    BinTable::build_from_dataset(&ds, 8).unwrap()
}

#[test]
fn tree_predicts_by_threshold_and_missing_direction() {
    let t = Tree::from_soa(
        vec![0, 0, 1, 0, 0],
        vec![b(0.5), 0, b(2.0), 0, 0],
        vec![false, false, true, false, false],
        vec![1, -1, 3, -1, -1],
        vec![2, -1, 4, -1, -1],
        vec![0, b(10.0), 0, b(20.0), b(30.0)],
        vec![0, 0, 1, 0, 0],
        vec![0; 5],
        vec![0; 5],
    );
    assert_eq!(t.predict(&[b(0.5), b(9.0)], &[false, false]), b(10.0));
    assert_eq!(t.predict(&[b(0.6), b(2.0)], &[false, false]), b(20.0));
    assert_eq!(t.predict(&[b(0.6), b(2.5)], &[false, false]), b(30.0));
    // missing feature 1 goes left at node 2
    assert_eq!(t.predict(&[b(0.6), b(f64::NAN)], &[false, true]), b(20.0));
    // NaN that is not missing compares false and goes right
    assert_eq!(t.predict(&[b(f64::NAN), b(0.0)], &[false, false]), b(20.0));
    assert_eq!(t.max_depth(), 1);
    assert_eq!(t.num_nodes(), 5);
}

#[test]
fn max_depth_of_empty_and_leaf_trees() {
    let t = Tree::from_soa(vec![], vec![], vec![], vec![], vec![], vec![], vec![], vec![], vec![]);
    assert_eq!(t.max_depth(), 0);
    let leaf = Tree::from_soa(vec![0], vec![0], vec![false], vec![-1], vec![-1], vec![b(1.0)], vec![0], vec![0], vec![0]);
    assert_eq!(leaf.predict(&[], &[]), b(1.0));
}

#[test]
fn partition_moves_left_rows_first() {
    let (table, m) = matrix();
    let mut rows: Vec<usize> = (0..8).collect();
    let split_bin = table.bin_value(0, b(3.0));
    let mid = partition_rows(&mut rows, 0, 8, &m, 0, split_bin, false);
    assert_eq!(mid, 4);
    for r in &rows[..mid] {
        assert!(m.bin(0, *r) <= split_bin);
    }
    for r in &rows[mid..] {
        assert!(m.bin(0, *r) > split_bin);
    }
    let mut sorted = rows.clone();
    sorted.sort();
    assert_eq!(sorted, (0..8).collect::<Vec<_>>());
}

#[test]
fn partition_sends_missing_rows_the_declared_way() {
    let (_, m) = matrix();
    assert_eq!(m.bin(1, 3), MISSING_BIN);
    for go_left in [true, false] {
        let mut rows: Vec<usize> = (0..8).collect();
        let mid = partition_rows(&mut rows, 0, 8, &m, 1, 0, go_left);
        let pos = rows.iter().position(|r| *r == 3).unwrap();
        assert_eq!(pos < mid, go_left);
    }
}

#[test]
fn finishing_the_root_gives_a_single_leaf() {
    let g = TreeGrowth::new(8);
    assert_eq!(g.level(), &vec![0]);
    assert_eq!(g.depth(), 0);
    let t = g.finish(&vec![b(2.5)], vec![b(8.0)]);
    assert_eq!(t.num_nodes(), 1);
    assert_eq!(t.left(), &[-1]);
    assert_eq!(t.leaf_values(), &[b(2.5)]);
    assert_eq!(t.predict(&[b(0.0), b(0.0)], &[false, false]), b(2.5));
}

#[test]
fn two_levels_of_growth_lay_out_the_tree() {
    let (table, m) = matrix();
    let g = TreeGrowth::new(8);
    let bin = table.bin_value(0, b(3.0));
    let g = g.apply_level(
        &m,
        &vec![NodeDecision::Split { feature: 0, bin, threshold: b(3.0), missing_go_left: true, gain: b(4.0) }],
    );
    assert_eq!(g.depth(), 1);
    assert_eq!(g.level(), &vec![1, 2]);
    let nodes: Vec<NodeBuf> = g.nodes().clone();
    assert_eq!(nodes.len(), 3);
    assert_eq!(nodes[0].left, Some(1));
    assert_eq!(nodes[0].right, Some(2));
    assert_eq!(nodes[1].range, (0, 4));
    assert_eq!(nodes[2].range, (4, 8));
    assert_eq!(nodes[1].depth, 1);
    for k in 0..4 {
        assert!(g.rows()[k] <= 3);
    }
    // second level: left child becomes a leaf, right child splits on feature 1
    let g = g.apply_level(
        &m,
        &vec![
            NodeDecision::Leaf { value: b(-1.0) },
            NodeDecision::Split { feature: 1, bin: 0, threshold: b(4.5), missing_go_left: false, gain: b(1.0) },
        ],
    );
    assert_eq!(g.level(), &vec![3, 4]);
    let n = g.nodes().len();
    let t = g.finish(&vec![b(5.0), b(6.0)], vec![0; n]);
    assert_eq!(t.left(), &[1, -1, 3, -1, -1]);
    assert_eq!(t.right(), &[2, -1, 4, -1, -1]);
    assert_eq!(t.split_features(), &[0, 0, 1, 0, 0]);
    assert_eq!(t.depths(), &[0, 1, 1, 2, 2]);
    assert_eq!(t.split_gains(), &[b(4.0), 0, b(1.0), 0, 0]);
    assert_eq!(t.predict(&[b(2.0), b(0.0)], &[false, false]), b(-1.0));
    assert_eq!(t.predict(&[b(5.0), b(0.0)], &[false, false]), b(5.0));
    assert_eq!(t.predict(&[b(5.0), b(7.0)], &[false, false]), b(6.0));
    assert_eq!(t.max_depth(), 2);
    assert!(t.left().len() <= (1 << 3) - 1);
    // every node but the root has exactly one parent, placed before it
    for m in 0..t.left().len() {
        let parents: Vec<usize> = (0..t.left().len())
            .filter(|&j| t.left()[j] == m as i32 || t.right()[j] == m as i32)
            .collect();
        if m == 0 {
            assert!(parents.is_empty());
        } else {
            assert_eq!(parents.len(), 1);
            assert!(parents[0] < m);
        }
    }
}

#[test]
fn from_nodes_lays_out_arrays() {
    let mut root = NodeBuf::new((0, 4), 0);
    root.split_feature = Some(2);
    root.threshold = b(1.0);
    root.missing_go_left = true;
    root.left = Some(1);
    root.right = Some(2);
    root.gain = b(0.5);
    let mut l = NodeBuf::new((0, 1), 1);
    l.leaf_value = Some(b(3.0));
    let r = NodeBuf::new((1, 4), 1);
    let t = Tree::from_nodes(&vec![root, l, r], vec![b(4.0), b(1.0), b(3.0)]);
    assert_eq!(t.split_features(), &[2, 0, 0]);
    assert_eq!(t.thresholds(), &[b(1.0), 0, 0]);
    assert_eq!(t.missing_go_left(), &[true, false, false]);
    assert_eq!(t.left(), &[1, -1, -1]);
    assert_eq!(t.right(), &[2, -1, -1]);
    assert_eq!(t.leaf_values(), &[0, b(3.0), 0]);
    assert_eq!(t.depths(), &[0, 1, 1]);
    assert_eq!(t.node_counts(), &[b(4.0), b(1.0), b(3.0)]);
}

#[test]
fn checked_prediction_reports_unusable_walks() {
    let t = Tree::from_soa(
        vec![0, 0, 1, 0, 0],
        vec![b(0.5), 0, b(2.0), 0, 0],
        vec![false, false, true, false, false],
        vec![1, -1, 3, -1, -1],
        vec![2, -1, 4, -1, -1],
        vec![0, b(10.0), 0, b(20.0), b(30.0)],
        vec![0, 0, 1, 0, 0],
        vec![0; 5],
        vec![0; 5],
    );
    assert_eq!(t.predict_checked(&[b(0.5), b(9.0)], &[false, false]), Some(b(10.0)));
    assert_eq!(t.predict_checked(&[b(0.6), b(2.5)], &[false, false]), Some(b(30.0)));
    // the row lacks feature 1, which node 2 reads
    assert_eq!(t.predict_checked(&[b(0.6)], &[false]), None);
    // a cycle: node 0 sends every row back to itself
    let cyc = Tree::from_soa(vec![0], vec![b(1.0)], vec![true], vec![0], vec![0], vec![0], vec![0], vec![0], vec![0]);
    assert_eq!(cyc.predict_checked(&[b(0.0)], &[false]), None);
    // no nodes
    let empty = Tree::from_soa(vec![], vec![], vec![], vec![], vec![], vec![], vec![], vec![], vec![]);
    assert_eq!(empty.predict_checked(&[], &[]), None);
}

#[test]
fn build_input_checks() {
    assert_eq!(check_build_inputs(0, 0, 0), Err(TreeError::Empty));
    assert_eq!(check_build_inputs(0, 3, 1), Err(TreeError::Empty));
    assert_eq!(check_build_inputs(3, 2, 3), Err(TreeError::LengthMismatch { rows: 3, grad: 2, hess: 3 }));
    assert_eq!(check_build_inputs(3, 3, 4), Err(TreeError::LengthMismatch { rows: 3, grad: 3, hess: 4 }));
    assert_eq!(check_build_inputs(3, 3, 3), Ok(()));
}

#[test]
fn bin_value_counts_boundaries_below() {
    let t = BinTable::new(vec![vec![b(1.0), b(2.0), b(3.0)]], 8).unwrap();
    assert_eq!(t.bin_value(0, b(0.5)), 0);
    assert_eq!(t.bin_value(0, b(1.0)), 0);
    assert_eq!(t.bin_value(0, b(1.5)), 1);
    assert_eq!(t.bin_value(0, b(3.0)), 2);
    assert_eq!(t.bin_value(0, b(9.0)), 3);
    assert_eq!(t.num_bins(0), 4);
    assert_eq!(t.missing_bin(), MISSING_BIN);
}

fn cand(feature: usize, gain: f64) -> SplitCandidate {
    SplitCandidate { feature, bin: 0, threshold: b(0.0), gain: b(gain), missing_go_left: false }
}

#[test]
fn better_split_prefers_gain_then_lower_feature() {
    let (a, c, d) = (cand(2, 1.5), cand(0, 1.5), cand(1, 3.0));
    assert_eq!(better_split(Some(a), Some(d)), Some(d));
    assert_eq!(better_split(Some(d), Some(a)), Some(d));
    // equal gains: the lower feature wins whichever comes first
    assert_eq!(better_split(Some(a), Some(c)), Some(c));
    assert_eq!(better_split(Some(c), Some(a)), Some(c));
    // -0.0 and 0.0 are equal gains
    assert_eq!(better_split(Some(cand(5, -0.0)), Some(cand(4, 0.0))), Some(cand(4, 0.0)));
    assert_eq!(better_split(None, Some(a)), Some(a));
    assert_eq!(better_split(Some(a), None), Some(a));
    assert_eq!(better_split(None, None), None);
    // any grouping of three merges gives the same winner
    let l = better_split(better_split(Some(a), Some(c)), Some(d));
    let r = better_split(Some(a), better_split(Some(c), Some(d)));
    assert_eq!(l, r);
    // a NaN gain never beats a number placed second
    assert_eq!(better_split(Some(cand(0, f64::NAN)), Some(a)), Some(a));
}

#[test]
fn root_split_into_two_leaves_has_depth_one() {
    let (_, m) = matrix();
    let g = TreeGrowth::new(8).apply_level(
        &m,
        &vec![NodeDecision::Split { feature: 0, bin: 2, threshold: b(2.0), missing_go_left: false, gain: b(1.0) }],
    );
    let t = g.finish(&vec![b(1.0), b(2.0)], vec![0; 3]);
    assert_eq!(t.depths(), &[0, 1, 1]);
    assert_eq!(t.max_depth(), 1);
    let single = TreeGrowth::new(8).finish(&vec![b(1.0)], vec![0]);
    assert_eq!(single.max_depth(), 0);
}
