use sylva_core::config::{Criterion, Task};
use sylva_core::error::SylvaError;
use sylva_core::forest::assemble_forest;
use sylva_core::ir::{LEAF_FEATURE, NO_CHILD};
use sylva_core::partition::partition_rows;
use sylva_core::tree::{BuildError, LeafPayload, Link, TreeBuilder, TreeFragment};

fn bits(p: &[f32]) -> Vec<u32> {
    p.iter().map(|x| x.to_bits()).collect()
}

/// Node 0 splits rows 0..10 into 0..4 (left) and 4..10 (right); both
/// children are leaves.
fn small_tree() -> TreeFragment {
    let task = Task::Classification { n_classes: 2 };
    let labels: Vec<usize> = (0..10).map(|r| if r < 4 { 0 } else { 1 }).collect();
    let mut b = TreeBuilder::new((0..10).collect(), task, 2, Some(3), 2, 1, labels);
    assert_eq!(b.next_node_id(), 0);
    let job = b.current().expect("root pending").clone();
    assert_eq!(job.link, Link::Root);
    assert_eq!(job.depth, 0);
    let flags: Vec<bool> = job.rows.iter().map(|&r| r < 4).collect();
    b.make_split(1, 3.5f32.to_bits(), 0.48f32.to_bits(), &flags).expect("split");
    let left = b.current().expect("left pending").clone();
    assert_eq!(left.rows, vec![0, 1, 2, 3]);
    assert_eq!(left.link, Link::Left(0));
    assert_eq!(left.depth, 1);
    assert!(!left.takes_default);
    assert_eq!(b.next_node_id(), 1);
    assert!(b.must_be_leaf(false), "the left child's rows are all class 0");
    b.make_leaf(0, LeafPayload::ClassShares).expect("left leaf");
    let right = b.current().expect("right pending").clone();
    assert_eq!(right.rows, vec![4, 5, 6, 7, 8, 9]);
    assert_eq!(right.link, Link::Right(0));
    assert!(right.takes_default);
    b.make_leaf(0, LeafPayload::ClassShares).expect("right leaf");
    assert!(b.is_done());
    b.finish().expect("finished")
}

#[test]
fn builder_numbers_nodes_in_preorder() {
    let f = small_tree();
    assert_eq!(f.feature_id, vec![1, LEAF_FEATURE, LEAF_FEATURE]);
    assert_eq!(f.left_child, vec![1, NO_CHILD, NO_CHILD]);
    assert_eq!(f.right_child, vec![2, NO_CHILD, NO_CHILD]);
    assert_eq!(f.default_child, vec![2, NO_CHILD, NO_CHILD]);
    assert_eq!(f.is_leaf, vec![false, true, true]);
    assert_eq!(f.node_sample_count, vec![10, 4, 6]);
    assert_eq!(
        f.node_weighted_count,
        vec![10.0f32.to_bits(), 4.0f32.to_bits(), 6.0f32.to_bits()]
    );
    assert_eq!(f.leaf_offset, vec![-1, 0, 1]);
    assert_eq!(f.n_leaf_slots, 2);
    assert_eq!(f.leaf_value, vec![0, 0]);
    assert_eq!(
        f.leaf_proba,
        vec![1.0f32.to_bits(), 0.0f32.to_bits(), 0.0f32.to_bits(), 1.0f32.to_bits()]
    );
    assert_eq!(f.threshold[0], 3.5f32.to_bits());
}

#[test]
fn default_child_goes_to_larger_side_tie_left() {
    let task = Task::Regression;
    let mut b = TreeBuilder::new((0..4).collect(), task, 1, None, 2, 1, vec![]);
    let flags = vec![true, false, true, false];
    b.make_split(0, 0, 0, &flags).unwrap();
    b.make_leaf(0, LeafPayload::Value(1.0f32.to_bits())).unwrap();
    b.make_leaf(0, LeafPayload::Value(2.0f32.to_bits())).unwrap();
    let f = b.finish().unwrap();
    assert_eq!(f.default_child[0], f.left_child[0], "tie goes left");
    assert_eq!(f.leaf_value, vec![1.0f32.to_bits(), 2.0f32.to_bits()]);
    assert!(f.leaf_proba.is_empty());
}

#[test]
fn builder_refuses_misuse() {
    let task = Task::Classification { n_classes: 2 };
    let mut b = TreeBuilder::new(vec![0, 1, 2], task, 2, Some(1), 2, 2, vec![0, 1, 0]);
    assert_eq!(b.make_leaf(0, LeafPayload::Value(0)), Err(BuildError::PayloadMismatch));
    assert_eq!(b.make_split(0, 0, 0, &vec![true, false]), Err(BuildError::FlagsMismatch));
    assert_eq!(b.make_split(2, 0, 0, &vec![true, false, false]), Err(BuildError::FeatureOutOfRange));
    assert_eq!(b.make_split(0, 0, 0, &vec![true, false, false]), Err(BuildError::ChildTooSmall));
    assert_eq!(b.make_split(0, 0, 0, &vec![true, true, true]), Err(BuildError::ChildTooSmall));
    assert!(!b.must_be_leaf(false));
    assert!(!b.must_be_leaf(true), "a classifier node's purity comes from its labels");
    let mut pure = TreeBuilder::new(vec![0, 1, 2], task, 2, None, 2, 1, vec![1, 1, 1]);
    assert!(pure.must_be_leaf(false));
    assert_eq!(pure.make_split(0, 0, 0, &vec![true, false, false]), Err(BuildError::MustBeLeaf));
    let mut b2 = TreeBuilder::new(vec![0, 1, 2, 3], task, 2, Some(1), 2, 1, vec![0, 1, 0, 1]);
    b2.make_split(0, 0, 0, &vec![true, true, false, false]).unwrap();
    assert!(b2.must_be_leaf(false), "depth limit reached");
    assert_eq!(b2.make_split(0, 0, 0, &vec![true, false]), Err(BuildError::MustBeLeaf));
    let b3 = TreeBuilder::new(vec![0], task, 2, None, 2, 1, vec![0]);
    assert_eq!(b3.finish().unwrap_err(), BuildError::Unfinished);
    let mut b4 = TreeBuilder::new(vec![0], task, 2, None, 2, 1, vec![0]);
    b4.make_leaf(0, LeafPayload::ClassShares).unwrap();
    assert_eq!(b4.make_leaf(0, LeafPayload::ClassShares), Err(BuildError::NoPendingNode));
}

#[test]
fn partition_keeps_order_and_counts() {
    let rows = vec![9, 3, 7, 1, 5];
    let flags = vec![false, true, false, true, true];
    let p = partition_rows(&rows, &flags);
    assert_eq!(p.left_rows, vec![3, 1, 5]);
    assert_eq!(p.right_rows, vec![9, 7]);
    assert_eq!((p.n_left, p.n_right), (3, 2));
    assert!(p.default_left);
    let p = partition_rows(&rows, &vec![true, false, false, false, true]);
    assert!(!p.default_left);
}

#[test]
fn assembled_forest_shifts_ids_and_slots() {
    let a = small_tree();
    let b = small_tree();
    let task = Task::Classification { n_classes: 2 };
    let ir = assemble_forest(vec![a, b], 2, task, Criterion::Gini, 7).expect("assemble");
    assert_eq!(ir.n_trees, 2);
    assert_eq!(ir.tree_offsets, vec![0, 3, 6]);
    assert_eq!(ir.tree_root, vec![0, 3]);
    assert_eq!(ir.left_child, vec![1, -1, -1, 4, -1, -1]);
    assert_eq!(ir.right_child, vec![2, -1, -1, 5, -1, -1]);
    assert_eq!(ir.default_child, vec![2, -1, -1, 5, -1, -1]);
    assert_eq!(ir.leaf_offset, vec![-1, 0, 1, -1, 2, 3]);
    assert_eq!(ir.leaf_proba.len(), 8);
    assert_eq!(ir.leaf_value.len(), 4);
    assert!(ir.validate_structure().is_ok());
    for i in 0..ir.node_count() {
        if !ir.is_leaf[i] {
            let l = ir.left_child[i] as usize;
            let r = ir.right_child[i] as usize;
            assert_eq!(ir.node_sample_count[i], ir.node_sample_count[l] + ir.node_sample_count[r]);
        }
    }
}

#[test]
fn regression_forest_assembles() {
    let mut b = TreeBuilder::new(vec![0, 1, 2], Task::Regression, 1, None, 2, 1, vec![]);
    b.make_leaf(0, LeafPayload::Value(2.5f32.to_bits())).unwrap();
    let f = b.finish().unwrap();
    let ir = assemble_forest(vec![f.clone(), f], 1, Task::Regression, Criterion::Mse, 1).unwrap();
    assert_eq!(ir.leaf_offset, vec![0, 1]);
    assert_eq!(ir.leaf_value, vec![2.5f32.to_bits(), 2.5f32.to_bits()]);
    assert_eq!(ir.node_sample_count, vec![3, 3]);
}

#[test]
fn depth_zero_tree_is_a_single_leaf() {
    let task = Task::Classification { n_classes: 2 };
    let mut b = TreeBuilder::new(vec![0, 1, 2, 3], task, 2, Some(0), 2, 1, vec![0, 1, 0, 1]);
    assert!(b.must_be_leaf(false), "the root sits at the depth limit");
    assert_eq!(b.make_split(0, 0, 0, &vec![true, true, false, false]), Err(BuildError::MustBeLeaf));
    b.make_leaf(0, LeafPayload::ClassShares).unwrap();
    let f = b.finish().unwrap();
    assert_eq!(f.leaf_proba, bits(&[0.5, 0.5]));
    assert_eq!(f.node_count(), 1);
    assert!(f.is_leaf[0]);
}

/// Grow a tree by always splitting a node of at least `min_split` rows in
/// half (first half left), recording each node's depth.
fn grow_halving(n_rows: usize, max_depth: Option<usize>) -> (TreeFragment, Vec<usize>) {
    let task = Task::Regression;
    let mut b = TreeBuilder::new((0..n_rows).collect(), task, 1, max_depth, 2, 1, vec![]);
    let mut depths = Vec::new();
    while let Some(job) = b.current() {
        let job = job.clone();
        depths.push(job.depth);
        if b.must_be_leaf(false) {
            b.make_leaf(0, LeafPayload::Value(0)).unwrap();
        } else {
            let half = job.rows.len() / 2;
            let flags: Vec<bool> = (0..job.rows.len()).map(|k| k < half).collect();
            b.make_split(0, 0, 0, &flags).unwrap();
        }
    }
    (b.finish().unwrap(), depths)
}

#[test]
fn grown_tree_is_one_preorder_tree_within_depth() {
    for &(n, md) in &[(13usize, Some(3usize)), (8, None), (5, Some(1)), (1, Some(4))] {
        let (f, depths) = grow_halving(n, md);
        let mut parents = vec![0usize; f.node_count()];
        for i in 0..f.node_count() {
            if !f.is_leaf[i] {
                assert_eq!(f.left_child[i] as usize, i + 1, "pre-order");
                parents[f.left_child[i] as usize] += 1;
                parents[f.right_child[i] as usize] += 1;
                assert!(md.map_or(true, |d| depths[i] < d));
            } else {
                assert!(md.map_or(true, |d| depths[i] <= d));
            }
        }
        assert_eq!(parents[0], 0);
        assert!(parents[1..].iter().all(|&p| p == 1), "every other node has one parent");
    }
}

#[test]
fn same_trees_assemble_to_the_same_forest() {
    let task = Task::Classification { n_classes: 2 };
    let a = assemble_forest(vec![small_tree(), small_tree()], 2, task, Criterion::Gini, 7).unwrap();
    let b = assemble_forest(vec![small_tree(), small_tree()], 2, task, Criterion::Gini, 7).unwrap();
    assert_eq!(a, b);
}

#[test]
fn classifier_leaf_shares_come_from_the_labels() {
    let task = Task::Classification { n_classes: 3 };
    let labels = vec![2, 0, 2, 1, 2, 0, 0];
    let mut b = TreeBuilder::new(vec![0, 2, 3, 4, 5, 6], task, 1, Some(0), 2, 1, labels);
    b.make_leaf(0, LeafPayload::ClassShares).unwrap();
    let f = b.finish().unwrap();
    assert_eq!(f.leaf_proba, bits(&[2.0 / 6.0, 1.0 / 6.0, 3.0 / 6.0]));
    assert_eq!(f.leaf_value, vec![0]);
    assert_eq!(f.node_sample_count, vec![6]);
}

#[test]
fn malformed_fragments_are_refused_with_the_first_fault() {
    let task = Task::Classification { n_classes: 2 };
    let mut bad = small_tree();
    bad.left_child[0] = -5;
    let err = assemble_forest(vec![bad], 2, task, Criterion::Gini, 7).unwrap_err();
    assert_eq!(err, SylvaError::InvalidIr("internal node 0 has out-of-range children".to_string()));

    let mut far = small_tree();
    far.right_child[0] = 3;
    let err = assemble_forest(vec![small_tree(), far], 2, task, Criterion::Gini, 7).unwrap_err();
    assert_eq!(err, SylvaError::InvalidIr("internal node 3 has out-of-range children".to_string()));

    let mut short = small_tree();
    short.threshold.pop();
    let err = assemble_forest(vec![small_tree(), short], 2, task, Criterion::Gini, 7).unwrap_err();
    assert_eq!(err, SylvaError::InvalidIr("array threshold length 5 != node_count 6".to_string()));
}

#[test]
fn unchecked_fragments_are_merged_as_given() {
    let task = Task::Classification { n_classes: 2 };
    let mut odd = small_tree();
    odd.default_child[0] = 1;
    let ir = assemble_forest(vec![small_tree(), odd], 2, task, Criterion::Gini, 7).unwrap();
    assert_eq!(ir.default_child, vec![2, NO_CHILD, NO_CHILD, 4, NO_CHILD, NO_CHILD]);
    assert_eq!(ir.leaf_offset, vec![-1, 0, 1, -1, 2, 3]);
}

#[test]
fn finished_tree_respects_the_size_limits() {
    let task = Task::Regression;
    let mut b = TreeBuilder::new((0..8).collect(), task, 1, None, 4, 2, vec![]);
    while let Some(job) = b.current() {
        let job = job.clone();
        if b.must_be_leaf(false) {
            b.make_leaf(0, LeafPayload::Value(0)).unwrap();
        } else {
            let lopsided: Vec<bool> = (0..job.rows.len()).map(|k| k == 0).collect();
            assert_eq!(b.make_split(0, 0, 0, &lopsided), Err(BuildError::ChildTooSmall));
            let half = job.rows.len() / 2;
            let flags: Vec<bool> = (0..job.rows.len()).map(|k| k < half).collect();
            b.make_split(0, 0, 0, &flags).unwrap();
        }
    }
    let f = b.finish().unwrap();
    assert_eq!(f.node_sample_count, vec![8, 4, 2, 2, 4, 2, 2]);
    for i in 0..f.node_count() {
        if !f.is_leaf[i] {
            assert!(f.node_sample_count[i] >= 4);
        }
        if i >= 1 {
            assert!(f.node_sample_count[i] >= 2);
        }
    }
}
