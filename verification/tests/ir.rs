use sylva_core::config::{Criterion, Task};
use sylva_core::error::SylvaError;
use sylva_core::ir::{ForestIR, LEAF_FEATURE, NO_CHILD};

fn bits(v: &[f32]) -> Vec<u32> {
    v.iter().map(|x| x.to_bits()).collect()
}

/// A tiny one-tree binary classifier: node 0 splits on feature 0 at 0.5
/// into leaf 1 (class 0) and leaf 2 (class 1).
fn tiny_clf_ir() -> ForestIR {
    ForestIR {
        feature_id: vec![0, LEAF_FEATURE, LEAF_FEATURE],
        threshold: bits(&[0.5, 0.0, 0.0]),
        left_child: vec![1, NO_CHILD, NO_CHILD],
        right_child: vec![2, NO_CHILD, NO_CHILD],
        default_child: vec![2, NO_CHILD, NO_CHILD],
        is_leaf: vec![false, true, true],
        node_sample_count: vec![10, 4, 6],
        node_weighted_count: bits(&[10.0, 4.0, 6.0]),
        impurity: bits(&[0.48, 0.0, 0.0]),
        leaf_value: vec![],
        leaf_proba: bits(&[1.0, 0.0, 0.0, 1.0]),
        leaf_offset: vec![-1, 0, 1],
        tree_offsets: vec![0, 3],
        tree_root: vec![0],
        n_trees: 1,
        n_features: 1,
        task: Task::Classification { n_classes: 2 },
        criterion: Criterion::Gini,
        seed: 42,
    }
}

#[test]
fn validate_accepts_well_formed() {
    assert!(tiny_clf_ir().validate_structure().is_ok());
}

#[test]
fn validate_rejects_bad_default_child() {
    let mut ir = tiny_clf_ir();
    ir.default_child[0] = 0;
    assert!(ir.validate_structure().is_err());
}

#[test]
fn validate_rejects_length_mismatch() {
    let mut ir = tiny_clf_ir();
    ir.threshold.push(0.0f32.to_bits());
    assert!(ir.validate_structure().is_err());
}

#[test]
fn classifier_leaf_proba_sums_to_one() {
    let ir = tiny_clf_ir();
    let nc = ir.n_classes();
    for i in 0..ir.node_count() {
        if ir.is_leaf[i] {
            let o = ir.leaf_offset[i] as usize;
            let s: f32 = ir.leaf_proba[o * nc..(o + 1) * nc].iter().map(|b| f32::from_bits(*b)).sum();
            assert!((s - 1.0).abs() < 1e-6, "leaf {i} proba must sum to 1");
        }
    }
}

#[test]
fn validate_rejects_each_broken_rule() {
    let mut ir = tiny_clf_ir();
    ir.tree_offsets = vec![0, 2];
    assert!(matches!(ir.validate_structure(), Err(SylvaError::InvalidIr(_))));

    let mut ir = tiny_clf_ir();
    ir.tree_offsets = vec![0, 3, 3];
    assert!(ir.validate_structure().is_err(), "offsets longer than n_trees + 1");

    let mut ir = tiny_clf_ir();
    ir.n_trees = 2;
    ir.tree_offsets = vec![0, 3, 2];
    ir.tree_root = vec![0, 0];
    assert!(ir.validate_structure().is_err(), "decreasing offsets");

    let mut ir = tiny_clf_ir();
    ir.left_child[1] = 2;
    assert!(ir.validate_structure().is_err(), "leaf with a child");

    let mut ir = tiny_clf_ir();
    ir.right_child[0] = 3;
    assert!(ir.validate_structure().is_err(), "child out of range");

    let mut ir = tiny_clf_ir();
    ir.n_trees = usize::MAX;
    assert!(ir.validate_structure().is_err(), "impossible tree count");
}

#[test]
fn tree_node_range_and_counts() {
    let ir = tiny_clf_ir();
    assert_eq!(ir.tree_node_range(0), 0..3);
    assert_eq!(ir.node_count(), 3);
    assert_eq!(ir.n_classes(), 2);
    let mut reg = tiny_clf_ir();
    reg.task = Task::Regression;
    assert_eq!(reg.n_classes(), 1);
}

#[test]
fn error_messages_carry_their_kind() {
    let e = SylvaError::InvalidIr("tree_offsets must be non-decreasing".to_string());
    assert_eq!(e.message(), "invalid ForestIR: tree_offsets must be non-decreasing");
    let e = SylvaError::InvalidInput("X has 0 rows".to_string());
    assert_eq!(e.message(), "invalid input: X has 0 rows");
    let e = SylvaError::InvalidConfig("n_estimators must be >= 1".to_string());
    assert_eq!(e.message(), "invalid config: n_estimators must be >= 1");
}

fn ir_message(r: Result<(), SylvaError>) -> String {
    match r {
        Err(SylvaError::InvalidIr(m)) => m,
        other => panic!("expected an InvalidIr error, got {other:?}"),
    }
}

#[test]
fn validate_messages_name_the_broken_rule() {
    let mut ir = tiny_clf_ir();
    ir.threshold.push(0);
    assert_eq!(ir_message(ir.validate_structure()), "array threshold length 4 != node_count 3");

    let mut ir = tiny_clf_ir();
    ir.leaf_offset.pop();
    assert_eq!(ir_message(ir.validate_structure()), "array leaf_offset length 2 != node_count 3");

    let mut ir = tiny_clf_ir();
    ir.tree_offsets = vec![0, 3, 3];
    assert_eq!(ir_message(ir.validate_structure()), "tree_offsets length must be n_trees + 1");

    let mut ir = tiny_clf_ir();
    ir.tree_offsets = vec![1, 3];
    assert_eq!(ir_message(ir.validate_structure()), "tree_offsets must start at 0 and end at node_count");

    let mut ir = tiny_clf_ir();
    ir.n_trees = 2;
    ir.tree_offsets = vec![0, 3, 2, 3];
    ir.n_trees = 3;
    assert_eq!(ir_message(ir.validate_structure()), "tree_offsets must be non-decreasing");

    let mut ir = tiny_clf_ir();
    ir.left_child[2] = 0;
    assert_eq!(ir_message(ir.validate_structure()), "leaf node 2 has children");

    let mut ir = tiny_clf_ir();
    ir.right_child[0] = 3;
    assert_eq!(ir_message(ir.validate_structure()), "internal node 0 has out-of-range children");

    let mut ir = tiny_clf_ir();
    ir.default_child[0] = 0;
    assert_eq!(ir_message(ir.validate_structure()), "internal node 0 default_child must be one of its children");
}
