use std::collections::HashSet;

use sylva_core::config::{Criterion, Task};
use sylva_core::ir::{ForestIR, LEAF_FEATURE, NO_CHILD};
use sylva_core::choice::{NEG_INFINITY_BITS, POS_INFINITY_BITS};
use sylva_core::parity::{split_observations, threshold_ranges, RawSplit};
use sylva_core::rng::philox_uniform;
use sylva_core::split::{candidate_features, feature_range, class_counts, classes_pure, DRAW_FEATURE_SELECT};

#[test]
fn candidates_are_distinct_features() {
    for seed in 0..50u64 {
        for &(n, k) in &[(10usize, 3usize), (5, 5), (7, 20), (1, 1), (4, 0)] {
            let c = candidate_features(n, k, seed, 2, 3);
            assert_eq!(c.len(), k.min(n));
            let set: HashSet<_> = c.iter().collect();
            assert_eq!(set.len(), c.len());
            assert!(c.iter().all(|&f| f < n));
        }
    }
}

#[test]
fn candidates_follow_the_fisher_yates_draws() {
    let (n, k, seed, tree, node) = (6usize, 3usize, 42u64, 1u32, 5u32);
    let mut order: Vec<usize> = (0..n).collect();
    for i in 0..k {
        let u = philox_uniform(seed, tree, node, i as u32, DRAW_FEATURE_SELECT) as f32 * (1.0 / 16_777_216.0);
        let j = (i + (u * (n - i) as f32) as usize).min(n - 1);
        order.swap(i, j);
    }
    assert_eq!(candidate_features(n, k, seed, tree, node), order[..k].to_vec());
}

#[test]
fn class_counts_and_purity() {
    let labels = vec![0, 1, 1, 2, 0, 5];
    let rows = vec![0, 1, 2, 3, 5];
    assert_eq!(class_counts(&rows, &labels, 3), vec![1, 2, 1]);
    assert!(!classes_pure(&rows, &labels, 3));
    assert!(classes_pure(&vec![1, 2], &labels, 3));
    assert!(classes_pure(&vec![0, 4], &labels, 3));
    assert!(classes_pure(&vec![0, 5], &labels, 1), "labels past the class count are not counted");
}

#[test]
fn observations_skip_leaves() {
    let ir = ForestIR {
        feature_id: vec![1, LEAF_FEATURE, 0, LEAF_FEATURE, LEAF_FEATURE],
        threshold: vec![10, 0, 20, 0, 0],
        left_child: vec![1, NO_CHILD, 3, NO_CHILD, NO_CHILD],
        right_child: vec![2, NO_CHILD, 4, NO_CHILD, NO_CHILD],
        default_child: vec![2, NO_CHILD, 3, NO_CHILD, NO_CHILD],
        is_leaf: vec![false, true, false, true, true],
        node_sample_count: vec![5, 2, 3, 1, 2],
        node_weighted_count: vec![0; 5],
        impurity: vec![0; 5],
        leaf_value: vec![0; 3],
        leaf_proba: vec![],
        leaf_offset: vec![-1, 0, -1, 1, 2],
        tree_offsets: vec![0, 5],
        tree_root: vec![0],
        n_trees: 1,
        n_features: 2,
        task: Task::Regression,
        criterion: Criterion::Mse,
        seed: 0,
    };
    let obs = split_observations(&ir);
    assert_eq!(obs, vec![RawSplit { feature_id: 1, threshold: 10 }, RawSplit { feature_id: 0, threshold: 20 }]);
    let n_internal = ir.feature_id.iter().filter(|&&f| f != LEAF_FEATURE).count();
    assert_eq!(obs.len(), n_internal);
}

fn raw(feature_id: usize, threshold: f32) -> RawSplit {
    RawSplit { feature_id, threshold: threshold.to_bits() }
}

#[test]
fn threshold_ranges_per_feature() {
    let obs = vec![raw(0, 2.5), raw(1, -1.0), raw(0, -0.5), raw(0, 7.0), raw(1, f32::NAN), raw(1, 3.0)];
    let r = threshold_ranges(&obs, 3);
    assert_eq!(r.len(), 3);
    assert_eq!(r[0], ((-0.5f32).to_bits(), 7.0f32.to_bits()));
    assert_eq!(r[1], ((-1.0f32).to_bits(), 3.0f32.to_bits()));
    assert_eq!(r[2], (POS_INFINITY_BITS, NEG_INFINITY_BITS));
    assert_eq!(f32::from_bits(POS_INFINITY_BITS), f32::INFINITY);
    assert_eq!(f32::from_bits(NEG_INFINITY_BITS), f32::NEG_INFINITY);
}

#[test]
fn threshold_ranges_match_native_min_max() {
    let mut state: u64 = 7;
    let mut obs = Vec::new();
    for _ in 0..500 {
        state = state.wrapping_mul(6364136223846793005).wrapping_add(1442695040888963407);
        let f = (state >> 60) as usize % 4;
        let bits = (state >> 16) as u32;
        obs.push(RawSplit { feature_id: f, threshold: bits });
    }
    obs.push(raw(2, 0.0));
    obs.push(raw(2, -0.0));
    let r = threshold_ranges(&obs, 4);
    for f in 0..4 {
        let mut lo = f32::INFINITY;
        let mut hi = f32::NEG_INFINITY;
        for s in obs.iter().filter(|s| s.feature_id == f) {
            let t = f32::from_bits(s.threshold);
            if t < lo {
                lo = t;
            }
            if t > hi {
                hi = t;
            }
        }
        assert_eq!(r[f], (lo.to_bits(), hi.to_bits()), "feature {}", f);
    }
}

#[test]
fn feature_range_matches_native_scan() {
    assert_eq!(feature_range(&vec![]), (POS_INFINITY_BITS, NEG_INFINITY_BITS));
    let v: Vec<u32> = [3.0f32, -1.5, f32::NAN, 7.25, 0.0].iter().map(|x| x.to_bits()).collect();
    assert_eq!(feature_range(&v), ((-1.5f32).to_bits(), 7.25f32.to_bits()));
    let mut state: u64 = 31;
    for _ in 0..200 {
        let mut vals = Vec::new();
        for _ in 0..(state % 40) {
            state = state.wrapping_mul(6364136223846793005).wrapping_add(1442695040888963407);
            vals.push((state >> 32) as u32);
        }
        state = state.wrapping_add(17);
        let (mut lo, mut hi) = (f32::INFINITY, f32::NEG_INFINITY);
        for &b in &vals {
            let x = f32::from_bits(b);
            if x < lo {
                lo = x;
            }
            if x > hi {
                hi = x;
            }
        }
        assert_eq!(feature_range(&vals), (lo.to_bits(), hi.to_bits()));
    }
}
