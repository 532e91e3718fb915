use std::collections::HashSet;

use sylva_core::bootstrap::{bootstrap_indices, BOOTSTRAP_NODE_SENTINEL};
use sylva_core::rng::{philox4x32_10, philox_uniform, unit_numerator};

fn unit(m: u32) -> f32 {
    m as f32 * (1.0 / 16_777_216.0)
}

#[test]
fn returns_exactly_n_indices() {
    for n in [0, 1, 5, 20, 100] {
        let indices = bootstrap_indices(n, 42, 0);
        assert_eq!(indices.len(), n, "bootstrap_indices({n}) must return exactly {n} elements");
    }
}

#[test]
fn all_indices_in_range() {
    let n = 50;
    let indices = bootstrap_indices(n, 99, 3);
    for &idx in &indices {
        assert!(idx < n, "index {idx} out of range 0..{n}");
    }
}

#[test]
fn deterministic_same_seed_same_tree() {
    let a = bootstrap_indices(30, 7, 0);
    let b = bootstrap_indices(30, 7, 0);
    assert_eq!(a, b, "same (n, seed, tree) must give identical index vector");
}

#[test]
fn different_trees_give_different_samples() {
    let a = bootstrap_indices(50, 42, 0);
    let b = bootstrap_indices(50, 42, 1);
    assert_ne!(a, b, "different tree ids must draw different bootstrap samples");
}

#[test]
fn different_seeds_give_different_samples() {
    let a = bootstrap_indices(50, 42, 0);
    let b = bootstrap_indices(50, 999, 0);
    assert_ne!(a, b, "different seeds must draw different bootstrap samples");
}

#[test]
fn distribution_roughly_uniform() {
    let n = 100;
    let indices = bootstrap_indices(n, 42, 0);
    assert_eq!(indices.len(), n);
    let mut counts = vec![0usize; n];
    for &idx in &indices {
        counts[idx] += 1;
    }
    let total: usize = counts.iter().sum();
    assert_eq!(total, n, "total draws must equal n");
}

#[test]
fn with_replacement_allows_duplicates() {
    let n = 5;
    let mut found_dup = false;
    for seed in 0..100u64 {
        let indices = bootstrap_indices(n, seed, 0);
        let unique: HashSet<_> = indices.iter().collect();
        if unique.len() < n {
            found_dup = true;
            break;
        }
    }
    assert!(found_dup, "with-replacement sampling must allow index duplicates");
}

#[test]
fn empty_n_returns_empty() {
    let indices = bootstrap_indices(0, 42, 7);
    assert!(indices.is_empty());
}

#[test]
fn n1_always_returns_zero() {
    for tree in 0..5u32 {
        let indices = bootstrap_indices(1, 42, tree);
        assert_eq!(indices, vec![0usize], "n=1 must always yield index 0");
    }
}

#[test]
fn bootstrap_node_sentinel_is_u32_max() {
    assert_eq!(
        BOOTSTRAP_NODE_SENTINEL,
        u32::MAX,
        "sentinel must be u32::MAX to avoid collision with valid node ids"
    );
}

#[test]
fn distinct_counter_namespace_from_split_draws() {
    let seed = 42u64;
    let tree = 0u32;
    let key = [seed as u32, (seed >> 32) as u32];
    let bootstrap_ctr = [tree, BOOTSTRAP_NODE_SENTINEL, 0u32, 0u32];
    let bootstrap_raw = philox4x32_10(bootstrap_ctr, key)[0];
    let split_raw = unit(philox_uniform(seed, tree, 0, 0, 0));
    let bootstrap_f = unit(unit_numerator(bootstrap_raw));
    assert_ne!(bootstrap_f, split_raw, "bootstrap and split Philox streams must not collide (T-02-12)");
}

/// Each index is the single-precision scaling of its Philox draw, exactly as
/// `((u as f32) * (n as f32)) as usize` clamped to `n - 1` computes it.
#[test]
fn indices_match_single_precision_scaling() {
    for &(n, seed, tree) in &[(7usize, 3u64, 1u32), (1000, 42, 5), (16_777_217, 9, 2), (123_456_789, 1, 0)] {
        let got = bootstrap_indices(n.min(64), seed, tree);
        let key = [seed as u32, (seed >> 32) as u32];
        for (i, &idx) in got.iter().enumerate() {
            let raw = philox4x32_10([tree, u32::MAX, 0, i as u32], key)[0];
            let u = (raw >> 8) as f32 * (1.0 / 16_777_216.0);
            let m = n.min(64);
            let expect = ((u * m as f32) as usize).min(m - 1);
            assert_eq!(idx, expect);
        }
    }
}
