//! Bootstrap row resampling for RandomForest: `n` row indices drawn from
//! `0..n` with replacement, each a pure function of `(seed, tree, draw)`.
//!
//! The bootstrap stream uses the counter `[tree, BOOTSTRAP_NODE_SENTINEL, 0, i]`,
//! a namespace that split draws (whose node id is below `u32::MAX`) never use.
use vstd::prelude::*;
use crate::float::{lemma_scaled_unit_brackets, scale_unit, scaled_unit, SIG};
use crate::rng::{counter_of, philox_uniform, philox_word, unit_numerator_spec};

verus! {

/// Philox node-id sentinel for bootstrap draws, distinct from any node id of
/// a split draw.
pub const BOOTSTRAP_NODE_SENTINEL: u32 = 0xFFFF_FFFF;

/// Draw `i` of the bootstrap sample of `n` rows for `tree`: the uniform draw
/// scaled to `0..n` the single-precision way, clamped to `n - 1`.
pub open spec fn bootstrap_index(n: nat, seed: u64, tree: u32, i: nat) -> nat {
    let m = unit_numerator_spec(philox_word(seed, tree, BOOTSTRAP_NODE_SENTINEL, 0, i as u32));
    let idx = scaled_unit(m as nat, n);
    if idx < n - 1 {
        idx
    } else {
        (n - 1) as nat
    }
}

/// Draw `n` row indices from `0..n` with replacement, keyed by `(seed, tree)`.
/// The result is a function of `(n, seed, tree)` alone; `n == 0` gives an
/// empty sample.
pub fn bootstrap_indices(n: usize, seed: u64, tree: u32) -> (r: Vec<usize>)
    ensures
        r@.len() == n,
        forall|i: int| 0 <= i < n ==> #[trigger] r@[i] == bootstrap_index(n as nat, seed, tree, i as nat),
        forall|i: int| 0 <= i < n ==> #[trigger] r@[i] < n,
{
    let mut out: Vec<usize> = Vec::new();
    if n == 0 {
        return out;
    }
    let mut i: usize = 0;
    while i < n
        invariant
            n >= 1,
            i <= n,
            out@.len() == i,
            forall|k: int| 0 <= k < i ==> #[trigger] out@[k] == bootstrap_index(n as nat, seed, tree, k as nat),
            forall|k: int| 0 <= k < i ==> #[trigger] out@[k] < n,
        decreases n - i,
    {
        let m = philox_uniform(seed, tree, BOOTSTRAP_NODE_SENTINEL, 0, i as u32);
        let scaled = scale_unit(m, n);
        let last = (n - 1) as u128;
        let idx: usize = if scaled < last { scaled as usize } else { n - 1 };
        out.push(idx);
        i = i + 1;
    }
    out
}

/// Draw `i` is its uniform draw `u = m / 2^24` scaled to exactly `n` rows
/// (for `n` up to `2^24`, where `n as f32` is exact): it lands in row `k` or
/// later whenever `u * n >= k`, and in row `k` or earlier whenever
/// `u * n <= k`. So a draw of at least `(n - 1) / n` lands in the last row,
/// and every row can be drawn.
pub proof fn lemma_bootstrap_index_scales_to_n(n: nat, seed: u64, tree: u32, i: nat, k: nat)
    requires
        1 <= n <= SIG,
        k < n,
    ensures
        k * SIG <= unit_numerator_spec(philox_word(seed, tree, BOOTSTRAP_NODE_SENTINEL, 0, i as u32)) * n
            ==> k <= bootstrap_index(n, seed, tree, i),
        unit_numerator_spec(philox_word(seed, tree, BOOTSTRAP_NODE_SENTINEL, 0, i as u32)) * n <= k * SIG
            ==> bootstrap_index(n, seed, tree, i) <= k,
        bootstrap_index(n, seed, tree, i) < n,
{
    let m = unit_numerator_spec(philox_word(seed, tree, BOOTSTRAP_NODE_SENTINEL, 0, i as u32));
    lemma_scaled_unit_brackets(m as nat, n, k);
}

/// A bootstrap draw never shares its counter with a split draw: split draws
/// use node ids below `u32::MAX`, the bootstrap stream uses `u32::MAX`.
pub proof fn lemma_bootstrap_namespace_disjoint(
    tree: u32,
    i: u32,
    split_tree: u32,
    node: u32,
    feature: u32,
    draw: u32,
)
    requires
        node < BOOTSTRAP_NODE_SENTINEL,
    ensures
        counter_of(tree, BOOTSTRAP_NODE_SENTINEL, 0, i) != counter_of(split_tree, node, feature, draw),
{
    assert(counter_of(tree, BOOTSTRAP_NODE_SENTINEL, 0, i)[1] != counter_of(split_tree, node, feature, draw)[1]);
}

} // verus!
