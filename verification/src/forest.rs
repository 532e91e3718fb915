//! Assembling per-tree fragments into one forest, and the invariants every
//! trained forest satisfies.
use vstd::prelude::*;
use crate::config::{Criterion, Task};
use crate::error::SylvaError;
use crate::float::{f32_bits_of, round_f32};
use crate::ir::{ForestIR, LEAF_FEATURE, NO_CHILD};
use crate::tree::{leaf_count, lemma_leaf_count_bound, Link, TreeFragment, MAX_NODES};

verus! {

/// A child id moved by `shift`; the "no child" sentinel stays put.
pub open spec fn shift_child(x: i32, shift: int) -> i32 {
    if x == NO_CHILD {
        NO_CHILD
    } else {
        (x + shift) as i32
    }
}

/// A leaf slot moved by `shift`; a negative slot (internal node) becomes `-1`.
pub open spec fn shift_slot(x: i32, shift: int) -> i32 {
    if x < 0 {
        NO_CHILD
    } else {
        (x + shift) as i32
    }
}

/// Node count of the first `t` trees.
pub open spec fn nodes_before(trees: Seq<TreeFragment>, t: int) -> nat
    decreases t,
{
    if t <= 0 {
        0
    } else {
        nodes_before(trees, t - 1) + trees[t - 1].nodes()
    }
}

/// Node `i` of a trained forest: at least one sample, weighted count equal to
/// the sample count as an `f32`; a leaf has sentinel feature and children and
/// is numbered by the leaves before it; an internal node splits on a feature,
/// has two later children whose sample counts add up to its own, and routes
/// missing values to the child with more samples (the left one on a tie).
pub open spec fn forest_node_grown(ir: ForestIR, i: int) -> bool {
    let n = ir.nodes();
    let l = ir.left_child@[i];
    let r = ir.right_child@[i];
    let s = ir.node_sample_count@;
    &&& s[i] >= 1
    &&& ir.node_weighted_count@[i] == f32_bits_of(round_f32(s[i] as nat))
    &&& if ir.is_leaf@[i] {
        &&& ir.feature_id@[i] == LEAF_FEATURE
        &&& l == NO_CHILD
        &&& r == NO_CHILD
        &&& ir.default_child@[i] == NO_CHILD
        &&& ir.leaf_offset@[i] == leaf_count(ir.is_leaf@, i)
    } else {
        &&& 0 <= ir.feature_id@[i] < ir.n_features
        &&& ir.leaf_offset@[i] == -1
        &&& i < l < n
        &&& i < r < n
        &&& s[i] == s[l as int] + s[r as int]
        &&& ir.default_child@[i] == if s[l as int] >= s[r as int] { l } else { r }
    }
}

/// The invariants of a trained forest: well-formed structure, every node as
/// [`forest_node_grown`] says, one payload slot per leaf, and each tree a
/// non-empty node range starting at its root.
pub open spec fn forest_grown(ir: ForestIR) -> bool {
    let n = ir.nodes();
    let leaves = leaf_count(ir.is_leaf@, n as int);
    &&& ir.structure_ok()
    &&& n <= MAX_NODES
    &&& forall|i: int| 0 <= i < n ==> #[trigger] forest_node_grown(ir, i)
    &&& ir.leaf_value@.len() == leaves
    &&& ir.leaf_proba@.len() == match ir.task {
        Task::Classification { n_classes } => leaves * n_classes,
        Task::Regression => 0,
    }
    &&& ir.tree_root@.len() == ir.n_trees
    &&& forall|t: int| 0 <= t < ir.n_trees ==> #[trigger] ir.tree_root@[t] == ir.tree_offsets@[t]
    &&& forall|t: int| 0 <= t < ir.n_trees ==> #[trigger] ir.tree_offsets@[t] < ir.tree_offsets@[t + 1]
}

/// Append `src` to `dst`.
fn append_copy<T: Copy>(dst: &mut Vec<T>, src: &Vec<T>)
    ensures
        final(dst)@ == old(dst)@ + src@,
{
    let mut i: usize = 0;
    while i < src.len()
        invariant
            i <= src.len(),
            dst@ == old(dst)@ + src@.take(i as int),
        decreases src.len() - i,
    {
        assert(src@.take(i + 1) =~= src@.take(i as int).push(src@[i as int]));
        dst.push(src[i]);
        i = i + 1;
    }
    assert(src@.take(src.len() as int) =~= src@);
}

/// Append `src` to `dst`, moving each child id by `shift`.
fn append_children(dst: &mut Vec<i32>, src: &Vec<i32>, shift: i32)
    requires
        shift >= 0,
        forall|k: int| 0 <= k < src@.len() ==> #[trigger] src@[k] == NO_CHILD || src@[k] + shift <= i32::MAX,
    ensures
        final(dst)@ == old(dst)@ + src@.map_values(|x: i32| shift_child(x, shift as int)),
{
    let ghost target = src@.map_values(|x: i32| shift_child(x, shift as int));
    let mut i: usize = 0;
    while i < src.len()
        invariant
            i <= src.len(),
            shift >= 0,
            target == src@.map_values(|x: i32| shift_child(x, shift as int)),
            forall|k: int| 0 <= k < src@.len() ==> #[trigger] src@[k] == NO_CHILD || src@[k] + shift <= i32::MAX,
            dst@ == old(dst)@ + target.take(i as int),
        decreases src.len() - i,
    {
        assert(target.take(i + 1) =~= target.take(i as int).push(target[i as int]));
        let x = src[i];
        assert(x == NO_CHILD || x + shift <= i32::MAX);
        let y = if x == NO_CHILD { NO_CHILD } else { x + shift };
        dst.push(y);
        i = i + 1;
    }
    assert(target.take(src.len() as int) =~= target);
}

/// Append `src` to `dst`, moving each non-negative leaf slot by `shift` and
/// turning negative ones into `-1`.
fn append_slots(dst: &mut Vec<i32>, src: &Vec<i32>, shift: usize)
    requires
        forall|k: int| 0 <= k < src@.len() ==> #[trigger] src@[k] < 0 || src@[k] + shift <= i32::MAX,
    ensures
        final(dst)@ == old(dst)@ + src@.map_values(|x: i32| shift_slot(x, shift as int)),
{
    let ghost target = src@.map_values(|x: i32| shift_slot(x, shift as int));
    let mut i: usize = 0;
    while i < src.len()
        invariant
            i <= src.len(),
            target == src@.map_values(|x: i32| shift_slot(x, shift as int)),
            forall|k: int| 0 <= k < src@.len() ==> #[trigger] src@[k] < 0 || src@[k] + shift <= i32::MAX,
            dst@ == old(dst)@ + target.take(i as int),
        decreases src.len() - i,
    {
        assert(target.take(i + 1) =~= target.take(i as int).push(target[i as int]));
        let x = src[i];
        assert(x < 0 || x + shift <= i32::MAX);
        let y = if x < 0 { NO_CHILD } else { x + shift as i32 };
        dst.push(y);
        i = i + 1;
    }
    assert(target.take(src.len() as int) =~= target);
}

/// `leaf_count` over a concatenation splits at the seam.
pub proof fn lemma_leaf_count_concat(a: Seq<bool>, b: Seq<bool>, j: int)
    requires
        0 <= j <= b.len(),
    ensures
        leaf_count(a + b, a.len() + j) == leaf_count(a, a.len() as int) + leaf_count(b, j),
    decreases j,
{
    if j == 0 {
        lemma_leaf_count_prefix(a, b, a.len() as int);
    } else {
        lemma_leaf_count_concat(a, b, j - 1);
        assert((a + b)[a.len() + j - 1] == b[j - 1]);
    }
}

/// `leaf_count` of a prefix of `a` is unchanged by appending `b`.
pub proof fn lemma_leaf_count_prefix(a: Seq<bool>, b: Seq<bool>, i: int)
    requires
        0 <= i <= a.len(),
    ensures
        leaf_count(a + b, i) == leaf_count(a, i),
    decreases i,
{
    if i > 0 {
        lemma_leaf_count_prefix(a, b, i - 1);
        assert((a + b)[i - 1] == a[i - 1]);
    }
}

} // verus!

verus! {

/// Leaf values of the first `t` trees, in tree order.
pub open spec fn values_before(trees: Seq<TreeFragment>, t: int) -> Seq<u32>
    decreases t,
{
    if t <= 0 {
        Seq::empty()
    } else {
        values_before(trees, t - 1) + trees[t - 1].leaf_value@
    }
}

/// Leaf probabilities of the first `t` trees, in tree order.
pub open spec fn probas_before(trees: Seq<TreeFragment>, t: int) -> Seq<u32>
    decreases t,
{
    if t <= 0 {
        Seq::empty()
    } else {
        probas_before(trees, t - 1) + trees[t - 1].leaf_proba@
    }
}

/// `nodes_before` never decreases.
pub proof fn lemma_nodes_before_mono(trees: Seq<TreeFragment>, t: int, u: int)
    requires
        0 <= t <= u <= trees.len(),
    ensures
        nodes_before(trees, t) <= nodes_before(trees, u),
    decreases u - t,
{
    if t < u {
        lemma_nodes_before_mono(trees, t, u - 1);
    }
}

/// Node `j` of tree `t` sits at global id `nodes_before(trees, t) + j`, with
/// its child ids moved by the tree's node offset and its leaf slot moved by
/// the number of leaves in the earlier trees.
pub open spec fn placed(ir: ForestIR, trees: Seq<TreeFragment>, t: int, j: int, leaf_shift: int) -> bool {
    let f = trees[t];
    let off = nodes_before(trees, t) as int;
    let i = off + j;
    &&& ir.feature_id@[i] == f.feature_id@[j]
    &&& ir.threshold@[i] == f.threshold@[j]
    &&& ir.left_child@[i] == shift_child(f.left_child@[j], off)
    &&& ir.right_child@[i] == shift_child(f.right_child@[j], off)
    &&& ir.default_child@[i] == shift_child(f.default_child@[j], off)
    &&& ir.is_leaf@[i] == f.is_leaf@[j]
    &&& ir.node_sample_count@[i] == f.node_sample_count@[j]
    &&& ir.node_weighted_count@[i] == f.node_weighted_count@[j]
    &&& ir.impurity@[i] == f.impurity@[j]
    &&& ir.leaf_offset@[i] == shift_slot(f.leaf_offset@[j], leaf_shift)
}

/// `ir` is the forest assembled from `trees` in tree order.
pub open spec fn assembled(
    ir: ForestIR,
    trees: Seq<TreeFragment>,
    n_features: usize,
    task: Task,
    criterion: Criterion,
    seed: u64,
) -> bool {
    &&& forest_grown(ir)
    &&& ir.n_trees == trees.len()
    &&& ir.n_features == n_features
    &&& ir.task == task
    &&& ir.criterion == criterion
    &&& ir.seed == seed
    &&& forall|t: int| 0 <= t <= trees.len() ==> #[trigger] ir.tree_offsets@[t] == nodes_before(trees, t)
    &&& forall|t: int, j: int|
        0 <= t < trees.len() && 0 <= j < trees[t].nodes() ==> #[trigger] placed(
            ir,
            trees,
            t,
            j,
            leaf_count(ir.is_leaf@, nodes_before(trees, t) as int) as int,
        )
    &&& ir.leaf_value@ == values_before(trees, trees.len() as int)
    &&& ir.leaf_proba@ == probas_before(trees, trees.len() as int)
}

/// Leaf payload slots written by the first `t` trees: their probabilities
/// over the class count for a classifier, their values for a regressor.
pub open spec fn payload_before(ts: Seq<TreeFragment>, t: int, task: Task) -> nat {
    match task {
        Task::Classification { n_classes } => probas_before(ts, t).len() / (n_classes as nat),
        Task::Regression => values_before(ts, t).len(),
    }
}

/// The parts `part(0)`, ..., `part(t - 1)`, one after the other.
pub open spec fn joined<T>(t: int, part: spec_fn(int) -> Seq<T>) -> Seq<T>
    decreases t,
{
    if t <= 0 {
        Seq::empty()
    } else {
        joined(t - 1, part) + part(t - 1)
    }
}

/// The forest after the first `t` fragments were merged, whatever the
/// fragments hold: every per-node array is the fragments' arrays one after
/// the other, child and default ids moved by the nodes of the earlier trees
/// (the "no child" sentinel kept), leaf slots moved by the payload slots of
/// the earlier trees (a negative slot becoming `-1`), and payloads appended;
/// each tree starts at the node count before it.
pub open spec fn merged_upto(ir: ForestIR, ts: Seq<TreeFragment>, task: Task, t: int) -> bool {
    &&& ir.feature_id@ == joined(t, |u: int| ts[u].feature_id@)
    &&& ir.threshold@ == joined(t, |u: int| ts[u].threshold@)
    &&& ir.left_child@ == joined(
        t,
        |u: int| ts[u].left_child@.map_values(|x: i32| shift_child(x, nodes_before(ts, u) as int)),
    )
    &&& ir.right_child@ == joined(
        t,
        |u: int| ts[u].right_child@.map_values(|x: i32| shift_child(x, nodes_before(ts, u) as int)),
    )
    &&& ir.default_child@ == joined(
        t,
        |u: int| ts[u].default_child@.map_values(|x: i32| shift_child(x, nodes_before(ts, u) as int)),
    )
    &&& ir.is_leaf@ == joined(t, |u: int| ts[u].is_leaf@)
    &&& ir.node_sample_count@ == joined(t, |u: int| ts[u].node_sample_count@)
    &&& ir.node_weighted_count@ == joined(t, |u: int| ts[u].node_weighted_count@)
    &&& ir.impurity@ == joined(t, |u: int| ts[u].impurity@)
    &&& ir.leaf_offset@ == joined(
        t,
        |u: int| ts[u].leaf_offset@.map_values(|x: i32| shift_slot(x, payload_before(ts, u, task) as int)),
    )
    &&& ir.leaf_value@ == values_before(ts, t)
    &&& ir.leaf_proba@ == probas_before(ts, t)
    &&& ir.tree_offsets@.len() == t + 1
    &&& forall|u: int| 0 <= u <= t ==> #[trigger] ir.tree_offsets@[u] == nodes_before(ts, u)
    &&& ir.tree_root@.len() == t
    &&& forall|u: int| 0 <= u < t ==> #[trigger] ir.tree_root@[u] == nodes_before(ts, u)
}

/// `ir` is the merge of the fragments `ts` in order, with the given header.
pub open spec fn merged(
    ir: ForestIR,
    ts: Seq<TreeFragment>,
    n_features: usize,
    task: Task,
    criterion: Criterion,
    seed: u64,
) -> bool {
    &&& merged_upto(ir, ts, task, ts.len() as int)
    &&& ir.n_trees == ts.len()
    &&& ir.n_features == n_features
    &&& ir.task == task
    &&& ir.criterion == criterion
    &&& ir.seed == seed
}

/// Moving every child id and leaf slot of the fragments stays within `i32`.
pub open spec fn shifts_fit(ts: Seq<TreeFragment>, task: Task) -> bool {
    forall|t: int|
        0 <= t < ts.len() ==> {
            let f = #[trigger] ts[t];
            let off = nodes_before(ts, t) as int;
            let ls = payload_before(ts, t, task) as int;
            &&& forall|k: int|
                0 <= k < f.left_child@.len() ==> #[trigger] f.left_child@[k] == NO_CHILD || f.left_child@[k] + off
                    <= i32::MAX
            &&& forall|k: int|
                0 <= k < f.right_child@.len() ==> #[trigger] f.right_child@[k] == NO_CHILD || f.right_child@[k] + off
                    <= i32::MAX
            &&& forall|k: int|
                0 <= k < f.default_child@.len() ==> #[trigger] f.default_child@[k] == NO_CHILD || f.default_child@[k]
                    + off <= i32::MAX
            &&& forall|k: int| 0 <= k < f.leaf_offset@.len() ==> #[trigger] f.leaf_offset@[k] < 0 || f.leaf_offset@[k] + ls <= i32::MAX
        }
}

/// Every fragment is a finished tree splitting on features below `n_features`.
pub open spec fn all_finished(ts: Seq<TreeFragment>, task: Task, n_features: usize) -> bool {
    forall|t: int| 0 <= t < ts.len() ==> #[trigger] ts[t].grown(task) && ts[t].features_below(n_features)
}

/// Two merges of the same fragments agree in every array and field, and so
/// in their first structural fault.
pub proof fn lemma_merge_determined(
    a: ForestIR,
    b: ForestIR,
    ts: Seq<TreeFragment>,
    n_features: usize,
    task: Task,
    criterion: Criterion,
    seed: u64,
)
    requires
        merged(a, ts, n_features, task, criterion, seed),
        merged(b, ts, n_features, task, criterion, seed),
    ensures
        same_forest(a, b),
        a.structure_fault() == b.structure_fault(),
{
    assert(a.tree_offsets@ =~= b.tree_offsets@);
    assert(a.tree_root@ =~= b.tree_root@);
    lemma_node_fault_from_same(a, b, 0);
}

/// Forests with the same views have the same node faults from `i` on.
proof fn lemma_node_fault_from_same(a: ForestIR, b: ForestIR, i: int)
    requires
        same_forest(a, b),
    ensures
        a.node_fault_from(i) == b.node_fault_from(i),
    decreases a.nodes() - i,
{
    if 0 <= i < a.nodes() {
        assert(a.node_fault(i) == b.node_fault(i));
        lemma_node_fault_from_same(a, b, i + 1);
    }
}

/// The forest after the first `t` trees of `ts` were merged into it.
pub open spec fn assembly_inv(ir: ForestIR, ts: Seq<TreeFragment>, t: int) -> bool {
    let n = ir.nodes();
    let leaves = leaf_count(ir.is_leaf@, n as int);
    &&& ir.lengths_agree()
    &&& n == nodes_before(ts, t)
    &&& ir.tree_offsets@.len() == t + 1
    &&& (forall|u: int| 0 <= u <= t ==> #[trigger] ir.tree_offsets@[u] == nodes_before(ts, u))
    &&& ir.tree_root@.len() == t
    &&& (forall|u: int| 0 <= u < t ==> #[trigger] ir.tree_root@[u] == nodes_before(ts, u))
    &&& ir.leaf_value@ == values_before(ts, t)
    &&& ir.leaf_proba@ == probas_before(ts, t)
    &&& ir.leaf_value@.len() == leaves
    &&& ir.leaf_proba@.len() == match ir.task {
        Task::Classification { n_classes } => leaves * n_classes,
        Task::Regression => 0,
    }
    &&& (forall|i: int| 0 <= i < n ==> #[trigger] forest_node_grown(ir, i))
    &&& (forall|u: int, j: int|
        0 <= u < t && 0 <= j < ts[u].nodes() ==> #[trigger] placed(
            ir,
            ts,
            u,
            j,
            leaf_count(ir.is_leaf@, nodes_before(ts, u) as int) as int,
        ))
}

/// `new` is `old` with fragment `f` appended at node offset `off` and leaf
/// offset `ls`.
pub open spec fn appended_tree(old: ForestIR, new: ForestIR, f: TreeFragment, off: int, ls: int) -> bool {
    &&& new.feature_id@ == old.feature_id@ + f.feature_id@
    &&& new.threshold@ == old.threshold@ + f.threshold@
    &&& new.left_child@ == old.left_child@ + f.left_child@.map_values(|x: i32| shift_child(x, off))
    &&& new.right_child@ == old.right_child@ + f.right_child@.map_values(|x: i32| shift_child(x, off))
    &&& new.default_child@ == old.default_child@ + f.default_child@.map_values(|x: i32| shift_child(x, off))
    &&& new.is_leaf@ == old.is_leaf@ + f.is_leaf@
    &&& new.node_sample_count@ == old.node_sample_count@ + f.node_sample_count@
    &&& new.node_weighted_count@ == old.node_weighted_count@ + f.node_weighted_count@
    &&& new.impurity@ == old.impurity@ + f.impurity@
    &&& new.leaf_offset@ == old.leaf_offset@ + f.leaf_offset@.map_values(|x: i32| shift_slot(x, ls))
    &&& new.leaf_value@ == old.leaf_value@ + f.leaf_value@
    &&& new.leaf_proba@ == old.leaf_proba@ + f.leaf_proba@
    &&& new.tree_root@ == old.tree_root@.push(off as i32)
    &&& new.tree_offsets@ == old.tree_offsets@.push((off + f.nodes()) as usize)
    &&& new.n_trees == old.n_trees
    &&& new.n_features == old.n_features
    &&& new.task == old.task
    &&& new.criterion == old.criterion
    &&& new.seed == old.seed
}

/// Appending a grown tree keeps the assembly invariant.
#[verifier::rlimit(100)]
#[verifier::spinoff_prover]
proof fn lemma_assemble_step(
    old: ForestIR,
    new: ForestIR,
    ts: Seq<TreeFragment>,
    t: int,
    off: int,
    ls: int,
)
    requires
        0 <= t < ts.len(),
        ts[t].grown(old.task),
        ts[t].features_below(old.n_features),
        nodes_before(ts, ts.len() as int) <= MAX_NODES,
        old.task matches Task::Classification { n_classes } ==> n_classes >= 1,
        assembly_inv(old, ts, t),
        off == old.nodes(),
        ls == leaf_count(old.is_leaf@, off),
        appended_tree(old, new, ts[t], off, ls),
    ensures
        assembly_inv(new, ts, t + 1),
{
    let f = ts[t];
    let nf = f.nodes() as int;
    let n2 = new.nodes() as int;
    lemma_nodes_before_mono(ts, t + 1, ts.len() as int);
    assert(n2 == off + nf);
    assert(nodes_before(ts, t + 1) == off + nf);
    lemma_leaf_count_concat(old.is_leaf@, f.is_leaf@, nf);
    assert(old.is_leaf@.len() == off);
    assert forall|i: int| 0 <= i < n2 implies #[trigger] forest_node_grown(new, i) by {
        if i < off {
            assert(forest_node_grown(old, i));
            lemma_leaf_count_prefix(old.is_leaf@, f.is_leaf@, i);
            assert(new.left_child@[i] == old.left_child@[i]);
            assert(new.right_child@[i] == old.right_child@[i]);
            assert(new.is_leaf@[i] == old.is_leaf@[i]);
            assert(new.node_sample_count@[i] == old.node_sample_count@[i]);
            if !old.is_leaf@[i] {
                let l = old.left_child@[i] as int;
                let r = old.right_child@[i] as int;
                assert(new.node_sample_count@[l] == old.node_sample_count@[l]);
                assert(new.node_sample_count@[r] == old.node_sample_count@[r]);
            }
        } else {
            let j = i - off;
            assert(f.node_grown(j));
            if !f.is_leaf@[j] {
                assert(0 <= f.feature_id@[j] < old.n_features);
            }
            lemma_leaf_count_concat(old.is_leaf@, f.is_leaf@, j);
            assert(new.is_leaf@[i] == f.is_leaf@[j]);
            assert(new.node_sample_count@[i] == f.node_sample_count@[j]);
            assert(new.left_child@[i] == shift_child(f.left_child@[j], off));
            assert(new.right_child@[i] == shift_child(f.right_child@[j], off));
            assert(new.default_child@[i] == shift_child(f.default_child@[j], off));
            assert(new.leaf_offset@[i] == shift_slot(f.leaf_offset@[j], ls));
            assert(new.feature_id@[i] == f.feature_id@[j]);
            assert(new.node_weighted_count@[i] == f.node_weighted_count@[j]);
            if f.is_leaf@[j] {
                lemma_leaf_count_bound(f.is_leaf@, j);
                lemma_leaf_count_bound(old.is_leaf@, off);
            } else {
                let l = f.left_child@[j] as int;
                let r = f.right_child@[j] as int;
                assert(new.node_sample_count@[off + l] == f.node_sample_count@[l]);
                assert(new.node_sample_count@[off + r] == f.node_sample_count@[r]);
            }
        }
    }
    assert forall|u: int, j: int| 0 <= u < t + 1 && 0 <= j < ts[u].nodes() implies #[trigger] placed(
        new,
        ts,
        u,
        j,
        leaf_count(new.is_leaf@, nodes_before(ts, u) as int) as int,
    ) by {
        let ou = nodes_before(ts, u) as int;
        if u < t {
            lemma_nodes_before_mono(ts, u + 1, t);
            assert(placed(old, ts, u, j, leaf_count(old.is_leaf@, ou) as int));
            lemma_leaf_count_prefix(old.is_leaf@, f.is_leaf@, ou);
        } else {
            lemma_leaf_count_prefix(old.is_leaf@, f.is_leaf@, off);
        }
    }
    let leaves2 = leaf_count(new.is_leaf@, n2);
    match old.task {
        Task::Classification { n_classes } => {
            let l1 = leaf_count(old.is_leaf@, off);
            let lf = leaf_count(f.is_leaf@, nf);
            assert((l1 + lf) * n_classes == l1 * n_classes + lf * n_classes) by (nonlinear_arith);
        },
        Task::Regression => {},
    }
    assert(nodes_before(ts, t + 1) == nodes_before(ts, t) + f.nodes());
    assert(nodes_before(ts, t + 1) == nodes_before(ts, t) + f.nodes());
    assert(old.tree_offsets@.len() == t + 1);
    assert(new.tree_offsets@[t + 1] == nodes_before(ts, t + 1));
}

/// After all trees were merged, the forest is assembled from them.
proof fn lemma_assembled_final(ir: ForestIR, ts: Seq<TreeFragment>, task: Task)
    requires
        assembly_inv(ir, ts, ts.len() as int),
        ir.n_trees == ts.len(),
        ir.task == task,
        forall|u: int| 0 <= u < ts.len() ==> #[trigger] ts[u].grown(task),
        nodes_before(ts, ts.len() as int) <= MAX_NODES,
    ensures
        forest_grown(ir),
        forall|t: int| 0 <= t <= ts.len() ==> #[trigger] ir.tree_offsets@[t] == nodes_before(ts, t),
{
    let n = ir.nodes();
    assert forall|i: int| 0 <= i < n implies #[trigger] ir.node_ok(i) by {
        assert(forest_node_grown(ir, i));
    }
    assert forall|t: int| 0 <= t < ir.tree_offsets@.len() - 1 implies #[trigger] ir.tree_offsets@[t]
        <= ir.tree_offsets@[t + 1] by {
        assert(ts[t].grown(task));
    }
    assert forall|t: int| 0 <= t < ir.n_trees implies #[trigger] ir.tree_offsets@[t] < ir.tree_offsets@[t + 1] by {
        assert(ts[t].grown(task));
        assert(ir.tree_offsets@[t + 1] == nodes_before(ts, t + 1));
    }
    assert forall|t: int| 0 <= t < ir.n_trees implies #[trigger] ir.tree_root@[t] == ir.tree_offsets@[t] by {
        assert(ir.tree_offsets@[t] == nodes_before(ts, t));
        lemma_nodes_before_mono(ts, t, ts.len() as int);
    }
}

/// Merge per-tree fragments into one forest in tree order: node ids are moved
/// by the nodes of the earlier trees, leaf slots by the payload slots already
/// written, and the result is checked structurally. The merge is `Ok` exactly
/// when it passes [`ForestIR::validate_structure`], and `InvalidIr` with the
/// message of its first fault otherwise; merging finished trees always
/// passes and gives the assembled forest.
#[verifier::rlimit(100)]
#[verifier::spinoff_prover]
pub fn assemble_forest(
    trees: Vec<TreeFragment>,
    n_features: usize,
    task: Task,
    criterion: Criterion,
    seed: u64,
) -> (r: Result<ForestIR, SylvaError>)
    requires
        nodes_before(trees@, trees@.len() as int) <= MAX_NODES,
        task matches Task::Classification { n_classes } ==> n_classes >= 1,
        shifts_fit(trees@, task),
    ensures
        r is Err <==> exists|ir: ForestIR|
            #[trigger] merged(ir, trees@, n_features, task, criterion, seed) && ir.structure_fault() is Some,
        r matches Ok(ir) ==> merged(ir, trees@, n_features, task, criterion, seed) && ir.structure_fault() is None,
        r matches Err(e) ==> (e matches SylvaError::InvalidIr(m) && exists|ir: ForestIR|
            #[trigger] merged(ir, trees@, n_features, task, criterion, seed) && ir.structure_fault() == Some(m@)),
        all_finished(trees@, task, n_features) ==> (r matches Ok(ir) && assembled(
            ir,
            trees@,
            n_features,
            task,
            criterion,
            seed,
        )),
{
    let n_trees = trees.len();
    let mut ir = ForestIR {
        feature_id: Vec::new(),
        threshold: Vec::new(),
        left_child: Vec::new(),
        right_child: Vec::new(),
        default_child: Vec::new(),
        is_leaf: Vec::new(),
        node_sample_count: Vec::new(),
        node_weighted_count: Vec::new(),
        impurity: Vec::new(),
        leaf_value: Vec::new(),
        leaf_proba: Vec::new(),
        leaf_offset: Vec::new(),
        tree_offsets: Vec::new(),
        tree_root: Vec::new(),
        n_trees,
        n_features,
        task,
        criterion,
        seed,
    };
    ir.tree_offsets.push(0);
    let ghost ts = trees@;
    let ghost fin = all_finished(ts, task, n_features);
    assert(ir.lengths_agree());
    assert(ir.leaf_value@ =~= values_before(ts, 0));
    assert(ir.leaf_proba@ =~= probas_before(ts, 0));
    assert(leaf_count(ir.is_leaf@, 0) == 0);
    assert(ir.tree_offsets@[0] == nodes_before(ts, 0));
    assert(merged_upto(ir, ts, task, 0));
    let mut t: usize = 0;
    while t < n_trees
        invariant
            ts == trees@,
            n_trees == ts.len(),
            0 <= t <= n_trees,
            fin == all_finished(ts, task, n_features),
            nodes_before(ts, ts.len() as int) <= MAX_NODES,
            task matches Task::Classification { n_classes } ==> n_classes >= 1,
            shifts_fit(ts, task),
            ir.n_trees == n_trees,
            ir.n_features == n_features,
            ir.task == task,
            ir.criterion == criterion,
            ir.seed == seed,
            ir.feature_id@.len() == nodes_before(ts, t as int),
            merged_upto(ir, ts, task, t as int),
            fin ==> assembly_inv(ir, ts, t as int),
        decreases n_trees - t,
    {
        let frag = &trees[t];
        let ghost old_ir = ir;
        let offset = ir.feature_id.len();
        proof {
            lemma_nodes_before_mono(ts, t + 1, ts.len() as int);
            assert(ts[t as int] == *frag);
        }
        let leaf_shift = match task {
            Task::Classification { n_classes } => ir.leaf_proba.len() / n_classes,
            Task::Regression => ir.leaf_value.len(),
        };
        assert(leaf_shift == payload_before(ts, t as int, task));
        proof {
            if fin {
                assert(frag.grown(task));
                assert(frag.features_below(n_features));
                lemma_leaf_count_bound(ir.is_leaf@, offset as int);
                match task {
                    Task::Classification { n_classes } => {
                        let lv = leaf_count(ir.is_leaf@, offset as int);
                        let k = n_classes as nat;
                        assert((lv * k) / k == lv) by (nonlinear_arith)
                            requires k >= 1;
                    },
                    Task::Regression => {},
                }
                assert(leaf_shift == leaf_count(old_ir.is_leaf@, offset as int));
            }
        }
        append_children(&mut ir.left_child, &frag.left_child, offset as i32);
        append_children(&mut ir.right_child, &frag.right_child, offset as i32);
        append_children(&mut ir.default_child, &frag.default_child, offset as i32);
        append_slots(&mut ir.leaf_offset, &frag.leaf_offset, leaf_shift);
        append_copy(&mut ir.feature_id, &frag.feature_id);
        append_copy(&mut ir.threshold, &frag.threshold);
        append_copy(&mut ir.is_leaf, &frag.is_leaf);
        append_copy(&mut ir.node_sample_count, &frag.node_sample_count);
        append_copy(&mut ir.node_weighted_count, &frag.node_weighted_count);
        append_copy(&mut ir.impurity, &frag.impurity);
        append_copy(&mut ir.leaf_value, &frag.leaf_value);
        append_copy(&mut ir.leaf_proba, &frag.leaf_proba);
        ir.tree_root.push(offset as i32);
        let end = ir.feature_id.len();
        ir.tree_offsets.push(end);
        proof {
            lemma_merge_step(old_ir, ir, ts, task, t as int);
            if fin {
                assert(appended_tree(old_ir, ir, ts[t as int], offset as int, leaf_shift as int));
                lemma_assemble_step(old_ir, ir, ts, t as int, offset as int, leaf_shift as int);
            }
        }
        t = t + 1;
    }
    proof {
        if fin {
            lemma_assembled_final(ir, ts, task);
        }
    }
    let ghost merged_ir = ir;
    assert(merged(merged_ir, ts, n_features, task, criterion, seed));
    match ir.validate_structure() {
        Ok(()) => {
            assert forall|other: ForestIR| #[trigger]
                merged(other, ts, n_features, task, criterion, seed) implies other.structure_fault() is None by {
                lemma_merge_determined(other, merged_ir, ts, n_features, task, criterion, seed);
            }
            Ok(ir)
        },
        Err(e) => {
            assert(e matches SylvaError::InvalidIr(m) && merged(merged_ir, ts, n_features, task, criterion, seed)
                && merged_ir.structure_fault() == Some(m@));
            Err(e)
        },
    }
}

/// One merge step: appending fragment `t` as the loop does extends the
/// merge of the first `t` fragments to the first `t + 1`.
proof fn lemma_merge_step(old: ForestIR, new: ForestIR, ts: Seq<TreeFragment>, task: Task, t: int)
    requires
        0 <= t < ts.len(),
        merged_upto(old, ts, task, t),
        old.feature_id@.len() == nodes_before(ts, t),
        nodes_before(ts, t + 1) <= MAX_NODES,
        appended_tree(old, new, ts[t], nodes_before(ts, t) as int, payload_before(ts, t, task) as int),
    ensures
        merged_upto(new, ts, task, t + 1),
{
    let f = ts[t];
    assert(new.feature_id@ =~= joined(t + 1, |u: int| ts[u].feature_id@));
    assert(new.threshold@ =~= joined(t + 1, |u: int| ts[u].threshold@));
    assert(new.left_child@ =~= joined(
        t + 1,
        |u: int| ts[u].left_child@.map_values(|x: i32| shift_child(x, nodes_before(ts, u) as int)),
    ));
    assert(new.right_child@ =~= joined(
        t + 1,
        |u: int| ts[u].right_child@.map_values(|x: i32| shift_child(x, nodes_before(ts, u) as int)),
    ));
    assert(new.default_child@ =~= joined(
        t + 1,
        |u: int| ts[u].default_child@.map_values(|x: i32| shift_child(x, nodes_before(ts, u) as int)),
    ));
    assert(new.is_leaf@ =~= joined(t + 1, |u: int| ts[u].is_leaf@));
    assert(new.node_sample_count@ =~= joined(t + 1, |u: int| ts[u].node_sample_count@));
    assert(new.node_weighted_count@ =~= joined(t + 1, |u: int| ts[u].node_weighted_count@));
    assert(new.impurity@ =~= joined(t + 1, |u: int| ts[u].impurity@));
    assert(new.leaf_offset@ =~= joined(
        t + 1,
        |u: int| ts[u].leaf_offset@.map_values(|x: i32| shift_slot(x, payload_before(ts, u, task) as int)),
    ));
    assert(new.leaf_value@ =~= values_before(ts, t + 1));
    assert(new.leaf_proba@ =~= probas_before(ts, t + 1));
    assert(nodes_before(ts, t + 1) == nodes_before(ts, t) + f.nodes());
    assert(old.tree_offsets@.len() == t + 1);
    assert(new.tree_offsets@[t + 1] == nodes_before(ts, t + 1));
    assert forall|u: int| 0 <= u <= t + 1 implies #[trigger] new.tree_offsets@[u] == nodes_before(ts, u) by {
        if u <= t {
            assert(new.tree_offsets@[u] == old.tree_offsets@[u]);
        }
    }
    assert forall|u: int| 0 <= u < t + 1 implies #[trigger] new.tree_root@[u] == nodes_before(ts, u) by {
        if u < t {
            assert(new.tree_root@[u] == old.tree_root@[u]);
        }
    }
}

/// Every global node id below the total node count falls in exactly the
/// range of some tree `t`.
proof fn lemma_node_in_some_tree(trees: Seq<TreeFragment>, i: int, u: int) -> (t: int)
    requires
        0 <= u <= trees.len(),
        0 <= i < nodes_before(trees, u),
    ensures
        0 <= t < u,
        nodes_before(trees, t) <= i < nodes_before(trees, t) + trees[t].nodes(),
    decreases u,
{
    if i < nodes_before(trees, u - 1) {
        lemma_node_in_some_tree(trees, i, u - 1)
    } else {
        u - 1
    }
}

/// The same views of every per-node, per-leaf and per-tree array, and the
/// same header.
pub open spec fn same_forest(a: ForestIR, b: ForestIR) -> bool {
    &&& a.feature_id@ == b.feature_id@
    &&& a.threshold@ == b.threshold@
    &&& a.left_child@ == b.left_child@
    &&& a.right_child@ == b.right_child@
    &&& a.default_child@ == b.default_child@
    &&& a.is_leaf@ == b.is_leaf@
    &&& a.node_sample_count@ == b.node_sample_count@
    &&& a.node_weighted_count@ == b.node_weighted_count@
    &&& a.impurity@ == b.impurity@
    &&& a.leaf_value@ == b.leaf_value@
    &&& a.leaf_proba@ == b.leaf_proba@
    &&& a.leaf_offset@ == b.leaf_offset@
    &&& a.tree_offsets@ == b.tree_offsets@
    &&& a.tree_root@ == b.tree_root@
    &&& a.n_trees == b.n_trees
    &&& a.n_features == b.n_features
    &&& a.task == b.task
    &&& a.criterion == b.criterion
    &&& a.seed == b.seed
}

/// A forest is determined by its trees, in order, and its header: two
/// forests assembled from the same trees with the same parameters agree in
/// every array and field. Whatever order the trees were grown in, the
/// forest only depends on the sequence they are handed over in.
#[verifier::spinoff_prover]
#[verifier::rlimit(30)]
pub proof fn lemma_assembly_determined(
    a: ForestIR,
    b: ForestIR,
    trees: Seq<TreeFragment>,
    n_features: usize,
    task: Task,
    criterion: Criterion,
    seed: u64,
)
    requires
        assembled(a, trees, n_features, task, criterion, seed),
        assembled(b, trees, n_features, task, criterion, seed),
    ensures
        same_forest(a, b),
{
    let n_t = trees.len() as int;
    let n = nodes_before(trees, n_t);
    assert(a.tree_offsets@[n_t] == n && b.tree_offsets@[n_t] == n);
    assert(a.nodes() == n && b.nodes() == n);
    assert(a.tree_offsets@ =~= b.tree_offsets@);
    assert(a.tree_root@ =~= b.tree_root@) by {
        assert forall|t: int| 0 <= t < n_t implies a.tree_root@[t] == b.tree_root@[t] by {
            assert(a.tree_root@[t] == a.tree_offsets@[t]);
            assert(b.tree_root@[t] == b.tree_offsets@[t]);
        }
    }
    assert forall|i: int| 0 <= i < n implies a.is_leaf@[i] == b.is_leaf@[i] && a.feature_id@[i]
        == b.feature_id@[i] && a.threshold@[i] == b.threshold@[i] && a.left_child@[i] == b.left_child@[i]
        && a.right_child@[i] == b.right_child@[i] && a.default_child@[i] == b.default_child@[i]
        && a.node_sample_count@[i] == b.node_sample_count@[i] && a.node_weighted_count@[i]
        == b.node_weighted_count@[i] && a.impurity@[i] == b.impurity@[i] by {
        let t = lemma_node_in_some_tree(trees, i, n_t);
        let j = i - nodes_before(trees, t);
        assert(placed(a, trees, t, j, leaf_count(a.is_leaf@, nodes_before(trees, t) as int) as int));
        assert(placed(b, trees, t, j, leaf_count(b.is_leaf@, nodes_before(trees, t) as int) as int));
    }
    assert(a.is_leaf@ =~= b.is_leaf@);
    assert forall|i: int| 0 <= i < n implies a.leaf_offset@[i] == b.leaf_offset@[i] by {
        let t = lemma_node_in_some_tree(trees, i, n_t);
        let j = i - nodes_before(trees, t);
        assert(placed(a, trees, t, j, leaf_count(a.is_leaf@, nodes_before(trees, t) as int) as int));
        assert(placed(b, trees, t, j, leaf_count(b.is_leaf@, nodes_before(trees, t) as int) as int));
    }
    assert(a.feature_id@ =~= b.feature_id@);
    assert(a.threshold@ =~= b.threshold@);
    assert(a.left_child@ =~= b.left_child@);
    assert(a.right_child@ =~= b.right_child@);
    assert(a.default_child@ =~= b.default_child@);
    assert(a.node_sample_count@ =~= b.node_sample_count@);
    assert(a.node_weighted_count@ =~= b.node_weighted_count@);
    assert(a.impurity@ =~= b.impurity@);
    assert(a.leaf_offset@ =~= b.leaf_offset@);
}

/// Every forest assembled from grown trees is well formed, so
/// [`ForestIR::validate_structure`] accepts it.
pub proof fn lemma_assembled_forest_is_valid(
    ir: ForestIR,
    trees: Seq<TreeFragment>,
    n_features: usize,
    task: Task,
    criterion: Criterion,
    seed: u64,
)
    requires
        assembled(ir, trees, n_features, task, criterion, seed),
    ensures
        ir.structure_ok(),
{
}

/// Every node of a tree other than its root is the left or right child of
/// an earlier node of the same tree: each tree's node range is one tree
/// hanging from its root.
pub open spec fn forest_connected(ir: ForestIR) -> bool {
    forall|t: int, i: int|
        0 <= t < ir.n_trees && ir.tree_offsets@[t] < i < ir.tree_offsets@[t + 1] ==> #[trigger] has_parent_from(
            ir,
            ir.tree_offsets@[t] as int,
            i,
        )
}

/// Node `i` is the left or right child of some node `p` with `lo <= p < i`.
pub open spec fn has_parent_from(ir: ForestIR, lo: int, i: int) -> bool {
    exists|p: int| lo <= p < i && (#[trigger] ir.left_child@[p] == i || ir.right_child@[p] == i)
}

/// A forest assembled from trees whose nodes each hang from an earlier node
/// (as [`TreeFragment::one_tree`] states, which every finished tree
/// satisfies) keeps each tree connected below its root.
pub proof fn lemma_assembled_forest_connected(
    ir: ForestIR,
    trees: Seq<TreeFragment>,
    n_features: usize,
    task: Task,
    criterion: Criterion,
    seed: u64,
)
    requires
        assembled(ir, trees, n_features, task, criterion, seed),
        forall|t: int| 0 <= t < trees.len() ==> #[trigger] trees[t].one_tree(),
    ensures
        forest_connected(ir),
{
    lemma_connected_from_placement(ir, trees);
}

/// Connectivity carried over node by node from the trees' parent slots.
#[verifier::spinoff_prover]
proof fn lemma_connected_from_placement(ir: ForestIR, trees: Seq<TreeFragment>)
    requires
        ir.n_trees == trees.len(),
        nodes_before(trees, trees.len() as int) <= MAX_NODES,
        forall|t: int| 0 <= t <= trees.len() ==> #[trigger] ir.tree_offsets@[t] == nodes_before(trees, t),
        forall|t: int, j: int|
            0 <= t < trees.len() && 0 <= j < trees[t].nodes() ==> #[trigger] placed(
                ir,
                trees,
                t,
                j,
                leaf_count(ir.is_leaf@, nodes_before(trees, t) as int) as int,
            ),
        forall|t: int| 0 <= t < trees.len() ==> #[trigger] trees[t].one_tree(),
    ensures
        forest_connected(ir),
{
    assert forall|t: int, i: int|
        0 <= t < ir.n_trees && ir.tree_offsets@[t] < i < ir.tree_offsets@[t + 1] implies #[trigger] has_parent_from(
            ir,
            ir.tree_offsets@[t] as int,
            i,
        ) by {
        let f = trees[t];
        let off = nodes_before(trees, t) as int;
        assert(ir.tree_offsets@[t] == off);
        assert(ir.tree_offsets@[t + 1] == nodes_before(trees, t + 1));
        let j = i - off;
        assert(0 < j < f.nodes());
        lemma_nodes_before_mono(trees, t + 1, trees.len() as int);
        assert(i < MAX_NODES);
        assert(f.one_tree());
        let links = choose|links: Seq<Link>| f.links_ok(links);
        assert(f.links_ok(links));
        let lk = links[j];
        let ls = leaf_count(ir.is_leaf@, off) as int;
        match lk {
            Link::Root => {},
            Link::Left(q) => {
                assert(q < j && f.left_child@[q as int] == j);
                assert(placed(ir, trees, t, q as int, ls));
                assert(ir.left_child@[off + q] == i);
                assert(ir.left_child@[off + q] == i || ir.right_child@[off + q] == i);
            },
            Link::Right(q) => {
                assert(q < j && f.right_child@[q as int] == j);
                assert(placed(ir, trees, t, q as int, ls));
                assert(ir.right_child@[off + q] == i);
                assert(ir.left_child@[off + q] == i || ir.right_child@[off + q] == i);
            },
        }
    }
}

} // verus!
