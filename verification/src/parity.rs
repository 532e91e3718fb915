//! Extracting the split observations of a forest: one per internal node, in
//! node order, pooled across trees, and the range of each feature's
//! thresholds. Normalizing a threshold by its range is floating-point work
//! done by the caller.
use vstd::prelude::*;
use crate::choice::{f32_rank, lemma_widen, widen, widen_range, NEG_INFINITY_BITS, POS_INFINITY_BITS};
use crate::ir::{ForestIR, LEAF_FEATURE};
use crate::labels::is_nan_bits;

verus! {

/// One internal-node split: the chosen feature and its threshold (f32 bits).
#[derive(Debug, Clone, Copy, PartialEq, Eq, Structural)]
pub struct RawSplit {
    pub feature_id: usize,
    pub threshold: u32,
}

/// Whether node `i` contributes an observation: it is internal and its
/// feature id, read as an index, is one of the forest's features.
pub open spec fn observed(fid: i32, n_features: usize) -> bool {
    fid != LEAF_FEATURE && (fid as usize) < n_features
}

/// The observations of the first `i` nodes.
pub open spec fn splits_upto(fid: Seq<i32>, thr: Seq<u32>, n_features: usize, i: int) -> Seq<RawSplit>
    decreases i,
{
    if i <= 0 {
        Seq::empty()
    } else {
        let prev = splits_upto(fid, thr, n_features, i - 1);
        if observed(fid[i - 1], n_features) {
            prev.push(RawSplit { feature_id: fid[i - 1] as usize, threshold: thr[i - 1] })
        } else {
            prev
        }
    }
}

/// Number of nodes among the first `i` that contribute an observation.
pub open spec fn observed_count(fid: Seq<i32>, n_features: usize, i: int) -> nat
    decreases i,
{
    if i <= 0 {
        0
    } else {
        observed_count(fid, n_features, i - 1) + if observed(fid[i - 1], n_features) { 1nat } else { 0nat }
    }
}

/// Each observation comes from a node that contributes one, so there is one
/// observation per such node, and every observed feature is in range.
pub proof fn lemma_splits_count(fid: Seq<i32>, thr: Seq<u32>, n_features: usize, i: int)
    requires
        0 <= i <= fid.len(),
        thr.len() >= fid.len(),
    ensures
        splits_upto(fid, thr, n_features, i).len() == observed_count(fid, n_features, i),
        forall|k: int| 0 <= k < splits_upto(fid, thr, n_features, i).len()
            ==> #[trigger] splits_upto(fid, thr, n_features, i)[k].feature_id < n_features,
    decreases i,
{
    if i > 0 {
        lemma_splits_count(fid, thr, n_features, i - 1);
    }
}

/// The split node `j` makes: its feature id read as an index, and its
/// threshold.
pub open spec fn split_of(fid: Seq<i32>, thr: Seq<u32>, j: int) -> RawSplit {
    RawSplit { feature_id: fid[j] as usize, threshold: thr[j] }
}

/// `s` is the split of some node among the first `i` that makes an
/// observation.
pub open spec fn made_by_some_node(fid: Seq<i32>, thr: Seq<u32>, n_features: usize, i: int, s: RawSplit) -> bool {
    exists|j: int| 0 <= j < i && observed(fid[j], n_features) && s == #[trigger] split_of(fid, thr, j)
}

/// `observed_count` never decreases along the nodes.
proof fn lemma_observed_count_mono(fid: Seq<i32>, n_features: usize, a: int, b: int)
    requires
        0 <= a <= b,
    ensures
        observed_count(fid, n_features, a) <= observed_count(fid, n_features, b),
    decreases b - a,
{
    if a < b {
        lemma_observed_count_mono(fid, n_features, a, b - 1);
    }
}

/// The observations are the observing nodes' splits, unchanged and in node
/// order: node `j` that observes finds its feature and threshold at the
/// position counting the observing nodes before it, and every observation
/// is the feature and threshold of some observing node.
pub proof fn lemma_splits_are_node_splits(fid: Seq<i32>, thr: Seq<u32>, n_features: usize, i: int)
    requires
        0 <= i <= fid.len(),
        thr.len() >= fid.len(),
    ensures
        forall|j: int|
            #![trigger observed_count(fid, n_features, j)]
            0 <= j < i && observed(fid[j], n_features) ==> splits_upto(fid, thr, n_features, i)[observed_count(
                fid,
                n_features,
                j,
            ) as int] == split_of(fid, thr, j),
        forall|k: int|
            0 <= k < splits_upto(fid, thr, n_features, i).len() ==> made_by_some_node(
                fid,
                thr,
                n_features,
                i,
                #[trigger] splits_upto(fid, thr, n_features, i)[k],
            ),
    decreases i,
{
    if i > 0 {
        lemma_splits_are_node_splits(fid, thr, n_features, i - 1);
        lemma_splits_count(fid, thr, n_features, i - 1);
        let prev = splits_upto(fid, thr, n_features, i - 1);
        let cur = splits_upto(fid, thr, n_features, i);
        assert forall|j: int|
            #![trigger observed_count(fid, n_features, j)]
            0 <= j < i && observed(fid[j], n_features) implies cur[observed_count(fid, n_features, j) as int]
                == split_of(fid, thr, j) by {
            if j < i - 1 {
                lemma_observed_count_mono(fid, n_features, j + 1, i - 1);
                assert(observed_count(fid, n_features, j + 1) == observed_count(fid, n_features, j) + 1);
                assert(cur[observed_count(fid, n_features, j) as int] == prev[observed_count(fid, n_features, j) as int]);
            }
        }
        assert forall|k: int|
            0 <= k < splits_upto(fid, thr, n_features, i).len() implies made_by_some_node(
                fid,
                thr,
                n_features,
                i,
                #[trigger] splits_upto(fid, thr, n_features, i)[k],
            ) by {
            if k < prev.len() {
                assert(cur[k] == prev[k]);
                assert(made_by_some_node(fid, thr, n_features, i - 1, prev[k]));
                let j = choose|j: int|
                    0 <= j < i - 1 && observed(fid[j], n_features) && prev[k] == #[trigger] split_of(fid, thr, j);
                assert(0 <= j < i && observed(fid[j], n_features) && cur[k] == split_of(fid, thr, j));
            } else {
                assert(observed(fid[i - 1], n_features));
                assert(cur[k] == split_of(fid, thr, i - 1));
                assert(0 <= i - 1 < i && observed(fid[i - 1], n_features) && splits_upto(fid, thr, n_features, i)[k]
                    == split_of(fid, thr, i - 1));
            }
        }
    } else {
        assert(splits_upto(fid, thr, n_features, i).len() == 0);
    }
}

/// The split observations of a forest: for every internal node, in node
/// order, its feature and threshold; leaves (and nodes whose feature id is
/// not one of the forest's features) contribute none.
pub fn split_observations(ir: &ForestIR) -> (r: Vec<RawSplit>)
    requires
        ir.threshold@.len() >= ir.feature_id@.len(),
    ensures
        r@ == splits_upto(ir.feature_id@, ir.threshold@, ir.n_features, ir.feature_id@.len() as int),
        r@.len() == observed_count(ir.feature_id@, ir.n_features, ir.feature_id@.len() as int),
        forall|k: int| 0 <= k < r@.len() ==> #[trigger] r@[k].feature_id < ir.n_features,
        forall|k: int|
            0 <= k < r@.len() ==> made_by_some_node(
                ir.feature_id@,
                ir.threshold@,
                ir.n_features,
                ir.feature_id@.len() as int,
                #[trigger] r@[k],
            ),
{
    let mut out: Vec<RawSplit> = Vec::new();
    let n = ir.feature_id.len();
    let mut i: usize = 0;
    while i < n
        invariant
            n == ir.feature_id@.len(),
            ir.threshold@.len() >= n,
            i <= n,
            out@ == splits_upto(ir.feature_id@, ir.threshold@, ir.n_features, i as int),
        decreases n - i,
    {
        let fid = ir.feature_id[i];
        if fid != LEAF_FEATURE && (fid as usize) < ir.n_features {
            out.push(RawSplit { feature_id: fid as usize, threshold: ir.threshold[i] });
        }
        i = i + 1;
    }
    proof {
        lemma_splits_count(ir.feature_id@, ir.threshold@, ir.n_features, n as int);
        lemma_splits_are_node_splits(ir.feature_id@, ir.threshold@, ir.n_features, n as int);
    }
    out
}

/// The running `(min, max)` threshold of feature `f` over the first `i`
/// observations: it starts at `(+inf, -inf)`, and each observation of `f`
/// widens it by its threshold.
pub open spec fn range_upto(raw: Seq<RawSplit>, f: usize, i: int) -> (u32, u32)
    decreases i,
{
    if i <= 0 {
        (POS_INFINITY_BITS, NEG_INFINITY_BITS)
    } else {
        let prev = range_upto(raw, f, i - 1);
        let s = raw[i - 1];
        if s.feature_id != f {
            prev
        } else {
            widen(prev, s.threshold)
        }
    }
}

/// Every observation of feature `f` with a non-NaN threshold lies within the
/// feature's range: `min <= threshold <= max` as `f32` values.
pub proof fn lemma_range_brackets(raw: Seq<RawSplit>, f: usize, i: int)
    requires
        0 <= i <= raw.len(),
    ensures
        !is_nan_bits(range_upto(raw, f, i).0),
        !is_nan_bits(range_upto(raw, f, i).1),
        forall|k: int|
            0 <= k < i && (#[trigger] raw[k]).feature_id == f && !is_nan_bits(raw[k].threshold) ==> f32_rank(
                range_upto(raw, f, i).0,
            ) <= f32_rank(raw[k].threshold) <= f32_rank(range_upto(raw, f, i).1),
    decreases i,
{
    if i > 0 {
        lemma_range_brackets(raw, f, i - 1);
        lemma_widen(range_upto(raw, f, i - 1), raw[i - 1].threshold);
    } else {
        assert(!is_nan_bits(POS_INFINITY_BITS) && !is_nan_bits(NEG_INFINITY_BITS));
    }
}

/// Each bound of a feature's range is attained: the min is `+inf` (nothing
/// lowered it) or the threshold of some observation of the feature, and the
/// max likewise `-inf` or some observed threshold.
pub proof fn lemma_range_attained(raw: Seq<RawSplit>, f: usize, i: int)
    requires
        0 <= i <= raw.len(),
    ensures
        range_upto(raw, f, i).0 == POS_INFINITY_BITS || exists|k: int|
            0 <= k < i && (#[trigger] raw[k]).feature_id == f && raw[k].threshold == range_upto(raw, f, i).0,
        range_upto(raw, f, i).1 == NEG_INFINITY_BITS || exists|k: int|
            0 <= k < i && (#[trigger] raw[k]).feature_id == f && raw[k].threshold == range_upto(raw, f, i).1,
    decreases i,
{
    if i > 0 {
        lemma_range_attained(raw, f, i - 1);
        let prev = range_upto(raw, f, i - 1);
        let cur = range_upto(raw, f, i);
        if cur.0 != POS_INFINITY_BITS {
            if cur.0 == raw[i - 1].threshold && raw[i - 1].feature_id == f {
                assert(0 <= i - 1 < i && raw[i - 1].feature_id == f && raw[i - 1].threshold == cur.0);
            } else {
                assert(cur.0 == prev.0);
                let k = choose|k: int|
                    0 <= k < i - 1 && (#[trigger] raw[k]).feature_id == f && raw[k].threshold == prev.0;
                assert(0 <= k < i && raw[k].feature_id == f && raw[k].threshold == cur.0);
            }
        }
        if cur.1 != NEG_INFINITY_BITS {
            if cur.1 == raw[i - 1].threshold && raw[i - 1].feature_id == f {
                assert(0 <= i - 1 < i && raw[i - 1].feature_id == f && raw[i - 1].threshold == cur.1);
            } else {
                assert(cur.1 == prev.1);
                let k = choose|k: int|
                    0 <= k < i - 1 && (#[trigger] raw[k]).feature_id == f && raw[k].threshold == prev.1;
                assert(0 <= k < i && raw[k].feature_id == f && raw[k].threshold == cur.1);
            }
        }
    }
}

/// For each feature below `n_features`, the `(min, max)` of its observed
/// thresholds (f32 bits), scanned in observation order as `range_upto`
/// states; a feature with no observation keeps `(+inf, -inf)`.
pub fn threshold_ranges(raw: &Vec<RawSplit>, n_features: usize) -> (r: Vec<(u32, u32)>)
    requires
        forall|k: int| 0 <= k < raw@.len() ==> #[trigger] raw@[k].feature_id < n_features,
    ensures
        r@.len() == n_features,
        forall|f: int| 0 <= f < n_features ==> #[trigger] r@[f] == range_upto(raw@, f as usize, raw@.len() as int),
{
    let mut r: Vec<(u32, u32)> = Vec::new();
    let mut f: usize = 0;
    while f < n_features
        invariant
            f <= n_features,
            r@.len() == f,
            forall|g: int| 0 <= g < f ==> #[trigger] r@[g] == range_upto(raw@, g as usize, 0),
        decreases n_features - f,
    {
        r.push((POS_INFINITY_BITS, NEG_INFINITY_BITS));
        f = f + 1;
    }
    let mut i: usize = 0;
    while i < raw.len()
        invariant
            i <= raw@.len(),
            r@.len() == n_features,
            forall|k: int| 0 <= k < raw@.len() ==> #[trigger] raw@[k].feature_id < n_features,
            forall|g: int| 0 <= g < n_features ==> #[trigger] r@[g] == range_upto(raw@, g as usize, i as int),
        decreases raw@.len() - i,
    {
        let s = raw[i];
        let fid = s.feature_id;
        let (lo, hi) = r[fid];
        r.set(fid, widen_range(lo, hi, s.threshold));
        assert forall|g: int| 0 <= g < n_features implies #[trigger] r@[g] == range_upto(raw@, g as usize, i + 1) by {
            if g != fid as int {
                assert((g as usize) != fid);
            }
        }
        i = i + 1;
    }
    r
}

} // verus!
