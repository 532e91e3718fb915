//! The integer side of split search: which features a node examines, the
//! range of a feature's values at a node, the class tallies that impurities
//! are computed from, and a classifier leaf's probabilities.
use vstd::prelude::*;
use crate::float::{
    f32_quotient, f32_quotient_bits, lemma_log2_bounds, lemma_round_f32_positive, lemma_two_pow_23,
    lemma_two_pow_mono, log2_floor, two_pow, quotient_den, quotient_exponent, quotient_num, round_f32,
    round_f32_exact, scale_unit, scaled_unit, lemma_scaled_unit_brackets, SIG,
};
use crate::choice::{f32_rank, lemma_widen, widen, widen_range, NEG_INFINITY_BITS, POS_INFINITY_BITS};
use crate::labels::is_nan_bits;
use crate::rng::{philox_uniform, philox_word, unit_numerator_spec};

verus! {

/// Philox draw index used when drawing a feature's split threshold.
pub const DRAW_THRESHOLD: u32 = 0;
/// Philox draw index used when drawing the feature-subset permutation.
pub const DRAW_FEATURE_SELECT: u32 = 1;

/// The position swapped with position `i` at step `i` of the shuffle of
/// `0..n`: `i` plus the step's uniform draw scaled to the `n - i` remaining
/// positions, clamped to `n - 1`.
pub open spec fn swap_target(n: nat, seed: u64, tree: u32, node: u32, i: nat) -> nat {
    let m = unit_numerator_spec(philox_word(seed, tree, node, i as u32, DRAW_FEATURE_SELECT));
    let j = i + scaled_unit(m as nat, (n - i) as nat);
    if j < n - 1 {
        j
    } else {
        (n - 1) as nat
    }
}

/// Step `i` of the shuffle of `0..n` (for `n` up to `2^24`) swaps position
/// `i` with a position in `i..n` chosen by the step's uniform draw
/// `u = m / 2^24` scaled to exactly the `n - i` remaining positions: position
/// `i + k` or later whenever `u * (n - i) >= k`, and `i + k` or earlier
/// whenever `u * (n - i) <= k`. So every remaining position, the last one
/// included, can be the swap target.
pub proof fn lemma_swap_target_scales(n: nat, seed: u64, tree: u32, node: u32, i: nat, k: nat)
    requires
        i < n <= SIG,
        k < n - i,
    ensures
        k * SIG <= unit_numerator_spec(philox_word(seed, tree, node, i as u32, DRAW_FEATURE_SELECT)) * (n - i)
            ==> i + k <= swap_target(n, seed, tree, node, i),
        unit_numerator_spec(philox_word(seed, tree, node, i as u32, DRAW_FEATURE_SELECT)) * (n - i) <= k * SIG
            ==> swap_target(n, seed, tree, node, i) <= i + k,
        i <= swap_target(n, seed, tree, node, i) < n,
{
    let m = unit_numerator_spec(philox_word(seed, tree, node, i as u32, DRAW_FEATURE_SELECT));
    lemma_scaled_unit_brackets(m as nat, (n - i) as nat, k);
}

/// The feature order after the first `steps` Fisher-Yates steps.
pub open spec fn feature_order(n: nat, seed: u64, tree: u32, node: u32, steps: nat) -> Seq<usize>
    decreases steps,
{
    if steps == 0 {
        Seq::new(n, |x: int| x as usize)
    } else {
        let prev = feature_order(n, seed, tree, node, (steps - 1) as nat);
        let i = (steps - 1) as int;
        let j = swap_target(n, seed, tree, node, (steps - 1) as nat) as int;
        prev.update(i, prev[j]).update(j, prev[i])
    }
}

/// Once step `p` of the shuffle has run, position `p` never changes again:
/// later steps only swap positions at or after their own.
pub proof fn lemma_shuffle_prefix_fixed(n: nat, seed: u64, tree: u32, node: u32, p: nat, steps: nat)
    requires
        p < steps <= n,
        n <= SIG,
    ensures
        feature_order(n, seed, tree, node, steps)[p as int] == feature_order(n, seed, tree, node, p + 1)[p as int],
    decreases steps,
{
    if steps > p + 1 {
        let i = (steps - 1) as nat;
        lemma_shuffle_prefix_fixed(n, seed, tree, node, p, i);
        lemma_swap_target_scales(n, seed, tree, node, i, 0);
        lemma_feature_order_len(n, seed, tree, node, i);
        let prev = feature_order(n, seed, tree, node, i);
        let j = swap_target(n, seed, tree, node, i) as int;
        assert(feature_order(n, seed, tree, node, steps) == prev.update(i as int, prev[j]).update(j, prev[i as int]));
    }
}

/// The first candidate is the feature whose index step 0 draws: the
/// position of `0..n` that step 0 swaps to the front.
pub proof fn lemma_first_candidate(n: nat, seed: u64, tree: u32, node: u32)
    requires
        1 <= n <= SIG,
    ensures
        feature_order(n, seed, tree, node, 1)[0] == swap_target(n, seed, tree, node, 0),
{
    lemma_swap_target_scales(n, seed, tree, node, 0, 0);
    let id = feature_order(n, seed, tree, node, 0);
    let j = swap_target(n, seed, tree, node, 0) as int;
    assert(id[j] == j);
    assert(id[0] == 0);
    assert(feature_order(n, seed, tree, node, 1) == id.update(0, id[j]).update(j, id[0]));
}

/// The shuffle keeps `n` positions.
proof fn lemma_feature_order_len(n: nat, seed: u64, tree: u32, node: u32, steps: nat)
    requires
        steps <= n,
    ensures
        feature_order(n, seed, tree, node, steps).len() == n,
    decreases steps,
{
    if steps > 0 {
        lemma_feature_order_len(n, seed, tree, node, (steps - 1) as nat);
    }
}

/// Every entry is a feature index below `n`, and no feature appears twice.
pub open spec fn distinct_below(s: Seq<usize>, n: nat) -> bool {
    &&& forall|a: int| 0 <= a < s.len() ==> #[trigger] s[a] < n
    &&& forall|a: int, b: int| 0 <= a < b < s.len() ==> s[a] != s[b]
}

/// Swapping two entries keeps a sequence of distinct features distinct.
pub proof fn lemma_swap_distinct(s: Seq<usize>, i: int, j: int, n: nat)
    requires
        distinct_below(s, n),
        0 <= i < s.len(),
        0 <= j < s.len(),
    ensures
        distinct_below(s.update(i, s[j]).update(j, s[i]), n),
{
    let t = s.update(i, s[j]).update(j, s[i]);
    assert forall|p: int, q: int| 0 <= p < q < t.len() implies t[p] != t[q] by {
        let sp = if p == j { i } else if p == i { j } else { p };
        let sq = if q == j { i } else if q == i { j } else { q };
        assert(t[p] == s[sp]);
        assert(t[q] == s[sq]);
        if sp < sq {
            assert(s[sp] != s[sq]);
        } else {
            assert(s[sq] != s[sp]);
        }
    }
}

/// The candidate features of a node: the first `min(max_features, n_features)`
/// positions of a Fisher-Yates shuffle of `0..n_features` whose steps are
/// keyed by `(seed, tree, node, step, DRAW_FEATURE_SELECT)`. They are distinct
/// features, all below `n_features`.
pub fn candidate_features(n_features: usize, max_features: usize, seed: u64, tree: u32, node: u32) -> (r: Vec<
    usize,
>)
    ensures
        r@.len() == if max_features < n_features { max_features } else { n_features },
        r@ == feature_order(n_features as nat, seed, tree, node, r@.len()).take(r@.len() as int),
        distinct_below(r@, n_features as nat),
        r@.len() >= 1 && n_features <= SIG ==> r@[0] == swap_target(n_features as nat, seed, tree, node, 0),
{
    let mut order: Vec<usize> = Vec::new();
    let mut x: usize = 0;
    while x < n_features
        invariant
            x <= n_features,
            order@.len() == x,
            forall|a: int| 0 <= a < x ==> #[trigger] order@[a] == a,
        decreases n_features - x,
    {
        order.push(x);
        x = x + 1;
    }
    assert(order@ =~= feature_order(n_features as nat, seed, tree, node, 0));
    let k = if max_features < n_features { max_features } else { n_features };
    let mut i: usize = 0;
    while i < k
        invariant
            k <= n_features,
            i <= k,
            order@ == feature_order(n_features as nat, seed, tree, node, i as nat),
            order@.len() == n_features,
            distinct_below(order@, n_features as nat),
        decreases k - i,
    {
        let m = philox_uniform(seed, tree, node, i as u32, DRAW_FEATURE_SELECT);
        let scaled = scale_unit(m, n_features - i);
        let last = (n_features - 1) as u128;
        let cand = i as u128 + scaled;
        let j: usize = if cand < last { cand as usize } else { n_features - 1 };
        assert(j == swap_target(n_features as nat, seed, tree, node, i as nat));
        let a = order[i];
        let b = order[j];
        let ghost before = order@;
        order.set(i, b);
        order.set(j, a);
        proof {
            assert(order@ =~= before.update(i as int, before[j as int]).update(j as int, before[i as int]));
            lemma_swap_distinct(before, i as int, j as int, n_features as nat);
        }
        i = i + 1;
    }
    let mut cands: Vec<usize> = Vec::new();
    let mut c: usize = 0;
    while c < k
        invariant
            c <= k,
            k <= order@.len(),
            cands@ == order@.take(c as int),
        decreases k - c,
    {
        assert(order@.take(c + 1) =~= order@.take(c as int).push(order@[c as int]));
        cands.push(order[c]);
        c = c + 1;
    }
    proof {
        if k >= 1 && n_features <= SIG {
            lemma_shuffle_prefix_fixed(n_features as nat, seed, tree, node, 0, k as nat);
            lemma_first_candidate(n_features as nat, seed, tree, node);
        }
    }
    cands
}

/// How many of `rows` carry label `class`.
pub open spec fn class_count(rows: Seq<usize>, labels: Seq<usize>, class: nat) -> nat
    decreases rows.len(),
{
    if rows.len() == 0 {
        0
    } else {
        class_count(rows.drop_last(), labels, class) + if labels[rows.last() as int] == class {
            1nat
        } else {
            0nat
        }
    }
}

/// A class count never exceeds the row count.
pub proof fn lemma_class_count_bound(rows: Seq<usize>, labels: Seq<usize>, class: nat)
    ensures
        class_count(rows, labels, class) <= rows.len(),
    decreases rows.len(),
{
    if rows.len() > 0 {
        lemma_class_count_bound(rows.drop_last(), labels, class);
    }
}

/// Per-class sample counts of a node's rows, for classes `0..n_classes`;
/// labels at or above `n_classes` are not counted.
pub fn class_counts(rows: &Vec<usize>, labels: &Vec<usize>, n_classes: usize) -> (r: Vec<u64>)
    requires
        forall|k: int| 0 <= k < rows@.len() ==> #[trigger] rows@[k] < labels@.len(),
    ensures
        r@.len() == n_classes,
        forall|c: int| 0 <= c < n_classes ==> #[trigger] r@[c] == class_count(rows@, labels@, c as nat),
{
    let mut counts: Vec<u64> = Vec::new();
    let mut c: usize = 0;
    while c < n_classes
        invariant
            c <= n_classes,
            counts@.len() == c,
            forall|a: int| 0 <= a < c ==> #[trigger] counts@[a] == 0,
        decreases n_classes - c,
    {
        counts.push(0);
        c = c + 1;
    }
    let mut i: usize = 0;
    while i < rows.len()
        invariant
            forall|k: int| 0 <= k < rows@.len() ==> #[trigger] rows@[k] < labels@.len(),
            i <= rows.len(),
            counts@.len() == n_classes,
            forall|a: int| 0 <= a < n_classes ==> #[trigger] counts@[a] == class_count(rows@.take(i as int), labels@, a as nat),
        decreases rows.len() - i,
    {
        assert(rows@.take(i + 1).drop_last() =~= rows@.take(i as int));
        proof {
            assert forall|a: int| 0 <= a < n_classes implies #[trigger] class_count(rows@.take(i as int), labels@, a as nat) <= i by {
                lemma_class_count_bound(rows@.take(i as int), labels@, a as nat);
            }
        }
        let label = labels[rows[i]];
        if label < n_classes {
            let v = counts[label];
            counts.set(label, v + 1);
        }
        i = i + 1;
    }
    assert(rows@.take(rows.len() as int) =~= rows@);
    counts
}

/// Every row carries the same label as the first.
pub open spec fn same_label(rows: Seq<usize>, labels: Seq<usize>) -> bool {
    forall|k: int| 0 <= k < rows.len() ==> labels[#[trigger] rows[k] as int] == labels[rows[0] as int]
}

/// How many classes below `c` occur among the rows.
pub open spec fn classes_present(rows: Seq<usize>, labels: Seq<usize>, c: nat) -> nat
    decreases c,
{
    if c == 0 {
        0
    } else {
        classes_present(rows, labels, (c - 1) as nat) + if class_count(rows, labels, (c - 1) as nat) > 0 {
            1nat
        } else {
            0nat
        }
    }
}

/// Whether a classification node is pure: all its rows carry the first row's
/// label, or at most one of the classes `0..n_classes` occurs among them.
pub fn classes_pure(rows: &Vec<usize>, labels: &Vec<usize>, n_classes: usize) -> (r: bool)
    requires
        rows@.len() >= 1,
        forall|k: int| 0 <= k < rows@.len() ==> #[trigger] rows@[k] < labels@.len(),
    ensures
        r == (same_label(rows@, labels@) || classes_present(rows@, labels@, n_classes as nat) <= 1),
{
    let first = labels[rows[0]];
    let mut all_same = true;
    let mut i: usize = 0;
    while i < rows.len()
        invariant
            forall|k: int| 0 <= k < rows@.len() ==> #[trigger] rows@[k] < labels@.len(),
            rows@.len() >= 1,
            first == labels@[rows@[0] as int],
            i <= rows.len(),
            all_same == forall|k: int| 0 <= k < i ==> labels@[#[trigger] rows@[k] as int] == first,
        decreases rows.len() - i,
    {
        if labels[rows[i]] != first {
            all_same = false;
        }
        i = i + 1;
    }
    if all_same {
        return true;
    }
    let counts = class_counts(rows, labels, n_classes);
    let mut present: usize = 0;
    let mut c: usize = 0;
    while c < n_classes
        invariant
            c <= n_classes,
            counts@.len() == n_classes,
            forall|a: int| 0 <= a < n_classes ==> #[trigger] counts@[a] == class_count(rows@, labels@, a as nat),
            present == classes_present(rows@, labels@, c as nat),
            present <= c,
        decreases n_classes - c,
    {
        if counts[c] > 0 {
            present = present + 1;
        }
        c = c + 1;
    }
    present <= 1
}

/// The probability slot of a class holding `c` of a node's `t` rows:
/// `c as f32 / t as f32`, and `0.0` when the node is empty or the class
/// absent.
pub open spec fn proba_bits(c: nat, t: nat) -> int {
    if t == 0 || c == 0 {
        0
    } else {
        f32_quotient_bits(round_f32(c), round_f32(t))
    }
}

/// A classifier leaf's probabilities (f32 bits): each class count over the
/// node's row count.
pub fn leaf_probabilities(counts: &Vec<u64>, total: usize) -> (r: Vec<u32>)
    ensures
        r@.len() == counts@.len(),
        forall|c: int| 0 <= c < counts@.len() ==> #[trigger] r@[c] == proba_bits(counts@[c] as nat, total as nat),
{
    let mut r: Vec<u32> = Vec::new();
    let rt = round_f32_exact(total as u128);
    let mut i: usize = 0;
    while i < counts.len()
        invariant
            i <= counts@.len(),
            r@.len() == i,
            rt == round_f32(total as nat),
            total >= 1 ==> 1 <= rt <= 0x1_0000_0000_0000_0000,
            forall|c: int| 0 <= c < i ==> #[trigger] r@[c] == proba_bits(counts@[c] as nat, total as nat),
        decreases counts@.len() - i,
    {
        let c = counts[i];
        if total == 0 || c == 0 {
            r.push(0);
        } else {
            let rc = round_f32_exact(c as u128);
            r.push(f32_quotient(rc, rt));
        }
        i = i + 1;
    }
    r
}

/// A class that holds every row of a non-empty node gets probability
/// exactly `1.0` (bit pattern `0x3F80_0000`).
pub proof fn lemma_whole_node_proba_is_one(t: nat)
    requires
        t >= 1,
    ensures
        proba_bits(t, t) == 0x3F80_0000,
{
    let a = round_f32(t);
    lemma_round_f32_positive(t);
    let la = log2_floor(a);
    lemma_log2_bounds(a);
    lemma_two_pow_mono(0, la);
    assert(quotient_exponent(a, a) == 0);
    lemma_two_pow_23();
    assert(quotient_num(a, a) == a * 0x80_0000);
    assert(quotient_den(a, a) == a);
    assert((a * 0x80_0000) / a == 0x80_0000 && (a * 0x80_0000) % a == 0) by {
        vstd::arithmetic::div_mod::lemma_div_multiples_vanish(0x80_0000, a as int);
        vstd::arithmetic::div_mod::lemma_mod_multiples_basic(0x80_0000, a as int);
    }
}

/// Rounding a positive integer to `f32` at most doubles it.
proof fn lemma_round_f32_at_most_double(v: nat)
    requires
        v >= 1,
    ensures
        round_f32(v) <= 2 * v,
{
    lemma_round_f32_positive(v);
    let d = crate::float::f32_spacing(v, 1);
    assert(round_f32(v) <= v + d) by {
        vstd::arithmetic::div_mod::lemma_fundamental_div_mod(v as int, d as int);
        let q = v / d;
        assert((q + 1) * d == q * d + d) by (nonlinear_arith);
    }
    crate::float::lemma_spacing_bounds(v);
    if d > 1 {
        assert(d <= v);
    }
}

/// A class holding at most all of a non-empty node's rows gets a
/// probability in `[0, 1]`: a bit pattern from that of `0.0` up to that of
/// `1.0` (`0x3F80_0000`), non-negative patterns being ordered like the
/// values they encode.
pub proof fn lemma_proba_in_unit_interval(c: nat, t: nat)
    requires
        c <= t,
        1 <= t < 0x1_0000_0000_0000_0000,
    ensures
        0 <= proba_bits(c, t) <= 0x3F80_0000,
{
    if c > 0 {
        let a = round_f32(c);
        let b = round_f32(t);
        lemma_round_f32_positive(c);
        lemma_round_f32_positive(t);
        crate::float::lemma_round_f32_mono(c, t);
        lemma_round_f32_at_most_double(t);
        let la = log2_floor(a);
        let lb = log2_floor(b);
        lemma_log2_bounds(a);
        lemma_log2_bounds(b);
        if la > lb {
            lemma_two_pow_mono(lb + 1, la);
            assert(two_pow(lb + 1) == 2 * two_pow(lb));
        }
        if lb >= 66 {
            lemma_two_pow_mono(66, lb);
            crate::float::lemma_two_pow_65();
            assert(two_pow(66) == 2 * two_pow(65));
        }
        crate::float::lemma_quotient_significand(a, b);
        let e = quotient_exponent(a, b);
        let num = quotient_num(a, b);
        let den = quotient_den(a, b);
        let m = num / den;
        let r = num % den;
        vstd::arithmetic::div_mod::lemma_fundamental_div_mod(num as int, den as int);
        assert(0x80_0000 <= m < 0x100_0000) by (nonlinear_arith)
            requires den * 0x80_0000 <= num, num < den * 0x100_0000, den >= 1, m == num / den;
        if e == 0 {
            // Equal leading bits and a >= b * 2^0: the quotient is exactly 1.
            assert(a * two_pow(lb) >= b * two_pow(la));
            assert(a >= b) by (nonlinear_arith)
                requires a * two_pow(lb) >= b * two_pow(la), la == lb, two_pow(la) >= 1;
            assert(a == b);
            lemma_two_pow_23();
            assert(num == a * 0x80_0000 && den == a);
            assert(m == 0x80_0000 && r == 0) by {
                vstd::arithmetic::div_mod::lemma_div_multiples_vanish(0x80_0000, a as int);
                vstd::arithmetic::div_mod::lemma_mod_multiples_basic(0x80_0000, a as int);
            }
        }
    }
}

/// The running `(min, max)` of the first `i` values (f32 bits): it starts at
/// `(+inf, -inf)` and each value widens it.
pub open spec fn value_range(vals: Seq<u32>, i: int) -> (u32, u32)
    decreases i,
{
    if i <= 0 {
        (POS_INFINITY_BITS, NEG_INFINITY_BITS)
    } else {
        widen(value_range(vals, i - 1), vals[i - 1])
    }
}

/// The `(min, max)` of a node's values of one feature (f32 bits, in row
/// order), scanned as [`value_range`] states; `(+inf, -inf)` for no value.
pub fn feature_range(values: &Vec<u32>) -> (r: (u32, u32))
    ensures
        r == value_range(values@, values@.len() as int),
{
    let mut lo = POS_INFINITY_BITS;
    let mut hi = NEG_INFINITY_BITS;
    let mut i: usize = 0;
    while i < values.len()
        invariant
            i <= values@.len(),
            (lo, hi) == value_range(values@, i as int),
        decreases values@.len() - i,
    {
        let (a, b) = widen_range(lo, hi, values[i]);
        lo = a;
        hi = b;
        i = i + 1;
    }
    (lo, hi)
}

/// The range brackets every non-NaN value scanned, and its bounds are never
/// NaN: `min <= v <= max` as `f32` values.
pub proof fn lemma_value_range_brackets(vals: Seq<u32>, i: int)
    requires
        0 <= i <= vals.len(),
    ensures
        !is_nan_bits(value_range(vals, i).0),
        !is_nan_bits(value_range(vals, i).1),
        forall|k: int|
            0 <= k < i && !is_nan_bits(#[trigger] vals[k]) ==> f32_rank(value_range(vals, i).0) <= f32_rank(
                vals[k],
            ) <= f32_rank(value_range(vals, i).1),
    decreases i,
{
    if i > 0 {
        lemma_value_range_brackets(vals, i - 1);
        lemma_widen(value_range(vals, i - 1), vals[i - 1]);
    } else {
        assert(!is_nan_bits(POS_INFINITY_BITS) && !is_nan_bits(NEG_INFINITY_BITS));
    }
}

} // verus!
