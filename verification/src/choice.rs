//! Comparing single-precision values by their IEEE-754 bit patterns as
//! `f32` comparisons do, the running min/max that split search keeps, and
//! the choice of the best split of a node: both splitters score candidates
//! by a single-precision improvement and keep the best one seen so far,
//! ties broken by the lowest `(feature, threshold bits)` pair.
use vstd::prelude::*;
use crate::labels::{exp_field, is_nan_bits, man_field, sign_set};

verus! {

/// The bits of an `f32` pattern below the sign bit.
pub open spec fn magnitude(b: u32) -> int {
    (b as nat % 0x8000_0000) as int
}

/// A rank that orders non-NaN `f32` values as `<` does: positive values by
/// their bits, negative values by their negated magnitude, both zeros at 0.
pub open spec fn f32_rank(b: u32) -> int {
    if sign_set(b) {
        -magnitude(b)
    } else {
        magnitude(b)
    }
}

/// `a > b` for the `f32` values with patterns `a` and `b` (false if either is NaN).
pub open spec fn f32_gt(a: u32, b: u32) -> bool {
    !is_nan_bits(a) && !is_nan_bits(b) && f32_rank(a) > f32_rank(b)
}

/// `a == b` for the `f32` values with patterns `a` and `b` (false if either is NaN).
pub open spec fn f32_eq(a: u32, b: u32) -> bool {
    !is_nan_bits(a) && !is_nan_bits(b) && f32_rank(a) == f32_rank(b)
}

/// A scored split candidate: its feature, the bits of its threshold and the
/// bits of its improvement.
#[derive(Clone, Copy, Debug, PartialEq, Eq)]
pub struct SplitKey {
    pub feature_id: usize,
    pub threshold_bits: u32,
    pub improvement_bits: u32,
}

/// `c` beats `b`: a strictly larger improvement, or an equal improvement and
/// a lower `(feature, threshold bits)` pair.
pub open spec fn outranks(c: SplitKey, b: SplitKey) -> bool {
    ||| f32_gt(c.improvement_bits, b.improvement_bits)
    ||| (f32_eq(c.improvement_bits, b.improvement_bits) && (c.feature_id < b.feature_id || (
    c.feature_id == b.feature_id && c.threshold_bits < b.threshold_bits)))
}

/// A candidate replaces the best split so far: always when there is none yet.
pub open spec fn replaces(c: SplitKey, best: Option<SplitKey>) -> bool {
    match best {
        None => true,
        Some(b) => outranks(c, b),
    }
}

/// The position of the best split after offering the first `n` candidates,
/// each replacing the best so far exactly when it `replaces` it.
pub open spec fn running_best(keys: Seq<SplitKey>, n: nat) -> Option<int>
    decreases n,
{
    if n == 0 {
        None
    } else {
        let c = keys[n - 1];
        match running_best(keys, (n - 1) as nat) {
            None => Some(n - 1),
            Some(i) => if outranks(c, keys[i]) {
                Some(n - 1)
            } else {
                Some(i)
            },
        }
    }
}

/// No candidate's improvement is NaN.
pub open spec fn all_scored(keys: Seq<SplitKey>) -> bool {
    forall|j: int| 0 <= j < keys.len() ==> !is_nan_bits(#[trigger] keys[j].improvement_bits)
}

/// Whether the pattern encodes NaN.
fn nan_pattern(b: u32) -> (r: bool)
    ensures
        r == is_nan_bits(b),
{
    let e = (b >> 23u32) & 0xFF;
    let m = b & 0x7F_FFFF;
    assert(e == ((b as nat) / 0x80_0000) % 256 && m == (b as nat) % 0x80_0000) by (bit_vector)
        requires
            e == (b >> 23u32) & 0xFF,
            m == b & 0x7F_FFFF,
    ;
    assert(e == exp_field(b) && m == man_field(b));
    e == 255 && m != 0
}

/// The rank of an `f32` pattern.
fn rank_of(b: u32) -> (r: i64)
    ensures
        r == f32_rank(b),
{
    let m = b & 0x7FFF_FFFF;
    assert(m == (b as nat) % 0x8000_0000) by (bit_vector)
        requires
            m == b & 0x7FFF_FFFF,
    ;
    if b >= 0x8000_0000 {
        -(m as i64)
    } else {
        m as i64
    }
}

/// `a > b` for the `f32` values with patterns `a` and `b`.
pub fn f32_bits_gt(a: u32, b: u32) -> (r: bool)
    ensures
        r == f32_gt(a, b),
{
    !nan_pattern(a) && !nan_pattern(b) && rank_of(a) > rank_of(b)
}

/// Whether `cand` replaces `best` as the best split so far.
pub fn improves_on(cand: &SplitKey, best: &Option<SplitKey>) -> (r: bool)
    ensures
        r == replaces(*cand, *best),
{
    match best {
        None => true,
        Some(b) => {
            if nan_pattern(cand.improvement_bits) || nan_pattern(b.improvement_bits) {
                return false;
            }
            let rc = rank_of(cand.improvement_bits);
            let rb = rank_of(b.improvement_bits);
            rc > rb || (rc == rb && (cand.feature_id < b.feature_id || (cand.feature_id
                == b.feature_id && cand.threshold_bits < b.threshold_bits)))
        },
    }
}

/// Two candidates that neither outranks, both scored, share their
/// improvement's rank, their feature and their threshold bits.
proof fn lemma_outranks_total(a: SplitKey, b: SplitKey)
    requires
        !is_nan_bits(a.improvement_bits),
        !is_nan_bits(b.improvement_bits),
        !outranks(a, b),
        !outranks(b, a),
    ensures
        f32_rank(a.improvement_bits) == f32_rank(b.improvement_bits),
        a.feature_id == b.feature_id,
        a.threshold_bits == b.threshold_bits,
{
}

/// With every improvement scored, the running choice over `n >= 1`
/// candidates is one of them, no candidate outranks it, and it outranks
/// every candidate with another `(feature, threshold)` pair: the best split
/// is the unique maximum, whatever order the candidates come in.
pub proof fn lemma_running_best_is_maximal(keys: Seq<SplitKey>, n: nat)
    requires
        all_scored(keys),
        1 <= n <= keys.len(),
    ensures
        running_best(keys, n) is Some,
        0 <= running_best(keys, n)->0 < n,
        forall|j: int| 0 <= j < n ==> !outranks(#[trigger] keys[j], keys[running_best(keys, n)->0]),
        forall|j: int|
            0 <= j < n && (keys[j].feature_id != keys[running_best(keys, n)->0].feature_id
                || keys[j].threshold_bits != keys[running_best(keys, n)->0].threshold_bits) ==> outranks(
                keys[running_best(keys, n)->0],
                #[trigger] keys[j],
            ),
    decreases n,
{
    if n > 1 {
        lemma_running_best_is_maximal(keys, (n - 1) as nat);
    } else {
        assert(running_best(keys, 0) is None);
    }
    let i = running_best(keys, n)->0;
    assert(0 <= i < n);
    assert(!is_nan_bits(keys[i].improvement_bits));
    assert forall|j: int| 0 <= j < n implies !outranks(#[trigger] keys[j], keys[i]) by {
        assert(!is_nan_bits(keys[j].improvement_bits));
    }
    assert forall|j: int|
        0 <= j < n && (keys[j].feature_id != keys[i].feature_id || keys[j].threshold_bits
            != keys[i].threshold_bits) implies outranks(keys[i], #[trigger] keys[j]) by {
        assert(!is_nan_bits(keys[j].improvement_bits));
        if !outranks(keys[i], keys[j]) {
            lemma_outranks_total(keys[i], keys[j]);
        }
    }
}

/// Bit pattern of `f32::INFINITY`.
pub const POS_INFINITY_BITS: u32 = 0x7F80_0000;
/// Bit pattern of `f32::NEG_INFINITY`.
pub const NEG_INFINITY_BITS: u32 = 0xFF80_0000;

/// One step of a running `(min, max)` scan: `v` lowers the min when it is
/// `<` it and raises the max when it is `>` it, as `f32` comparisons decide
/// (so a NaN changes neither).
pub open spec fn widen(range: (u32, u32), v: u32) -> (u32, u32) {
    (if f32_gt(range.0, v) { v } else { range.0 }, if f32_gt(v, range.1) { v } else { range.1 })
}

/// One step of a running `(min, max)` scan, as [`widen`] states.
pub fn widen_range(lo: u32, hi: u32, v: u32) -> (r: (u32, u32))
    ensures
        r == widen((lo, hi), v),
{
    (if f32_bits_gt(lo, v) { v } else { lo }, if f32_bits_gt(v, hi) { v } else { hi })
}

/// A widening step keeps the bounds non-NaN, and brackets `v` when `v` is
/// not NaN, while still bracketing whatever the old bounds bracketed.
pub proof fn lemma_widen(range: (u32, u32), v: u32)
    requires
        !is_nan_bits(range.0),
        !is_nan_bits(range.1),
    ensures
        !is_nan_bits(widen(range, v).0),
        !is_nan_bits(widen(range, v).1),
        f32_rank(widen(range, v).0) <= f32_rank(range.0),
        f32_rank(range.1) <= f32_rank(widen(range, v).1),
        !is_nan_bits(v) ==> f32_rank(widen(range, v).0) <= f32_rank(v) <= f32_rank(widen(range, v).1),
{
}

} // verus!
