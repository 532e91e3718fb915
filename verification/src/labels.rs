//! Reading classification labels. Labels arrive as single-precision values
//! (their IEEE-754 bit patterns here); a label must be a non-negative
//! integer, and the class count is one more than the largest label.
use vstd::prelude::*;
use crate::float::{
    f32_bits_of, lemma_two_pow_23, lemma_two_pow_40, lemma_two_pow_41, lemma_two_pow_add, lemma_two_pow_mono,
    log2_floor, pow2_of, two_pow,
};

verus! {

/// Biased exponent field of an `f32` bit pattern.
pub open spec fn exp_field(b: u32) -> nat {
    ((b as nat) / 0x80_0000) % 256
}

/// Fraction field of an `f32` bit pattern.
pub open spec fn man_field(b: u32) -> nat {
    (b as nat) % 0x80_0000
}

/// Sign bit of an `f32` bit pattern.
pub open spec fn sign_set(b: u32) -> bool {
    b >= 0x8000_0000
}

/// The pattern encodes NaN.
pub open spec fn is_nan_bits(b: u32) -> bool {
    exp_field(b) == 255 && man_field(b) != 0
}

/// The pattern encodes `+0.0` or `-0.0`.
pub open spec fn is_zero_bits(b: u32) -> bool {
    exp_field(b) == 0 && man_field(b) == 0
}

/// `v < 0.0` for the `f32` `v` with pattern `b`: negative, not a zero, not NaN.
pub open spec fn below_zero(b: u32) -> bool {
    sign_set(b) && !is_zero_bits(b) && !is_nan_bits(b)
}

/// `v.fract() == 0.0` for the `f32` `v` with pattern `b`: a zero, or a finite
/// value with no fraction bits below the binary point. NaN and the
/// infinities have a NaN fraction.
pub open spec fn integral_bits(b: u32) -> bool {
    let e = exp_field(b);
    let m = man_field(b);
    if e == 255 {
        false
    } else if e == 0 {
        m == 0
    } else if e < 127 {
        false
    } else if e < 150 {
        m % two_pow((150 - e) as nat) == 0
    } else {
        true
    }
}

/// A valid label: not below zero, and integral.
pub open spec fn valid_label(b: u32) -> bool {
    !below_zero(b) && integral_bits(b)
}

/// The value of a finite `f32` that is a non-negative integer (zero for the
/// zeros): `(2^23 + m) * 2^(e - 150)`.
pub open spec fn label_value(b: u32) -> nat {
    let e = exp_field(b);
    let m = man_field(b);
    if e == 0 {
        0
    } else if e < 150 {
        (0x80_0000 + m) / two_pow((150 - e) as nat)
    } else {
        (0x80_0000 + m) * two_pow((e - 150) as nat)
    }
}

/// `floor(log2(v))` is the `k` with `2^k <= v < 2^(k + 1)`.
proof fn lemma_log2_floor_unique(v: nat, k: nat)
    requires
        two_pow(k) <= v < 2 * two_pow(k),
    ensures
        log2_floor(v) == k,
    decreases k,
{
    if k > 0 {
        let k1 = (k - 1) as nat;
        assert(two_pow(k) == 2 * two_pow(k1));
        lemma_log2_floor_unique(v / 2, k1);
    } else {
        assert(v == 1);
    }
}

/// A label's value and its `f32` pattern agree: a valid, non-negative label
/// of at least one encodes back to its own bit pattern, and a zero label has
/// value zero.
pub proof fn lemma_label_value_round_trip(b: u32)
    requires
        valid_label(b),
        !sign_set(b),
    ensures
        exp_field(b) == 0 ==> label_value(b) == 0 && b == 0,
        exp_field(b) != 0 ==> label_value(b) >= 1 && f32_bits_of(label_value(b)) == b,
{
    let e = exp_field(b);
    let m = man_field(b);
    let p23 = two_pow(23);
    lemma_two_pow_23();
    assert(b as nat == e * 0x80_0000 + m) by (nonlinear_arith)
        requires b < 0x8000_0000, e == ((b as nat) / 0x80_0000) % 256, m == (b as nat) % 0x80_0000;
    if e == 0 {
        return;
    }
    assert(127 <= e < 255);
    let k = (e - 127) as nat;
    let sig = 0x80_0000 + m;
    let v = label_value(b);
    if e < 150 {
        let sh = (150 - e) as nat;
        lemma_two_pow_add(k, sh);
        assert(k + sh == 23);
        let ps = two_pow(sh);
        let pk = two_pow(k);
        lemma_two_pow_mono(0, sh);
        lemma_two_pow_mono(0, k);
        assert(m % ps == 0);
        assert(pk * ps == 0x80_0000);
        let q = m / ps;
        vstd::arithmetic::div_mod::lemma_fundamental_div_mod(m as int, ps as int);
        assert(sig == ps * (pk + q)) by (nonlinear_arith)
            requires sig == pk * ps + m, m == ps * q;
        vstd::arithmetic::div_mod::lemma_div_multiples_vanish((pk + q) as int, ps as int);
        assert(v == pk + q);
        assert(v * ps == sig) by (nonlinear_arith)
            requires v == pk + q, sig == ps * (pk + q);
        assert(pk <= v < 2 * pk) by (nonlinear_arith)
            requires v * ps == sig, sig == pk * ps + m, m < pk * ps, ps >= 1, pk >= 1;
        lemma_log2_floor_unique(v, k);
        assert(v * 0x80_0000 / pk == sig) by (nonlinear_arith)
            requires v * ps == sig, pk * ps == 0x80_0000, pk >= 1;
    } else {
        let t = (e - 150) as nat;
        lemma_two_pow_add(23, t);
        assert(23 + t == k);
        let pt = two_pow(t);
        let pk = two_pow(k);
        lemma_two_pow_mono(0, t);
        assert(pk == 0x80_0000 * pt);
        assert(v == sig * pt);
        assert(pk <= v < 2 * pk) by (nonlinear_arith)
            requires v == sig * pt, pk == 0x80_0000 * pt, sig >= 0x80_0000, sig < 0x100_0000, pt >= 1;
        lemma_log2_floor_unique(v, k);
        assert(v * 0x80_0000 / pk == sig) by (nonlinear_arith)
            requires v == sig * pt, pk == 0x80_0000 * pt, pt >= 1;
    }
    assert(f32_bits_of(v) == (k + 127) * 0x80_0000 + (v * 0x80_0000 / two_pow(k) - 0x80_0000));
}

/// `v as i64` for a valid label `v`: its value, saturated at `i64::MAX`.
pub open spec fn label_as_i64(b: u32) -> nat {
    if label_value(b) < i64::MAX {
        label_value(b)
    } else {
        i64::MAX as nat
    }
}

/// `v as usize` for a valid label `v`: its value, saturated at `usize::MAX`.
pub open spec fn label_as_usize(b: u32) -> nat {
    if label_value(b) < usize::MAX {
        label_value(b)
    } else {
        usize::MAX as nat
    }
}

/// The largest `label_as_i64` among the first `i` labels, if any.
pub open spec fn max_label(y: Seq<u32>, i: int) -> Option<nat>
    decreases i,
{
    if i <= 0 {
        None
    } else {
        let v = label_as_i64(y[i - 1]);
        match max_label(y, i - 1) {
            None => Some(v),
            Some(m) => Some(if v > m { v } else { m }),
        }
    }
}

/// The largest label among the first `i` is the largest of them: no label
/// exceeds it and some label equals it; there is none only when `i == 0`.
pub proof fn lemma_max_label_is_largest(y: Seq<u32>, i: int)
    requires
        0 <= i <= y.len(),
    ensures
        max_label(y, i) is None <==> i == 0,
        max_label(y, i) matches Some(m) ==> (forall|k: int| 0 <= k < i ==> label_as_i64(#[trigger] y[k]) <= m),
        max_label(y, i) matches Some(m) ==> (exists|k: int| 0 <= k < i && label_as_i64(#[trigger] y[k]) == m),
    decreases i,
{
    if i > 0 {
        lemma_max_label_is_largest(y, i - 1);
        let v = label_as_i64(y[i - 1]);
        match max_label(y, i - 1) {
            None => {
                assert(label_as_i64(y[i - 1]) == v);
            },
            Some(m) => {
                if v > m {
                    assert(label_as_i64(y[i - 1]) == v);
                } else {
                    let w = choose|k: int| 0 <= k < i - 1 && label_as_i64(#[trigger] y[k]) == m;
                    assert(0 <= w < i && label_as_i64(y[w]) == m);
                }
            },
        }
    }
}

/// What a scan of the labels found.
#[derive(Debug, Clone, PartialEq, Eq)]
pub enum LabelScan {
    /// Every label is valid: each label as a class index, and the largest
    /// label as an `i64` (`None` when there are no labels).
    Labels { classes: Vec<usize>, max_label: Option<u64> },
    /// The first label that is not a non-negative integer (its bit pattern).
    Invalid(u32),
}

/// Check every label in order. The scan stops at the first label that is not
/// a non-negative integer; otherwise it gives each label as a class index
/// (`v as usize`) and the largest label as an `i64` (`v as i64`).
pub fn scan_labels(y: &Vec<u32>) -> (r: LabelScan)
    ensures
        r matches LabelScan::Invalid(b) ==> exists|k: int|
            0 <= k < y@.len() && y@[k] == b && !valid_label(b) && forall|j: int| 0 <= j < k ==> valid_label(#[trigger] y@[j]),
        r matches LabelScan::Labels { classes, max_label: m } ==> {
            &&& forall|k: int| 0 <= k < y@.len() ==> valid_label(#[trigger] y@[k])
            &&& classes@.len() == y@.len()
            &&& forall|k: int| 0 <= k < y@.len() ==> #[trigger] classes@[k] == label_as_usize(y@[k])
            &&& match m {
                None => y@.len() == 0,
                Some(v) => max_label(y@, y@.len() as int) == Some(v as nat),
            }
            &&& m matches Some(v) ==> forall|k: int| 0 <= k < y@.len() ==> label_as_i64(#[trigger] y@[k]) <= v
            &&& m matches Some(v) ==> exists|k: int| 0 <= k < y@.len() && label_as_i64(#[trigger] y@[k]) == v
        },
{
    let mut classes: Vec<usize> = Vec::new();
    let mut best: Option<u64> = None;
    let mut i: usize = 0;
    while i < y.len()
        invariant
            i <= y@.len(),
            forall|j: int| 0 <= j < i ==> valid_label(#[trigger] y@[j]),
            classes@.len() == i,
            forall|k: int| 0 <= k < i ==> #[trigger] classes@[k] == label_as_usize(y@[k]),
            match best {
                None => i == 0,
                Some(v) => max_label(y@, i as int) == Some(v as nat),
            },
        decreases y@.len() - i,
    {
        match decode_label(y[i]) {
            None => {
                return LabelScan::Invalid(y[i]);
            },
            Some(v) => {
                let c: usize = if v < usize::MAX as u128 { v as usize } else { usize::MAX };
                let as_i64: u64 = if v < i64::MAX as u128 { v as u64 } else { i64::MAX as u64 };
                classes.push(c);
                best = match best {
                    None => Some(as_i64),
                    Some(m) => Some(if as_i64 > m { as_i64 } else { m }),
                };
            },
        }
        i = i + 1;
    }
    proof {
        lemma_max_label_is_largest(y@, y@.len() as int);
    }
    LabelScan::Labels { classes, max_label: best }
}

/// Decode a label: `Some(value)` (capped at `2^64`) for a valid label, `None`
/// otherwise.
fn decode_label(b: u32) -> (r: Option<u128>)
    ensures
        r is None <==> !valid_label(b),
        r matches Some(v) ==> v == if label_value(b) < 0x1_0000_0000_0000_0000 { label_value(b) } else {
            0x1_0000_0000_0000_0000
        },
{
    let e = (b >> 23u32) & 0xFF;
    let m = b & 0x7F_FFFF;
    let neg = b >= 0x8000_0000;
    assert(e == ((b as nat) / 0x80_0000) % 256 && m == (b as nat) % 0x80_0000) by (bit_vector)
        requires e == (b >> 23u32) & 0xFF, m == b & 0x7F_FFFF;
    assert(e == exp_field(b) && m == man_field(b));
    if neg && !(e == 0 && m == 0) && !(e == 255 && m != 0) {
        return None;
    }
    if e == 255 {
        return None;
    }
    if e == 0 {
        if m == 0 {
            return Some(0);
        } else {
            return None;
        }
    }
    if e < 127 {
        return None;
    }
    let sig: u128 = 0x80_0000 + m as u128;
    if e < 150 {
        let shift = 150 - e;
        let p = pow2_of(shift);
        proof {
            lemma_two_pow_mono(shift as nat, 40);
            lemma_two_pow_40();
        }
        if (m as u128) % p != 0 {
            return None;
        }
        return Some(sig / p);
    }
    if e >= 191 {
        proof {
            lemma_two_pow_mono(41, (e - 150) as nat);
            lemma_two_pow_41();
            assert(label_value(b) >= 0x80_0000 * two_pow(41)) by (nonlinear_arith)
                requires label_value(b) == (0x80_0000 + man_field(b)) * two_pow((e - 150) as nat),
                    two_pow((e - 150) as nat) >= two_pow(41);
        }
        return Some(0x1_0000_0000_0000_0000);
    }
    let p = pow2_of(e - 150);
    proof {
        lemma_two_pow_mono((e - 150) as nat, 40);
        lemma_two_pow_40();
    }
    assert(sig * p < 0x1_0000_0000_0000_0000) by (nonlinear_arith)
        requires sig < 0x100_0000, p <= 0x100_0000_0000, p == two_pow((e - 150) as nat);
    Some(sig * p)
}

} // verus!
