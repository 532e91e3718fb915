//! Exact integer descriptions of the double-precision steps that resolve a
//! per-split feature count: rounding an integer to the nearest `f64`, the
//! floor of the correctly rounded square root of such a value, and the floor
//! of the product of an `f32` fraction with it. Each is stated as a spec
//! function and computed exactly with integer arithmetic.
use vstd::prelude::*;
use crate::float::{lemma_log2_bounds, lemma_two_pow_add, lemma_two_pow_mono, log2_floor, pow2_of, two_pow};
use crate::labels::{exp_field, is_nan_bits, is_zero_bits, man_field, sign_set};

verus! {

/// 2^53: one more than the largest `f64` significand.
pub const SIG64: u128 = 0x20_0000_0000_0000;

/// The spacing of the double-precision floats around `v`, found by doubling
/// `d` until `v / d` has at most 53 bits.
pub open spec fn f64_spacing(v: nat, d: nat) -> nat
    decreases v / d,
{
    if d == 0 || v / d < SIG64 {
        d
    } else {
        proof {
            vstd::arithmetic::div_mod::lemma_div_denominator(v as int, d as int, 2);
        }
        f64_spacing(v, 2 * d)
    }
}

/// `v` rounded to the nearest double-precision float, ties to the even
/// significand: the value of `v as f64` for an integer `v`.
pub open spec fn round_f64(v: nat) -> nat {
    let d = f64_spacing(v, 1);
    let q = v / d;
    let r = v % d;
    if 2 * r > d || (2 * r == d && q % 2 == 1) {
        (q + 1) * d
    } else {
        q * d
    }
}

/// `v` rounded to the nearest `f64` (ties to even), computed exactly.
pub fn round_f64_exact(v: u128) -> (r: u128)
    requires
        v < 0x8000_0000_0000_0000_0000_0000_0000_0000,
    ensures
        r == round_f64(v as nat),
        r <= 2 * v,
        v < 0x1_0000_0000_0000_0000 ==> r <= 0x1_0000_0000_0000_0000,
{
    let mut d: u128 = 1;
    let ghost mut k: nat = 0;
    while v / d >= SIG64
        invariant
            d >= 1,
            d == two_pow(k),
            f64_spacing(v as nat, d as nat) == f64_spacing(v as nat, 1),
            d == 1 || d * 0x10_0000_0000_0000 <= v,
            v < 0x8000_0000_0000_0000_0000_0000_0000_0000,
        decreases v - d,
    {
        assert(d * SIG64 <= v) by (nonlinear_arith)
            requires d >= 1, v / d >= SIG64;
        d = d * 2;
        proof {
            k = k + 1;
        }
    }
    let q = v / d;
    let r = v % d;
    assert(q * d <= v) by (nonlinear_arith)
        requires d >= 1, q == v / d;
    proof {
        if d > 1 && v < 0x1_0000_0000_0000_0000 {
            lemma_two_pow_12();
            if k >= 12 {
                lemma_two_pow_mono(12, k);
                assert(false) by (nonlinear_arith)
                    requires d >= 0x1000, d * 0x10_0000_0000_0000 <= v, v < 0x1_0000_0000_0000_0000;
            }
            lemma_two_pow_mono(k, 11);
            lemma_two_pow_11();
            assert((q + 1) * d <= 0x1_0000_0000_0000_0000) by (nonlinear_arith)
                requires q < SIG64, d <= 0x800, SIG64 == 0x20_0000_0000_0000u128;
        }
    }
    if 2 * r > d || (2 * r == d && q % 2 == 1) {
        assert(d >= 2);
        assert((q + 1) * d <= 2 * v) by (nonlinear_arith)
            requires d >= 1, q < SIG64, d * 0x10_0000_0000_0000 <= v;
        (q + 1) * d
    } else {
        q * d
    }
}

proof fn lemma_two_pow_11()
    ensures
        two_pow(11) == 0x800,
{
    reveal_with_fuel(two_pow, 12);
}

proof fn lemma_two_pow_12()
    ensures
        two_pow(12) == 0x1000,
{
    reveal_with_fuel(two_pow, 13);
}

/// The integer square root: the largest `k` with `k * k <= x`.
pub open spec fn floor_sqrt(x: nat) -> nat
    decreases x,
{
    if x == 0 {
        0
    } else {
        let k = floor_sqrt((x - 1) as nat);
        if (k + 1) * (k + 1) <= x {
            k + 1
        } else {
            k
        }
    }
}

/// `floor_sqrt(x)` squared is at most `x`, and its successor squared is above.
pub proof fn lemma_floor_sqrt(x: nat)
    ensures
        floor_sqrt(x) * floor_sqrt(x) <= x,
        x < (floor_sqrt(x) + 1) * (floor_sqrt(x) + 1),
    decreases x,
{
    let s = floor_sqrt(x);
    if x > 0 {
        lemma_floor_sqrt((x - 1) as nat);
        let k = floor_sqrt((x - 1) as nat);
        assert(k * k <= x - 1 && x - 1 < (k + 1) * (k + 1));
        if (k + 1) * (k + 1) <= x {
            assert(s == k + 1);
            assert(s * s <= x && x < (s + 1) * (s + 1)) by (nonlinear_arith)
                requires s == k + 1, (k + 1) * (k + 1) <= x, x - 1 < (k + 1) * (k + 1);
        } else {
            assert(s == k);
            assert(x < (s + 1) * (s + 1));
        }
    } else {
        assert(s == 0);
        assert((s + 1) * (s + 1) == 1) by (nonlinear_arith)
            requires s == 0;
    }
}

/// The integer square root is the only `k` with `k^2 <= x < (k + 1)^2`.
pub proof fn lemma_floor_sqrt_unique(x: nat, k: nat)
    requires
        k * k <= x < (k + 1) * (k + 1),
    ensures
        k == floor_sqrt(x),
{
    lemma_floor_sqrt(x);
    let s = floor_sqrt(x);
    if k < s {
        assert((k + 1) * (k + 1) <= s * s) by (nonlinear_arith)
            requires k + 1 <= s;
    } else if k > s {
        assert((s + 1) * (s + 1) <= k * k) by (nonlinear_arith)
            requires s + 1 <= k;
    }
}

/// The integer square root of `x < 2^106`, by bisection.
fn floor_sqrt_exact(x: u128) -> (r: u128)
    requires
        x < 0x400_0000_0000_0000_0000_0000_0000,
    ensures
        r == floor_sqrt(x as nat),
        r < SIG64,
{
    let mut lo: u128 = 0;
    let mut hi: u128 = SIG64;
    assert(x < hi * hi);
    while hi - lo > 1
        invariant
            lo < hi <= SIG64,
            lo * lo <= x,
            x < hi * hi,
        decreases hi - lo,
    {
        let mid = lo + (hi - lo) / 2;
        assert(mid * mid <= SIG64 * SIG64) by (nonlinear_arith)
            requires mid <= SIG64;
        if mid * mid <= x {
            lo = mid;
        } else {
            hi = mid;
        }
    }
    proof {
        lemma_floor_sqrt_unique(x as nat, lo as nat);
    }
    lo
}

/// `floor(sqrt(v))` for the `f64` value `v` (an integer below `2^106`): the
/// square root is correctly rounded to a 53-bit significand `m * 2^-j`
/// (ties cannot occur), then truncated.
pub open spec fn f64_sqrt_floor(v: nat) -> nat {
    if v == 0 {
        0
    } else {
        let j = (52 - log2_floor(v) / 2) as nat;
        let x = v * two_pow(2 * j);
        let m = floor_sqrt(x);
        let m2 = if (2 * m + 1) * (2 * m + 1) < 4 * x {
            m + 1
        } else {
            m
        };
        m2 / two_pow(j)
    }
}

/// `floor(sqrt(v))` the double-precision way, as [`f64_sqrt_floor`] states,
/// for `v <= 2^64`.
pub fn sqrt_floor_exact(v: u128) -> (r: u128)
    requires
        v <= 0x1_0000_0000_0000_0000,
    ensures
        r == f64_sqrt_floor(v as nat),
        r <= SIG64,
{
    if v == 0 {
        return 0;
    }
    let l = crate::float::log2_of(v);
    let j: u32 = 52 - l / 2;
    let p2j = pow2_of(2 * j);
    proof {
        lemma_log2_bounds(v as nat);
        assert(two_pow((l + 1) as nat) == 2 * two_pow(l as nat));
        lemma_two_pow_add((2 * j) as nat, (l + 1) as nat);
        lemma_two_pow_mono((2 * j + l + 1) as nat, 106);
        crate::float::lemma_two_pow_106();
        assert(v * p2j < 0x400_0000_0000_0000_0000_0000_0000) by (nonlinear_arith)
            requires v < 2 * two_pow(l as nat), two_pow((l + 1) as nat) == 2 * two_pow(l as nat),
                p2j * two_pow((l + 1) as nat) == two_pow((2 * j + l + 1) as nat),
                two_pow((2 * j + l + 1) as nat) <= 0x400_0000_0000_0000_0000_0000_0000, p2j >= 0;
    }
    let x = v * p2j;
    let m = floor_sqrt_exact(x);
    assert((2 * m + 1) * (2 * m + 1) <= 0x1000_0000_0000_0000_0000_0000_0000) by (nonlinear_arith)
        requires m < SIG64, SIG64 == 0x20_0000_0000_0000u128;
    let m2 = if (2 * m + 1) * (2 * m + 1) < 4 * x {
        m + 1
    } else {
        m
    };
    let pj = pow2_of(j);
    proof {
        lemma_two_pow_mono(0, j as nat);
    }
    assert(m2 / pj <= m2);
    m2 / pj
}

/// `k` clamped to `1..=max(n, 1)`.
pub open spec fn clamp_count(k: nat, n: nat) -> nat {
    let hi: nat = if n == 0 {
        1
    } else {
        n
    };
    if k < 1 {
        1
    } else if k > hi {
        hi
    } else {
        k
    }
}

/// `floor(x * v)` for the positive finite `f32` `x` with pattern `fb` and the
/// `f64` value `v` (an integer): `x` is `sig * 2^shift` exactly, the product
/// `sig * v` is rounded to an `f64` significand and scaled by `2^shift`,
/// then truncated.
pub open spec fn scaled_fraction_floor(fb: u32, v: nat) -> nat {
    let e = exp_field(fb);
    let m = man_field(fb);
    let sig: nat = if e == 0 {
        m
    } else {
        m + 0x80_0000
    };
    let shift: int = if e == 0 {
        -149
    } else {
        e - 150
    };
    let p = round_f64(sig * v);
    if shift >= 0 {
        p * two_pow(shift as nat)
    } else {
        p / two_pow((-shift) as nat)
    }
}

/// `((x as f64) * (n as f64)).floor() as usize` clamped to `1..=max(n, 1)`,
/// for the `f32` `x` with pattern `fb`: NaN, negative and zero fractions give
/// a non-positive or NaN product (so `1`); `+inf` gives NaN for `n == 0` and
/// saturates otherwise (so `max(n, 1)`).
pub open spec fn fraction_count(fb: u32, n: nat) -> nat {
    if is_nan_bits(fb) || sign_set(fb) || is_zero_bits(fb) {
        1
    } else if exp_field(fb) == 255 {
        if n == 0 {
            1
        } else {
            n
        }
    } else {
        clamp_count(scaled_fraction_floor(fb, round_f64(n)), n)
    }
}

/// `k` clamped to `1..=max(n, 1)`, computed.
pub(crate) fn clamp_exact(k: u128, n: usize) -> (r: usize)
    ensures
        r == clamp_count(k as nat, n as nat),
{
    let hi: usize = if n == 0 {
        1
    } else {
        n
    };
    if k < 1 {
        1
    } else if k > hi as u128 {
        hi
    } else {
        k as usize
    }
}

/// `((x as f64) * (n as f64)).floor() as usize` clamped to `1..=max(n, 1)`,
/// as [`fraction_count`] states.
pub fn fraction_count_exact(fb: u32, n: usize) -> (r: usize)
    ensures
        r == fraction_count(fb, n as nat),
{
    let e = (fb >> 23u32) & 0xFF;
    let m = fb & 0x7F_FFFF;
    assert(e == ((fb as nat) / 0x80_0000) % 256 && m == (fb as nat) % 0x80_0000) by (bit_vector)
        requires
            e == (fb >> 23u32) & 0xFF,
            m == fb & 0x7F_FFFF,
    ;
    assert(e == exp_field(fb) && m == man_field(fb));
    if (e == 255 && m != 0) || fb >= 0x8000_0000 || (e == 0 && m == 0) {
        return 1;
    }
    if e == 255 {
        return if n == 0 {
            1
        } else {
            n
        };
    }
    let sig: u128 = if e == 0 {
        m as u128
    } else {
        m as u128 + 0x80_0000
    };
    let v = round_f64_exact(n as u128);
    assert(sig * v <= 0x100_0000 * 0x1_0000_0000_0000_0000) by (nonlinear_arith)
        requires sig < 0x100_0000, v <= 0x1_0000_0000_0000_0000;
    let p = round_f64_exact(sig * v);
    let ghost shift: int = if e == 0 {
        -149
    } else {
        e - 150
    };
    assert(scaled_fraction_floor(fb, v as nat) == if shift >= 0 {
        (p as nat) * two_pow(shift as nat)
    } else {
        (p as nat) / two_pow((-shift) as nat)
    });
    if e >= 150 {
        let s = e - 150;
        if p == 0 {
            assert(p * two_pow(s as nat) == 0) by (nonlinear_arith)
                requires p == 0;
            return clamp_exact(0, n);
        }
        if s >= 64 || p >= 0x1_0000_0000_0000_0000 {
            proof {
                if s >= 64 {
                    crate::float::lemma_two_pow_65();
                    lemma_two_pow_add(64, 1);
                    assert(two_pow(1) == 2) by {
                        reveal_with_fuel(two_pow, 2);
                    }
                    lemma_two_pow_mono(64, s as nat);
                } else {
                    lemma_two_pow_mono(0, s as nat);
                }
                assert(p * two_pow(s as nat) >= 0x1_0000_0000_0000_0000) by (nonlinear_arith)
                    requires p >= 1, two_pow(s as nat) >= 1, s >= 64 ==> two_pow(s as nat) >= 0x1_0000_0000_0000_0000,
                        s < 64 ==> p >= 0x1_0000_0000_0000_0000;
            }
            return if n == 0 {
                1
            } else {
                n
            };
        }
        let ps = pow2_of(s);
        proof {
            lemma_two_pow_mono(s as nat, 63);
            crate::float::lemma_two_pow_62();
            assert(two_pow(63) == 2 * two_pow(62));
        }
        assert(p * ps < 0x1_0000_0000_0000_0000 * 0x8000_0000_0000_0000) by (nonlinear_arith)
            requires p < 0x1_0000_0000_0000_0000, ps <= 0x8000_0000_0000_0000;
        clamp_exact(p * ps, n)
    } else {
        let s = if e == 0 {
            149
        } else {
            150 - e
        };
        if s >= 127 {
            proof {
                lemma_two_pow_mono(127, s as nat);
                crate::float::lemma_two_pow_106();
                crate::float::lemma_two_pow_add(106, 21);
                lemma_two_pow_21();
                assert(p <= 2 * (0x100_0000 * 0x1_0000_0000_0000_0000));
                vstd::arithmetic::div_mod::lemma_basic_div(p as int, two_pow(s as nat) as int);
            }
            return clamp_exact(0, n);
        }
        let ps = pow2_of(s);
        proof {
            lemma_two_pow_mono(0, s as nat);
        }
        clamp_exact(p / ps, n)
    }
}

proof fn lemma_two_pow_21()
    ensures
        two_pow(21) == 0x20_0000,
{
    reveal_with_fuel(two_pow, 22);
}

} // verus!
