//! Exact integer descriptions of the few single-precision operations the
//! trainer's integer core depends on: rounding an integer to the nearest
//! `f32`, scaling a 24-bit uniform draw to an index range, the IEEE-754 bit
//! pattern of a count, and the quotient of two counts. Each is stated as a
//! spec function and computed exactly with integer arithmetic.
use vstd::prelude::*;

verus! {

/// 2^24: one more than the largest `f32` significand.
pub const SIG: u128 = 0x100_0000;

/// The spacing of the single-precision floats around `v`, found by doubling
/// `d` until `v / d` has at most 24 bits.
pub open spec fn f32_spacing(v: nat, d: nat) -> nat
    decreases v / d,
{
    if d == 0 || v / d < SIG {
        d
    } else {
        proof {
            vstd::arithmetic::div_mod::lemma_div_denominator(v as int, d as int, 2);
        }
        f32_spacing(v, 2 * d)
    }
}

/// `v` rounded to the nearest single-precision float, ties to the even
/// significand: the value of `v as f32` for an integer `v`.
pub open spec fn round_f32(v: nat) -> nat {
    let d = f32_spacing(v, 1);
    let q = v / d;
    let r = v % d;
    if 2 * r > d || (2 * r == d && q % 2 == 1) {
        (q + 1) * d
    } else {
        q * d
    }
}

/// `floor((m / 2^24) * n)` computed the single-precision way: `n` rounded to
/// `f32`, the product rounded to `f32`, then truncated. For `m < 2^24` this is
/// the value of `((m as f32 / 2^24) * (n as f32)) as usize`.
pub open spec fn scaled_unit(m: nat, n: nat) -> nat {
    round_f32(m * round_f32(n)) / (SIG as nat)
}

/// `floor(log2(v))`, and `0` for `v < 2`.
pub open spec fn log2_floor(v: nat) -> nat
    decreases v,
{
    if v < 2 {
        0
    } else {
        1 + log2_floor(v / 2)
    }
}

/// `2^e`.
pub open spec fn two_pow(e: nat) -> nat
    decreases e,
{
    if e == 0 {
        1
    } else {
        2 * two_pow((e - 1) as nat)
    }
}

/// The IEEE-754 single-precision bit pattern of the positive integer `v`,
/// assumed exactly representable: biased exponent `floor(log2 v) + 127` above
/// the 23 fraction bits of `v / 2^floor(log2 v)`. Zero maps to `0`.
pub open spec fn f32_bits_of(v: nat) -> int {
    if v == 0 {
        0
    } else {
        let e = log2_floor(v);
        (e + 127) * 0x80_0000 + (v * 0x80_0000 / two_pow(e) - 0x80_0000)
    }
}

/// `v` rounded to the nearest `f32` (ties to even), computed exactly.
pub fn round_f32_exact(v: u128) -> (r: u128)
    requires
        v < 0x10_0000_0000_0000_0000_0000_0000,
    ensures
        r == round_f32(v as nat),
        r <= 2 * v,
        v >= 1 ==> r >= 1,
        v < 0x1_0000_0000_0000_0000 ==> r <= 0x1_0000_0000_0000_0000,
{
    let mut d: u128 = 1;
    let ghost mut k: nat = 0;
    while v / d >= SIG
        invariant
            d >= 1,
            d == two_pow(k),
            f32_spacing(v as nat, d as nat) == f32_spacing(v as nat, 1),
            d == 1 || d * 0x80_0000 <= v,
            v < 0x10_0000_0000_0000_0000_0000_0000,
        decreases v - d,
    {
        assert(d * SIG <= v) by (nonlinear_arith)
            requires d >= 1, v / d >= SIG;
        d = d * 2;
        proof {
            k = k + 1;
        }
    }
    let q = v / d;
    let r = v % d;
    assert(q * d <= v) by (nonlinear_arith)
        requires d >= 1, q == v / d;
    proof {
        if d > 1 {
            assert(q >= 0x80_0000) by (nonlinear_arith)
                requires d * 0x80_0000 <= v, q == v / d, d >= 1;
            if v < 0x1_0000_0000_0000_0000 {
                lemma_two_pow_41();
                if k >= 41 {
                    lemma_two_pow_mono(41, k);
                    assert(false) by (nonlinear_arith)
                        requires d >= 0x200_0000_0000, d * 0x80_0000 <= v, v < 0x1_0000_0000_0000_0000;
                }
                lemma_two_pow_40();
                lemma_two_pow_mono(k, 40);
                assert((q + 1) * d <= 0x1_0000_0000_0000_0000) by (nonlinear_arith)
                    requires q < SIG, d <= 0x100_0000_0000, SIG == 0x100_0000u128;
            }
        } else {
            assert(q == v && r == 0);
        }
    }
    if 2 * r > d || (2 * r == d && q % 2 == 1) {
        assert(d >= 2);
        assert((q + 1) * d <= 2 * v) by (nonlinear_arith)
            requires d >= 1, q < SIG, d * 0x80_0000 <= v;
        assert((q + 1) * d >= 1) by (nonlinear_arith)
            requires d >= 1;
        (q + 1) * d
    } else {
        assert(v >= 1 ==> q * d >= 1) by (nonlinear_arith)
            requires d == 1 ==> q == v, d > 1 ==> q >= 0x80_0000, d >= 1;
        q * d
    }
}

/// `2^41`.
pub proof fn lemma_two_pow_41()
    ensures
        two_pow(41) == 0x200_0000_0000,
{
    reveal_with_fuel(two_pow, 42);
}

/// `2^40`.
pub proof fn lemma_two_pow_40()
    ensures
        two_pow(40) == 0x100_0000_0000,
{
    reveal_with_fuel(two_pow, 41);
}

/// `floor((m / 2^24) * n)` the single-precision way, as [`scaled_unit`] says.
pub fn scale_unit(m: u32, n: usize) -> (r: u128)
    requires
        m < SIG,
    ensures
        r == scaled_unit(m as nat, n as nat),
        r <= 4 * n,
{
    let rn = round_f32_exact(n as u128);
    assert(m as u128 * rn <= 0x100_0000 * 0x2_0000_0000_0000_0000) by (nonlinear_arith)
        requires m < 0x100_0000u128, rn <= 2 * (n as u128), n <= 0xFFFF_FFFF_FFFF_FFFFu128;
    let p = round_f32_exact(m as u128 * rn);
    assert(p / SIG <= 4 * (n as u128)) by (nonlinear_arith)
        requires p <= 2 * (m as u128 * rn), m < 0x100_0000u128, rn <= 2 * (n as u128), SIG == 0x100_0000u128;
    p / SIG
}

/// The single-precision bit pattern of `n as f32`.
pub fn count_to_f32_bits(n: u64) -> (r: u32)
    ensures
        r == f32_bits_of(round_f32(n as nat)),
{
    let v = round_f32_exact(n as u128);
    if v == 0 {
        return 0;
    }
    let mut t: u128 = v;
    let mut p: u128 = 1;
    let mut e: u32 = 0;
    while t >= 2
        invariant
            v >= 1,
            v <= 0x2_0000_0000_0000_0000,
            t >= 1,
            p >= 1,
            p <= v,
            e <= 65,
            t == v / p,
            p == two_pow(e as nat),
            log2_floor(v as nat) == e + log2_floor(t as nat),
        decreases t,
    {
        proof {
            vstd::arithmetic::div_mod::lemma_div_denominator(v as int, p as int, 2);
            vstd::arithmetic::div_mod::lemma_fundamental_div_mod(v as int, p as int);
            assert(2 * p <= v) by (nonlinear_arith)
                requires t == v / p, t >= 2, p >= 1, v == p * (v / p) + v % p, v % p >= 0;
            assert(two_pow((e + 1) as nat) == 2 * two_pow(e as nat));
            assert(e < 65) by {
                lemma_two_pow_grows((e + 1) as nat);
            }
        }
        t = t / 2;
        p = p * 2;
        e = e + 1;
    }
    proof {
        vstd::arithmetic::div_mod::lemma_fundamental_div_mod(v as int, p as int);
        assert(log2_floor(t as nat) == 0);
    }
    assert(p <= v && v < 2 * p) by (nonlinear_arith)
        requires t == v / p, t == 1, p >= 1, v == p * (v / p) + v % p, 0 <= v % p < p;
    let scaled = v * 0x80_0000 / p;
    assert(0x80_0000 <= scaled && scaled < 0x100_0000) by (nonlinear_arith)
        requires scaled as int == (v as int * 0x80_0000) / (p as int), p <= v, v < 2 * p, p >= 1;
    let bits = (e as u128 + 127) * 0x80_0000 + (scaled - 0x80_0000);
    assert(log2_floor(v as nat) == e);
    assert(scaled as int == (v as int * 0x80_0000) / (two_pow(e as nat) as int));
    assert(bits as int == f32_bits_of(v as nat));
    assert(bits < 0x1_0000_0000);
    bits as u32
}

/// `2^e` exceeds `e`, and a `2^e` no larger than `2^65` has `e <= 65`.
proof fn lemma_two_pow_grows(e: nat)
    ensures
        two_pow(e) > e,
        e >= 66 ==> two_pow(e) > 0x2_0000_0000_0000_0000,
    decreases e,
{
    if e > 0 {
        lemma_two_pow_grows((e - 1) as nat);
        if e == 66 {
            lemma_two_pow_65();
        }
    }
}

/// `2^106`.
pub proof fn lemma_two_pow_106()
    ensures
        two_pow(106) == 0x400_0000_0000_0000_0000_0000_0000,
{
    lemma_two_pow_65();
    lemma_two_pow_41();
    lemma_two_pow_add(65, 41);
}

/// `2^62`.
pub proof fn lemma_two_pow_62()
    ensures
        two_pow(62) == 0x4000_0000_0000_0000,
{
    reveal_with_fuel(two_pow, 63);
}

/// `2^65`.
pub proof fn lemma_two_pow_65()
    ensures
        two_pow(65) == 0x2_0000_0000_0000_0000,
{
    reveal_with_fuel(two_pow, 66);
}

/// `2^e` grows with `e`, and is at least 1.
pub proof fn lemma_two_pow_mono(a: nat, b: nat)
    requires
        a <= b,
    ensures
        two_pow(a) <= two_pow(b),
        two_pow(a) >= 1,
    decreases b,
{
    if b > a {
        lemma_two_pow_mono(a, (b - 1) as nat);
    } else if a > 0 {
        lemma_two_pow_mono((a - 1) as nat, (a - 1) as nat);
    }
}

/// `2^(x + y) == 2^x * 2^y`.
pub proof fn lemma_two_pow_add(x: nat, y: nat)
    ensures
        two_pow(x + y) == two_pow(x) * two_pow(y),
    decreases y,
{
    if y > 0 {
        let y1 = (y - 1) as nat;
        lemma_two_pow_add(x, y1);
        assert(x + y == (x + y1) + 1);
        assert(two_pow(x + y) == 2 * two_pow(x + y1));
        assert(two_pow(y) == 2 * two_pow(y1));
        assert(two_pow(x) * (2 * two_pow(y1)) == 2 * (two_pow(x) * two_pow(y1))) by (nonlinear_arith);
    } else {
        assert(two_pow(0) == 1);
        assert(x + y == x);
        assert(two_pow(x) * 1 == two_pow(x));
    }
}

/// `2^log2(v) <= v < 2^(log2(v) + 1)` for `v >= 1`.
pub proof fn lemma_log2_bounds(v: nat)
    requires
        v >= 1,
    ensures
        two_pow(log2_floor(v)) <= v < 2 * two_pow(log2_floor(v)),
    decreases v,
{
    if v >= 2 {
        lemma_log2_bounds(v / 2);
    }
}

/// `floor(log2(v))` for `1 <= v <= 2^64`.
pub(crate) fn log2_of(v: u128) -> (r: u32)
    requires
        1 <= v <= 0x1_0000_0000_0000_0000,
    ensures
        r == log2_floor(v as nat),
        r <= 64,
{
    let mut t: u128 = v;
    let mut e: u32 = 0;
    proof {
        lemma_log2_bounds(v as nat);
        lemma_two_pow_65();
        if log2_floor(v as nat) >= 65 {
            lemma_two_pow_mono(65, log2_floor(v as nat));
        }
    }
    while t >= 2
        invariant
            t >= 1,
            log2_floor(v as nat) == e + log2_floor(t as nat),
            log2_floor(v as nat) <= 64,
        decreases t,
    {
        t = t / 2;
        e = e + 1;
    }
    e
}

/// `2^e` for `e <= 127`.
pub(crate) fn pow2_of(e: u32) -> (r: u128)
    requires
        e <= 127,
    ensures
        r == two_pow(e as nat),
{
    let mut r: u128 = 1;
    let mut i: u32 = 0;
    assert(two_pow(127) == 0x8000_0000_0000_0000_0000_0000_0000_0000) by {
        lemma_two_pow_65();
        lemma_two_pow_62();
        lemma_two_pow_add(65, 62);
    }
    while i < e
        invariant
            i <= e,
            e <= 127,
            r == two_pow(i as nat),
            two_pow(127) == 0x8000_0000_0000_0000_0000_0000_0000_0000,
        decreases e - i,
    {
        proof {
            lemma_two_pow_mono((i + 1) as nat, 127);
        }
        r = r * 2;
        i = i + 1;
    }
    r
}

/// The exponent `e` with `2^e <= a / b < 2^(e + 1)`, for positive `a` and
/// `b`: the difference of their binary logarithms, less one when the leading
/// bits of `a` are below those of `b`.
pub open spec fn quotient_exponent(a: nat, b: nat) -> int {
    let la = log2_floor(a);
    let lb = log2_floor(b);
    if a * two_pow(lb) >= b * two_pow(la) {
        la - lb
    } else {
        la - lb - 1
    }
}

/// Numerator of `(a / b) * 2^(23 - e)` as a fraction of integers.
pub open spec fn quotient_num(a: nat, b: nat) -> nat {
    let e = quotient_exponent(a, b);
    if e <= 23 {
        a * two_pow((23 - e) as nat)
    } else {
        a
    }
}

/// Denominator of `(a / b) * 2^(23 - e)` as a fraction of integers.
pub open spec fn quotient_den(a: nat, b: nat) -> nat {
    let e = quotient_exponent(a, b);
    if e <= 23 {
        b
    } else {
        b * two_pow((e - 23) as nat)
    }
}

/// The bit pattern of `x / y` for `f32` values `x == a` and `y == b` (positive
/// integers) whose quotient is a normal `f32`: the significand
/// `(a / b) * 2^(23 - e)` rounded to the nearest integer, ties to even, under
/// the biased exponent `e + 127` (a significand rounded up to `2^24` carries
/// into the exponent).
pub open spec fn f32_quotient_bits(a: nat, b: nat) -> int {
    let e = quotient_exponent(a, b);
    let num = quotient_num(a, b);
    let den = quotient_den(a, b);
    let m = num / den;
    let r = num % den;
    let m2 = if 2 * r > den || (2 * r == den && m % 2 == 1) {
        m + 1
    } else {
        m
    };
    (e + 127) * 0x80_0000 + m2 - 0x80_0000
}

/// `2^23`.
pub proof fn lemma_two_pow_23()
    ensures
        two_pow(23) == 0x80_0000,
{
    reveal_with_fuel(two_pow, 24);
}

/// The scaled quotient has a 24-bit integer part: `2^23 <= num / den < 2^24`.
pub proof fn lemma_quotient_significand(a: nat, b: nat)
    requires
        a >= 1,
        b >= 1,
    ensures
        quotient_den(a, b) >= 1,
        quotient_den(a, b) * 0x80_0000 <= quotient_num(a, b) < quotient_den(a, b) * 0x100_0000,
        log2_floor(a) - log2_floor(b) - 1 <= quotient_exponent(a, b) <= log2_floor(a) - log2_floor(b),
{
    let la = log2_floor(a);
    let lb = log2_floor(b);
    let p = two_pow(la);
    let q = two_pow(lb);
    lemma_log2_bounds(a);
    lemma_log2_bounds(b);
    lemma_two_pow_mono(0, la);
    lemma_two_pow_mono(0, lb);
    lemma_two_pow_23();
    let e = quotient_exponent(a, b);
    let d: nat = if a * q >= b * p { 0 } else { 1 };
    let y = two_pow(lb + d);
    lemma_two_pow_add(lb, d);
    assert(two_pow(1) == 2) by {
        reveal_with_fuel(two_pow, 2);
    }
    assert(two_pow(0) == 1);
    assert(y == q * two_pow(d));
    // b * 2^e <= a < b * 2^(e + 1), multiplied out by y = 2^(lb + d).
    assert(b * p <= a * y && a * y < 2 * b * p) by {
        if d == 0 {
            assert(y == q);
            assert(a * q < 2 * b * p) by (nonlinear_arith)
                requires a < 2 * p, q <= b, p >= 1, q >= 1;
        } else {
            assert(y == 2 * q);
            assert(b * p <= a * (2 * q)) by (nonlinear_arith)
                requires b < 2 * q, p <= a, p >= 1, q >= 1;
            assert(a * (2 * q) < 2 * b * p) by (nonlinear_arith)
                requires a * q < b * p;
        }
    }
    assert(e == la - (lb + d));
    assert(y >= 1) by {
        lemma_two_pow_mono(0, lb + d);
    }
    if e <= 23 {
        let s = two_pow((23 - e) as nat);
        lemma_two_pow_add((23 - e) as nat, la);
        lemma_two_pow_add(23, lb + d);
        assert((23 - e) + la == 23 + (lb + d));
        assert(s * p == 0x80_0000 * y);
        assert(quotient_num(a, b) == a * s);
        assert(quotient_den(a, b) == b);
        assert(b * 0x80_0000 <= a * s && a * s < b * 0x100_0000) by (nonlinear_arith)
            requires b * p <= a * y, a * y < 2 * b * p, s * p == 0x80_0000 * y, p >= 1, y >= 1;
    } else {
        let s = two_pow((e - 23) as nat);
        lemma_two_pow_add((e - 23) as nat, lb + d);
        lemma_two_pow_add(((e - 23) + (lb + d)) as nat, 23);
        assert(((e - 23) + (lb + d)) + 23 == la);
        assert(s * y * 0x80_0000 == p);
        lemma_two_pow_mono(0, (e - 23) as nat);
        assert(quotient_num(a, b) == a);
        assert(quotient_den(a, b) == b * s);
        assert(b * s * 0x80_0000 <= a && a < b * s * 0x100_0000) by (nonlinear_arith)
            requires b * p <= a * y, a * y < 2 * b * p, s * y * 0x80_0000 == p, p >= 1, y >= 1;
        assert(b * s >= 1) by (nonlinear_arith)
            requires b >= 1, s >= 1;
    }
}

/// The bit pattern of `x / y` for the `f32` values `x == a` and `y == b`,
/// positive integers up to `2^64`, as [`f32_quotient_bits`] states it.
pub fn f32_quotient(a: u128, b: u128) -> (r: u32)
    requires
        1 <= a <= 0x1_0000_0000_0000_0000,
        1 <= b <= 0x1_0000_0000_0000_0000,
    ensures
        r == f32_quotient_bits(a as nat, b as nat),
{
    let la = log2_of(a);
    let lb = log2_of(b);
    let pa = pow2_of(64 - la);
    let pb = pow2_of(64 - lb);
    let ghost p = two_pow(la as nat);
    let ghost q = two_pow(lb as nat);
    proof {
        lemma_log2_bounds(a as nat);
        lemma_log2_bounds(b as nat);
        lemma_two_pow_mono(0, la as nat);
        lemma_two_pow_mono(0, lb as nat);
        lemma_two_pow_add((64 - la) as nat, la as nat);
        lemma_two_pow_add((64 - lb) as nat, lb as nat);
        lemma_two_pow_65();
        lemma_two_pow_add(64, 1);
        assert(two_pow(1) == 2) by {
            reveal_with_fuel(two_pow, 2);
        }
        assert(pa * p == two_pow(64) && pb * q == two_pow(64));
        assert(two_pow(64) == 0x1_0000_0000_0000_0000);
        assert(a * pa < 0x2_0000_0000_0000_0000) by (nonlinear_arith)
            requires a < 2 * p, pa * p == 0x1_0000_0000_0000_0000, p >= 1;
        assert(b * pb < 0x2_0000_0000_0000_0000) by (nonlinear_arith)
            requires b < 2 * q, pb * q == 0x1_0000_0000_0000_0000, q >= 1;
    }
    let big_a = a * pa;
    let big_b = b * pb;
    proof {
        let t = two_pow(64);
        assert((big_a >= big_b) == (a * q >= b * p)) by (nonlinear_arith)
            requires big_a == a * pa, big_b == b * pb, pa * p == t, pb * q == t, t >= 1, p >= 1, q >= 1;
    }
    let e: i64 = if big_a >= big_b {
        la as i64 - lb as i64
    } else {
        la as i64 - lb as i64 - 1
    };
    assert(e == quotient_exponent(a as nat, b as nat));
    proof {
        lemma_quotient_significand(a as nat, b as nat);
    }
    let num: u128;
    let den: u128;
    if e <= 23 {
        let s = pow2_of((23 - e) as u32);
        assert(a * s < 0x100_0000 * 0x1_0000_0000_0000_0000) by (nonlinear_arith)
            requires a * s < b * 0x100_0000, b <= 0x1_0000_0000_0000_0000;
        num = a * s;
        den = b;
    } else {
        let s = pow2_of((e - 23) as u32);
        assert(b * s <= 0x1_0000_0000_0000_0000) by (nonlinear_arith)
            requires b * s * 0x80_0000 <= a, a <= 0x1_0000_0000_0000_0000;
        num = a;
        den = b * s;
    }
    assert(num == quotient_num(a as nat, b as nat) && den == quotient_den(a as nat, b as nat));
    let m = num / den;
    let rem = num % den;
    assert(0x80_0000 <= m && m < 0x100_0000) by (nonlinear_arith)
        requires den * 0x80_0000 <= num, num < den * 0x100_0000, den >= 1, m == num / den;
    let m2 = if 2 * rem > den || (2 * rem == den && m % 2 == 1) {
        m + 1
    } else {
        m
    };
    let bits = (e + 127) as u128 * 0x80_0000 + m2 - 0x80_0000;
    bits as u32
}

/// The spacing search ends at a power of two `d >= 1` under which `v` has
/// at most 24 bits, and a spacing above 1 leaves `v / d` at least `2^23`.
proof fn lemma_spacing(v: nat, d: nat, j: nat) -> (k: nat)
    requires
        d == two_pow(j),
        d == 1 || d * 0x80_0000 <= v,
    ensures
        f32_spacing(v, d) == two_pow(k),
        f32_spacing(v, d) >= 1,
        f32_spacing(v, d) == 1 || f32_spacing(v, d) * 0x80_0000 <= v,
        v / f32_spacing(v, d) < SIG,
    decreases v / d,
{
    lemma_two_pow_mono(0, j);
    if v / d >= SIG {
        vstd::arithmetic::div_mod::lemma_div_denominator(v as int, d as int, 2);
        assert(2 * d * 0x80_0000 <= v) by (nonlinear_arith)
            requires v / d >= 0x100_0000, d >= 1;
        assert(two_pow(j + 1) == 2 * d);
        lemma_spacing(v, 2 * d, j + 1)
    } else {
        j
    }
}

/// An integer `k * 2^e` with `k < 2^24` is a single-precision float:
/// rounding leaves it unchanged.
pub proof fn lemma_round_f32_exact_value(k: nat, e: nat)
    requires
        k < SIG,
    ensures
        round_f32(k * two_pow(e)) == k * two_pow(e),
{
    let p = two_pow(e);
    let v = k * p;
    lemma_two_pow_mono(0, e);
    let j = lemma_spacing(v, 1, 0);
    let d = f32_spacing(v, 1);
    if j > e {
        lemma_two_pow_mono(e + 1, j);
        assert(two_pow(e + 1) == 2 * p);
        assert(d >= 2);
        assert(false) by (nonlinear_arith)
            requires d * 0x80_0000 <= v, v == k * p, d >= 2 * p, k < 0x100_0000, p >= 1;
    }
    let c = two_pow((e - j) as nat);
    lemma_two_pow_add(j, (e - j) as nat);
    assert(j + (e - j) as nat == e);
    assert(p == d * c);
    assert(v == (k * c) * d) by (nonlinear_arith)
        requires v == k * p, p == d * c;
    vstd::arithmetic::div_mod::lemma_mod_multiples_basic((k * c) as int, d as int);
    vstd::arithmetic::div_mod::lemma_div_multiples_vanish((k * c) as int, d as int);
    assert(d * (k * c) == (k * c) * d) by (nonlinear_arith);
    assert(v % d == 0);
    assert(v / d == k * c);
}

/// A count up to `2^24` is exactly a single-precision float.
pub proof fn lemma_round_f32_small(n: nat)
    requires
        n <= SIG,
    ensures
        round_f32(n) == n,
{
    if n < SIG {
        assert(two_pow(0) == 1);
        lemma_round_f32_exact_value(n, 0);
    } else {
        assert(two_pow(1) == 2) by {
            reveal_with_fuel(two_pow, 2);
        }
        lemma_round_f32_exact_value(0x80_0000, 1);
    }
}

/// For `n <= 2^24` rows, the uniform draw `u = m / 2^24` scaled to exactly
/// `n` rows lands between `floor(u * n)` and `ceil(u * n)`: at least `k`
/// whenever `u * n >= k`, and at most `k` whenever `u * n <= k`.
pub proof fn lemma_scaled_unit_brackets(m: nat, n: nat, k: nat)
    requires
        n <= SIG,
        k <= n,
    ensures
        k * SIG <= m * n ==> k <= scaled_unit(m, n),
        m * n <= k * SIG ==> scaled_unit(m, n) <= k,
{
    lemma_round_f32_small(n);
    lemma_two_pow_23();
    assert(two_pow(24) == SIG) by {
        reveal_with_fuel(two_pow, 25);
    }
    if k < SIG {
        lemma_round_f32_exact_value(k, 24);
    } else {
        assert(two_pow(25) == 0x200_0000) by {
            reveal_with_fuel(two_pow, 26);
        }
        assert(k * SIG == 0x80_0000 * two_pow(25));
        lemma_round_f32_exact_value(0x80_0000, 25);
    }
    let kk: nat = k * (SIG as nat);
    if kk <= m * n {
        lemma_round_f32_mono(kk, m * n);
        assert(k <= round_f32(m * n) / (SIG as nat)) by (nonlinear_arith)
            requires kk == k * SIG, kk <= round_f32(m * n), SIG == 0x100_0000;
    }
    if m * n <= kk {
        lemma_round_f32_mono(m * n, kk);
        assert(round_f32(m * n) / (SIG as nat) <= k) by (nonlinear_arith)
            requires kk == k * SIG, round_f32(m * n) <= kk, SIG == 0x100_0000;
    }
}

/// A positive integer rounds to a positive `f32`.
pub proof fn lemma_round_f32_positive(v: nat)
    requires
        v >= 1,
    ensures
        round_f32(v) >= 1,
{
    lemma_spacing(v, 1, 0);
    let d = f32_spacing(v, 1);
    let q = v / d;
    assert(q >= 1) by (nonlinear_arith)
        requires d == 1 || d * 0x80_0000 <= v, d >= 1, q == v / d, v >= 1;
    assert(q * d >= 1 && (q + 1) * d >= 1) by (nonlinear_arith)
        requires q >= 1, d >= 1;
}

/// Rounding an integer to the nearest `f32` never reverses an order.
pub proof fn lemma_round_f32_mono(v: nat, w: nat)
    requires
        v <= w,
    ensures
        round_f32(v) <= round_f32(w),
{
    let kv = lemma_spacing(v, 1, 0);
    let kw = lemma_spacing(w, 1, 0);
    let dv = f32_spacing(v, 1);
    let dw = f32_spacing(w, 1);
    let qv = v / dv;
    let qw = w / dw;
    let rv = v % dv;
    let rw = w % dw;
    vstd::arithmetic::div_mod::lemma_fundamental_div_mod(v as int, dv as int);
    vstd::arithmetic::div_mod::lemma_fundamental_div_mod(w as int, dw as int);
    // The spacing grows with the value.
    if dv > dw {
        if kv <= kw {
            lemma_two_pow_mono(kv, kw);
        }
        lemma_two_pow_mono(kw + 1, kv);
        assert(two_pow(kw + 1) == 2 * dw);
        assert(w / dw >= SIG) by (nonlinear_arith)
            requires dv * 0x80_0000 <= v, v <= w, dv >= 2 * dw, dw >= 1;
        assert(false);
    }
    let up_v = 2 * rv > dv || (2 * rv == dv && qv % 2 == 1);
    let up_w = 2 * rw > dw || (2 * rw == dw && qw % 2 == 1);
    assert(round_f32(v) == if up_v { (qv + 1) * dv } else { qv * dv });
    assert(round_f32(w) == if up_w { (qw + 1) * dw } else { qw * dw });
    if dv == dw {
        assert(qv <= qw) by {
            vstd::arithmetic::div_mod::lemma_div_is_ordered(v as int, w as int, dv as int);
        }
        if qv < qw {
            assert((qv + 1) * dv <= qw * dw) by (nonlinear_arith)
                requires qv + 1 <= qw, dv == dw, dv >= 1;
            assert(qv * dv <= (qv + 1) * dv) by (nonlinear_arith)
                requires dv >= 1;
            assert(qw * dw <= (qw + 1) * dw) by (nonlinear_arith)
                requires dw >= 1;
        } else {
            assert(rv <= rw);
            assert(up_v ==> up_w);
            assert(qv * dv <= (qv + 1) * dv) by (nonlinear_arith)
                requires dv >= 1;
        }
    } else {
        // dv < dw: both powers of two, so dw >= 2 dv, and w has at least
        // 2^23 * dw while the rounded v is at most 2^24 * dv.
        if kw <= kv {
            lemma_two_pow_mono(kw, kv);
        }
        lemma_two_pow_mono(kv + 1, kw);
        assert(two_pow(kv + 1) == 2 * dv);
        assert(dw > 1);
        assert(qw >= 0x80_0000) by (nonlinear_arith)
            requires dw * 0x80_0000 <= w, qw == w / dw, dw >= 1;
        assert(round_f32(v) <= (qv + 1) * dv) by (nonlinear_arith)
            requires round_f32(v) == (if up_v { (qv + 1) * dv } else { qv * dv }), dv >= 1;
        assert((qv + 1) * dv <= qw * dw) by (nonlinear_arith)
            requires qv < 0x100_0000, dw >= 2 * dv, qw >= 0x80_0000, dv >= 1;
        assert(qw * dw <= round_f32(w)) by (nonlinear_arith)
            requires round_f32(w) == (if up_w { (qw + 1) * dw } else { qw * dw }), dw >= 1;
    }
}

/// The spacing of `v >= 1` is at least 1, and a spacing above 1 leaves at
/// least `2^23` of itself in `v`.
pub proof fn lemma_spacing_bounds(v: nat)
    requires
        v >= 1,
    ensures
        f32_spacing(v, 1) >= 1,
        f32_spacing(v, 1) > 1 ==> f32_spacing(v, 1) * 0x80_0000 <= v,
{
    lemma_spacing(v, 1, 0);
}

} // verus!
