use sylva_core::float::{count_to_f32_bits, f32_quotient, round_f32_exact, scale_unit};
use sylva_core::split::leaf_probabilities;

/// A small deterministic generator for test inputs.
fn next(state: &mut u64) -> u64 {
    *state ^= *state << 13;
    *state ^= *state >> 7;
    *state ^= *state << 17;
    *state
}

#[test]
fn count_bits_match_native_conversion() {
    let fixed: [u64; 12] = [
        0,
        1,
        2,
        3,
        255,
        16_777_215,
        16_777_216,
        16_777_217,
        16_777_219,
        (1u64 << 40) + 12345,
        u64::MAX,
        u64::MAX - (1u64 << 39),
    ];
    for &n in &fixed {
        assert_eq!(count_to_f32_bits(n), (n as f32).to_bits(), "n = {n}");
    }
    let mut s = 0x9E37_79B9_7F4A_7C15u64;
    for _ in 0..20_000 {
        let n = next(&mut s) >> (next(&mut s) % 64);
        assert_eq!(count_to_f32_bits(n), (n as f32).to_bits(), "n = {n}");
    }
}

#[test]
fn rounding_matches_native_conversion() {
    let mut s = 0x1234_5678_9ABC_DEF0u64;
    for _ in 0..20_000 {
        let n = next(&mut s) >> (next(&mut s) % 64);
        assert_eq!(round_f32_exact(n as u128), (n as f32) as u128, "n = {n}");
    }
    assert_eq!(round_f32_exact(16_777_217), 16_777_216);
    assert_eq!(round_f32_exact(16_777_219), 16_777_220);
}

#[test]
fn unit_scaling_matches_single_precision_product() {
    let mut s = 0xDEAD_BEEF_0BAD_F00Du64;
    for _ in 0..50_000 {
        let m = (next(&mut s) & 0x00FF_FFFF) as u32;
        let n = (next(&mut s) >> (next(&mut s) % 64)) as usize;
        let u = m as f32 * (1.0 / 16_777_216.0);
        let native = (u * n as f32) as usize;
        assert_eq!(scale_unit(m, n), native as u128, "m = {m}, n = {n}");
    }
    assert_eq!(scale_unit(0x00FF_FFFF, 10), 9);
    assert_eq!(scale_unit(0x0080_0000, 10), 5);
    assert_eq!(scale_unit(0, 10), 0);
}

#[test]
fn quotient_matches_native_division() {
    let mut s: u64 = 0x9E37_79B9_7F4A_7C15;
    for i in 0..60_000 {
        let x = next(&mut s) >> (next(&mut s) % 64);
        let y = next(&mut s) >> (next(&mut s) % 64);
        let (x, y) = (x.max(1), y.max(1));
        let (xf, yf) = (x as f32, y as f32);
        let got = f32_quotient(xf as u128, yf as u128);
        assert_eq!(got, (xf / yf).to_bits(), "case {}: {} / {}", i, x, y);
    }
    assert_eq!(f32_quotient(1, 3), (1.0f32 / 3.0).to_bits());
    assert_eq!(f32_quotient(7, 7), 1.0f32.to_bits());
    assert_eq!(f32_quotient(1 << 64, 1), 18_446_744_073_709_551_616.0f32.to_bits());
    assert_eq!(f32_quotient(1, 1 << 64), (1.0f32 / 18_446_744_073_709_551_616.0).to_bits());
}

#[test]
fn leaf_probabilities_match_normalized_counts() {
    let counts: Vec<u64> = vec![0, 1, 2, 7];
    let total = 10usize;
    let p = leaf_probabilities(&counts, total);
    let expect: Vec<u32> = counts.iter().map(|&c| (c as f32 / total as f32).to_bits()).collect();
    assert_eq!(p, expect);
    assert_eq!(f32::from_bits(p[3]), 0.7f32);
    // An empty node gives zeros; a class holding every row gives exactly 1.0.
    assert_eq!(leaf_probabilities(&vec![0, 0], 0), vec![0, 0]);
    assert_eq!(leaf_probabilities(&vec![5, 0], 5), vec![1.0f32.to_bits(), 0]);
    let mut s: u64 = 17;
    for _ in 0..2_000 {
        let total = (next(&mut s) % 5_000_000) as usize + 1;
        let counts: Vec<u64> = (0..4).map(|_| next(&mut s) % (total as u64 + 1)).collect();
        let p = leaf_probabilities(&counts, total);
        for (k, &c) in counts.iter().enumerate() {
            assert_eq!(p[k], (c as f32 / total as f32).to_bits());
        }
    }
}

#[test]
fn leaf_probabilities_lie_in_unit_interval() {
    let mut s: u64 = 4242;
    for _ in 0..3_000 {
        let total = (next(&mut s) >> (next(&mut s) % 64)) as usize;
        let total = total.max(1);
        let counts: Vec<u64> = (0..3).map(|_| next(&mut s) % (total as u64).saturating_add(1).max(1)).collect();
        for &p in &leaf_probabilities(&counts, total) {
            let v = f32::from_bits(p);
            assert!((0.0..=1.0).contains(&v), "{v} for total {total}");
        }
    }
    assert_eq!(leaf_probabilities(&vec![u64::MAX - 5], usize::MAX), vec![1.0f32.to_bits()]);
}
