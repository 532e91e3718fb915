use std::collections::HashSet;

use sylva_core::rng::{pack_counter, philox4x32_10, philox_uniform, seed_to_key, unit_numerator};

/// `ctr = {0,0,0,0}`, `key = {0,0}`.
const KAT_ZERO: ([u32; 4], [u32; 2], [u32; 4]) = (
    [0x0000_0000, 0x0000_0000, 0x0000_0000, 0x0000_0000],
    [0x0000_0000, 0x0000_0000],
    [0x6627_e8d5, 0xe169_c58d, 0xbc57_ac4c, 0x9b00_dbd8],
);

/// `ctr = {0xffffffff x 4}`, `key = {0xffffffff x 2}`.
const KAT_ONES: ([u32; 4], [u32; 2], [u32; 4]) = (
    [0xFFFF_FFFF, 0xFFFF_FFFF, 0xFFFF_FFFF, 0xFFFF_FFFF],
    [0xFFFF_FFFF, 0xFFFF_FFFF],
    [0x408f_276d, 0x41c8_3b0e, 0xa20b_c7c6, 0x6d54_51fd],
);

/// `ctr`/`key` = digits of pi.
const KAT_MIXED: ([u32; 4], [u32; 2], [u32; 4]) = (
    [0x243f_6a88, 0x85a3_08d3, 0x1319_8a2e, 0x0370_7344],
    [0xa409_3822, 0x299f_31d0],
    [0xd16c_fe09, 0x94fd_cceb, 0x5001_e420, 0x2412_6ea1],
);

/// The uniform `f32` whose numerator over `2^24` is `m`.
fn unit(m: u32) -> f32 {
    m as f32 * (1.0 / 16_777_216.0)
}

#[test]
fn philox_matches_kat_vectors() {
    assert_eq!(philox4x32_10(KAT_ZERO.0, KAT_ZERO.1), KAT_ZERO.2, "all-zero KAT");
    assert_eq!(philox4x32_10(KAT_ONES.0, KAT_ONES.1), KAT_ONES.2, "all-ones KAT");
    assert_eq!(philox4x32_10(KAT_MIXED.0, KAT_MIXED.1), KAT_MIXED.2, "mixed KAT");
}

#[test]
fn unit_f32_in_range() {
    assert!((0.0..1.0).contains(&unit(unit_numerator(0))));
    let top = unit(unit_numerator(0xFFFF_FFFF));
    assert!((0.0..1.0).contains(&top), "0xFFFFFFFF must map below 1.0");
}

#[test]
fn counter_packing_injective() {
    let mut seen = HashSet::new();
    for tree in 0..4u32 {
        for node in 0..4u32 {
            for feature in 0..4u32 {
                for draw in 0..4u32 {
                    assert!(
                        seen.insert(pack_counter(tree, node, feature, draw)),
                        "distinct (tree,node,feature,draw) must give distinct counters"
                    );
                }
            }
        }
    }
}

#[test]
fn philox_uniform_is_deterministic() {
    let a = unit(philox_uniform(7, 1, 2, 3, 4));
    let b = unit(philox_uniform(7, 1, 2, 3, 4));
    assert_eq!(a, b);
    assert!((0.0..1.0).contains(&a));
}

#[test]
fn unit_numerator_keeps_top_24_bits() {
    assert_eq!(unit_numerator(0xFFFF_FFFF), 0x00FF_FFFF);
    assert_eq!(unit_numerator(0x0000_00FF), 0);
    assert_eq!(unit_numerator(0x1234_5678), 0x0012_3456);
}

#[test]
fn philox_uniform_uses_seed_words_and_counter() {
    let seed: u64 = 0x0123_4567_89AB_CDEF;
    let out = philox4x32_10([5, 6, 7, 8], [0x89AB_CDEF, 0x0123_4567]);
    assert_eq!(philox_uniform(seed, 5, 6, 7, 8), out[0] >> 8);
    assert_ne!(philox_uniform(seed, 5, 6, 7, 8), philox_uniform(seed, 5, 6, 7, 9));
}

#[test]
fn pack_counter_layout() {
    assert_eq!(pack_counter(1, 2, 3, 4), [1, 2, 3, 4]);
}

#[test]
fn distinct_coordinates_give_distinct_blocks() {
    let key = seed_to_key(42);
    let mut seen = HashSet::new();
    for t in 0..4u32 {
        for n in 0..4u32 {
            for f in 0..4u32 {
                for d in 0..4u32 {
                    let c = pack_counter(t, n, f, d);
                    assert!(seen.insert(philox4x32_10(c, key)));
                }
            }
        }
    }
}
