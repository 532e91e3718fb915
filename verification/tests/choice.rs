use sylva_core::choice::{improves_on, SplitKey};

fn key(feature_id: usize, threshold: f32, improvement: f32) -> SplitKey {
    SplitKey { feature_id, threshold_bits: threshold.to_bits(), improvement_bits: improvement.to_bits() }
}

fn native_better(c: (usize, f32, f32), b: (usize, f32, f32)) -> bool {
    c.2 > b.2 || (c.2 == b.2 && (c.0, c.1.to_bits()) < (b.0, b.1.to_bits()))
}

#[test]
fn first_candidate_always_taken() {
    assert!(improves_on(&key(3, 1.0, f32::NAN), &None));
    assert!(improves_on(&key(0, 0.5, -2.0), &None));
}

#[test]
fn larger_improvement_wins() {
    let best = Some(key(0, 1.0, 0.25));
    assert!(improves_on(&key(5, 9.0, 0.5), &best));
    assert!(!improves_on(&key(0, 0.0, 0.125), &best));
}

#[test]
fn equal_improvement_breaks_ties_by_feature_then_threshold() {
    let best = Some(key(2, 1.5, 0.5));
    assert!(improves_on(&key(1, 7.0, 0.5), &best));
    assert!(!improves_on(&key(3, 0.0, 0.5), &best));
    assert!(improves_on(&key(2, 1.25, 0.5), &best));
    assert!(!improves_on(&key(2, 1.5, 0.5), &best));
    // +0.0 and -0.0 are equal improvements.
    let zero = Some(key(4, 1.0, 0.0));
    assert!(improves_on(&key(3, 1.0, -0.0), &zero));
}

#[test]
fn nan_improvement_never_replaces_and_is_never_replaced() {
    let best = Some(key(2, 1.0, 0.5));
    assert!(!improves_on(&key(0, 1.0, f32::NAN), &best));
    let nan_best = Some(key(2, 1.0, f32::NAN));
    assert!(!improves_on(&key(0, 1.0, 100.0), &nan_best));
}

#[test]
fn agrees_with_native_comparison() {
    let specials = [0.0f32, -0.0, 1.0, -1.0, f32::INFINITY, f32::NEG_INFINITY, f32::NAN, f32::MIN_POSITIVE, -f32::MIN_POSITIVE, 1e-45, -1e-45, f32::MAX, f32::MIN];
    let mut vals: Vec<f32> = specials.to_vec();
    let mut state: u64 = 0x2545_F491_4F6C_DD1D;
    for _ in 0..300 {
        state = state.wrapping_mul(6364136223846793005).wrapping_add(1442695040888963407);
        vals.push(f32::from_bits((state >> 32) as u32));
    }
    for (i, &a) in vals.iter().enumerate() {
        for (j, &b) in vals.iter().enumerate() {
            let c = ((i % 3), a, a);
            let d = ((j % 3), b, b);
            let got = improves_on(&key(c.0, c.1, c.2), &Some(key(d.0, d.1, d.2)));
            assert_eq!(got, native_better(c, d), "{:?} vs {:?}", a, b);
        }
    }
}

#[test]
fn running_choice_is_the_unique_maximum() {
    let cands = [key(1, 0.5, 0.25), key(0, 2.0, 0.75), key(3, 1.0, 0.75), key(0, 1.0, 0.75), key(2, 3.0, 0.1)];
    let mut best: Option<SplitKey> = None;
    for c in &cands {
        if improves_on(c, &best) {
            best = Some(*c);
        }
    }
    assert_eq!(best, Some(key(0, 1.0, 0.75)));
    let mut rev_best: Option<SplitKey> = None;
    for c in cands.iter().rev() {
        if improves_on(c, &rev_best) {
            rev_best = Some(*c);
        }
    }
    assert_eq!(rev_best, best);
}
