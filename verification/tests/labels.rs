use sylva_core::labels::{scan_labels, LabelScan};

fn next(state: &mut u64) -> u64 {
    *state ^= *state << 13;
    *state ^= *state >> 7;
    *state ^= *state << 17;
    *state
}

fn native_valid(v: f32) -> bool {
    !(v < 0.0 || v.fract() != 0.0)
}

#[test]
fn label_checks_match_native_float_semantics() {
    let mut s = 0x5151_7777_AAAA_0001u64;
    let mut patterns: Vec<u32> = vec![
        0,
        0x8000_0000,
        1.0f32.to_bits(),
        2.5f32.to_bits(),
        (-1.0f32).to_bits(),
        f32::NAN.to_bits(),
        f32::INFINITY.to_bits(),
        f32::NEG_INFINITY.to_bits(),
        1e30f32.to_bits(),
        16_777_216.0f32.to_bits(),
        9.3e18f32.to_bits(),
        1.8e19f32.to_bits(),
        f32::MAX.to_bits(),
        1,
    ];
    for _ in 0..20_000 {
        patterns.push(next(&mut s) as u32);
        let small = (next(&mut s) % 5000) as f32 * if next(&mut s) % 3 == 0 { 0.5 } else { 1.0 };
        patterns.push(small.to_bits());
    }
    for &b in &patterns {
        let v = f32::from_bits(b);
        match scan_labels(&vec![b]) {
            LabelScan::Invalid(bad) => {
                assert_eq!(bad, b);
                assert!(!native_valid(v), "v = {v}");
            }
            LabelScan::Labels { classes, max_label } => {
                assert!(native_valid(v), "v = {v}");
                assert_eq!(classes, vec![v as usize], "v = {v}");
                assert_eq!(max_label, Some((v as i64) as u64), "v = {v}");
            }
        }
    }
}

#[test]
fn scan_reports_first_bad_label_and_maximum() {
    let y: Vec<u32> = [0.0f32, 2.0, 1.0].iter().map(|v| v.to_bits()).collect();
    assert_eq!(scan_labels(&y), LabelScan::Labels { classes: vec![0, 2, 1], max_label: Some(2) });
    let y: Vec<u32> = [0.0f32, 1.5, -1.0].iter().map(|v| v.to_bits()).collect();
    assert_eq!(scan_labels(&y), LabelScan::Invalid(1.5f32.to_bits()));
    assert_eq!(scan_labels(&vec![]), LabelScan::Labels { classes: vec![], max_label: None });
}
