use sylva_core::config::{Algo, Criterion, MaxFeatures, Task, TrainConfig};
use sylva_core::error::{decimal_text, SylvaError};
use sylva_core::fit::{check_training_shape, prepare_fit, FitRefusal};

fn cfg() -> TrainConfig {
    TrainConfig {
        n_estimators: 5,
        max_depth: Some(4),
        max_features: MaxFeatures::Sqrt,
        min_samples_split: 2,
        min_samples_leaf: 1,
        bootstrap: false,
        criterion: Criterion::Gini,
        seed: 42,
        algo: Algo::ExtraTrees,
    }
}

fn config_message(r: Result<(), SylvaError>) -> String {
    match r {
        Err(SylvaError::InvalidConfig(m)) => m,
        other => panic!("expected InvalidConfig, got {other:?}"),
    }
}

#[test]
fn validate_accepts_defaults() {
    assert!(cfg().validate().is_ok());
    let c = TrainConfig { max_features: MaxFeatures::Fraction(1.0f32.to_bits()), ..cfg() };
    assert!(c.validate().is_ok());
    let c = TrainConfig { max_features: MaxFeatures::Fraction(0.25f32.to_bits()), ..cfg() };
    assert!(c.validate().is_ok());
    let c = TrainConfig { max_features: MaxFeatures::Count(3), ..cfg() };
    assert!(c.validate().is_ok());
}

#[test]
fn validate_names_first_broken_rule() {
    let c = TrainConfig { n_estimators: 0, min_samples_leaf: 0, ..cfg() };
    assert_eq!(config_message(c.validate()), "n_estimators must be >= 1");
    let c = TrainConfig { min_samples_leaf: 0, ..cfg() };
    assert_eq!(config_message(c.validate()), "min_samples_leaf must be >= 1");
    let c = TrainConfig { min_samples_split: 1, ..cfg() };
    assert_eq!(config_message(c.validate()), "min_samples_split must be >= 2");
    let c = TrainConfig { max_features: MaxFeatures::Count(0), ..cfg() };
    assert_eq!(config_message(c.validate()), "max_features count must be >= 1");
}

#[test]
fn fraction_outside_unit_interval_is_refused() {
    for f in [0.0f32, -0.0, -0.5, 1.000_000_1, 2.0, f32::NAN, f32::INFINITY, f32::NEG_INFINITY] {
        let c = TrainConfig { max_features: MaxFeatures::Fraction(f.to_bits()), ..cfg() };
        assert_eq!(config_message(c.validate()), "max_features fraction must be in (0, 1]", "f = {f}");
    }
    for f in [f32::MIN_POSITIVE, 1e-30, 0.5, 0.999_999_9, 1.0] {
        let c = TrainConfig { max_features: MaxFeatures::Fraction(f.to_bits()), ..cfg() };
        assert!(c.validate().is_ok(), "f = {f}");
    }
}

#[test]
fn training_shape_checks() {
    assert!(check_training_shape(20, 2, 20).is_ok());
    match check_training_shape(0, 2, 0) {
        Err(SylvaError::InvalidInput(m)) => assert_eq!(m, "X has 0 rows"),
        other => panic!("{other:?}"),
    }
    match check_training_shape(3, 0, 3) {
        Err(SylvaError::InvalidInput(m)) => assert_eq!(m, "X has 0 features"),
        other => panic!("{other:?}"),
    }
    match check_training_shape(20, 2, 5) {
        Err(SylvaError::InvalidInput(m)) => assert_eq!(m, "y length 5 != X rows 20"),
        other => panic!("{other:?}"),
    }
}

fn native_resolve(m: MaxFeatures, n: usize) -> usize {
    let k = match m {
        MaxFeatures::Sqrt => (n as f64).sqrt().floor() as usize,
        MaxFeatures::Fraction(b) => ((f32::from_bits(b) as f64) * n as f64).floor() as usize,
        MaxFeatures::All => n,
        MaxFeatures::Count(c) => c,
    };
    k.clamp(1, n.max(1))
}

#[test]
fn resolve_examples() {
    let t = Task::Classification { n_classes: 2 };
    assert_eq!(MaxFeatures::Sqrt.resolve(50, t), 7);
    assert_eq!(MaxFeatures::Sqrt.resolve(49, t), 7);
    assert_eq!(MaxFeatures::Sqrt.resolve(0, t), 1);
    assert_eq!(MaxFeatures::Sqrt.resolve(3, t), 1);
    assert_eq!(MaxFeatures::Fraction(0.5f32.to_bits()).resolve(9, Task::Regression), 4);
    assert_eq!(MaxFeatures::Fraction(1.0f32.to_bits()).resolve(9, Task::Regression), 9);
    assert_eq!(MaxFeatures::Fraction(0.01f32.to_bits()).resolve(9, Task::Regression), 1);
    assert_eq!(MaxFeatures::Fraction(f32::NAN.to_bits()).resolve(9, Task::Regression), 1);
    assert_eq!(MaxFeatures::Fraction(f32::INFINITY.to_bits()).resolve(9, Task::Regression), 9);
    assert_eq!(MaxFeatures::Fraction((-0.5f32).to_bits()).resolve(9, Task::Regression), 1);
    assert_eq!(MaxFeatures::All.resolve(12, t), 12);
    assert_eq!(MaxFeatures::All.resolve(0, t), 1);
    assert_eq!(MaxFeatures::Count(30).resolve(12, t), 12);
    assert_eq!(MaxFeatures::Count(0).resolve(12, t), 1);
    assert_eq!(MaxFeatures::Count(5).resolve(12, t), 5);
}

#[test]
fn resolve_matches_double_precision() {
    let mut s: u64 = 0x1234_5678_9ABC_DEF1;
    let mut next = || {
        s ^= s << 13;
        s ^= s >> 7;
        s ^= s << 17;
        s
    };
    let big = [
        usize::MAX,
        usize::MAX - 1,
        (1usize << 53) + 1,
        (1usize << 60) - 1,
        ((1usize << 30) + 1) * ((1usize << 30) + 1) - 1,
        ((1usize << 31) - 1) * ((1usize << 31) - 1) - 1,
        4_294_967_295usize * 4_294_967_295usize,
    ];
    for &n in &big {
        assert_eq!(MaxFeatures::Sqrt.resolve(n, Task::Regression), native_resolve(MaxFeatures::Sqrt, n), "sqrt {}", n);
    }
    for i in 0..40_000 {
        let n = (next() >> (next() % 64)) as usize;
        let m = match i % 3 {
            0 => MaxFeatures::Sqrt,
            1 => MaxFeatures::Fraction(next() as u32),
            _ => MaxFeatures::Fraction(f32::from_bits(0x3F80_0000 - (next() as u32 % 0x0100_0000)).to_bits()),
        };
        assert_eq!(m.resolve(n, Task::Regression), native_resolve(m, n), "{:?} {}", m, n);
    }
}

#[test]
fn decimal_text_matches_display() {
    for n in [0usize, 1, 9, 10, 11, 99, 100, 12345, usize::MAX, usize::MAX / 10, 1 << 40] {
        assert_eq!(decimal_text(n), format!("{}", n));
    }
    let mut s: u64 = 99;
    for _ in 0..2000 {
        s = s.wrapping_mul(6364136223846793005).wrapping_add(1442695040888963407);
        let n = (s >> (s % 61)) as usize;
        assert_eq!(decimal_text(n), n.to_string());
    }
}

fn fbits(v: &[f32]) -> Vec<u32> {
    v.iter().map(|x| x.to_bits()).collect()
}

#[test]
fn prepare_fit_checks_config_then_shape_then_labels() {
    let mut bad = cfg();
    bad.n_estimators = 0;
    assert_eq!(
        prepare_fit(&bad, 0, 2, &vec![]),
        Err(FitRefusal::Invalid(SylvaError::InvalidConfig("n_estimators must be >= 1".to_string())))
    );
    assert_eq!(
        prepare_fit(&cfg(), 3, 2, &fbits(&[0.0, -1.0])),
        Err(FitRefusal::Invalid(SylvaError::InvalidInput("y length 2 != X rows 3".to_string())))
    );
    assert_eq!(prepare_fit(&cfg(), 3, 2, &fbits(&[0.0, -1.0, 0.5])), Err(FitRefusal::BadLabel((-1.0f32).to_bits())));
    let (task, classes) = prepare_fit(&cfg(), 4, 2, &fbits(&[0.0, 2.0, 1.0, 2.0])).unwrap();
    assert_eq!(task, Task::Classification { n_classes: 3 });
    assert_eq!(classes, vec![0, 2, 1, 2]);
    let mut reg = cfg();
    reg.criterion = Criterion::Mse;
    let (task, classes) = prepare_fit(&reg, 3, 2, &fbits(&[0.5, -1.0, f32::NAN])).unwrap();
    assert_eq!(task, Task::Regression);
    assert!(classes.is_empty());
}
