use sylva_core::config::{Algo, Criterion, MaxFeatures, TrainConfig};
use sylva_core::error::SylvaError;
use sylva_core::launch::{check_vector_add, first_out_of_range_bin, histogram_blocks, LaunchInputError};
use sylva_core::settings::{
    parse_config, parse_config_named, ConfigError, ConfigKey, RawConfig, RawCount, RawDepth, RawFlag, RawMaxFeatures,
    RawSeed,
};

fn empty() -> RawConfig {
    RawConfig {
        algo: None,
        criterion: None,
        max_features: RawMaxFeatures::Missing,
        max_depth: RawDepth::Missing,
        n_estimators: RawCount::Missing,
        min_samples_split: RawCount::Missing,
        min_samples_leaf: RawCount::Missing,
        bootstrap: RawFlag::Missing,
        seed: RawSeed::Missing,
    }
}

#[test]
fn defaults_describe_extra_trees() {
    let cfg = parse_config(&empty()).expect("defaults are valid");
    assert_eq!(
        cfg,
        TrainConfig {
            n_estimators: 200,
            max_depth: None,
            max_features: MaxFeatures::Sqrt,
            min_samples_split: 2,
            min_samples_leaf: 1,
            bootstrap: false,
            criterion: Criterion::Gini,
            seed: 42,
            algo: Algo::ExtraTrees,
        }
    );
}

#[test]
fn names_are_case_insensitive_and_rf_bootstraps() {
    let raw = RawConfig {
        algo: Some("RandomForest".to_string()),
        criterion: Some("Squared_Error".to_string()),
        max_features: RawMaxFeatures::Text("NONE".to_string()),
        max_depth: RawDepth::Value(7),
        seed: RawSeed::Value(9),
        ..empty()
    };
    let cfg = parse_config(&raw).unwrap();
    assert_eq!(cfg.algo, Algo::RandomForest);
    assert!(cfg.bootstrap);
    assert_eq!(cfg.criterion, Criterion::Mse);
    assert_eq!(cfg.max_features, MaxFeatures::All);
    assert_eq!(cfg.max_depth, Some(7));
    assert_eq!(cfg.seed, 9);
    let raw = RawConfig { algo: Some("rf".to_string()), bootstrap: RawFlag::Value(false), ..empty() };
    assert!(!parse_config(&raw).unwrap().bootstrap);
}

#[test]
fn first_problem_is_reported() {
    let raw = RawConfig {
        algo: Some("GBM".to_string()),
        criterion: Some("bogus".to_string()),
        n_estimators: RawCount::Invalid,
        ..empty()
    };
    assert_eq!(parse_config(&raw), Err(ConfigError::UnknownAlgo("gbm".to_string())));
    let raw = RawConfig { criterion: Some("Bogus".to_string()), n_estimators: RawCount::Invalid, ..empty() };
    assert_eq!(parse_config(&raw), Err(ConfigError::UnknownCriterion("bogus".to_string())));
    let raw = RawConfig { max_features: RawMaxFeatures::Text("Log2".to_string()), ..empty() };
    assert_eq!(parse_config(&raw), Err(ConfigError::UnknownMaxFeatures("log2".to_string())));
    let raw = RawConfig { max_features: RawMaxFeatures::FractionOutOfRange, ..empty() };
    assert_eq!(parse_config(&raw), Err(ConfigError::FractionOutOfRange));
    let raw = RawConfig { max_features: RawMaxFeatures::Unsupported, ..empty() };
    assert_eq!(parse_config(&raw), Err(ConfigError::UnsupportedMaxFeatures));
    let raw = RawConfig { max_depth: RawDepth::Invalid, n_estimators: RawCount::Invalid, ..empty() };
    assert_eq!(parse_config(&raw), Err(ConfigError::BadMaxDepth));
    let raw = RawConfig { min_samples_leaf: RawCount::Invalid, bootstrap: RawFlag::Invalid, ..empty() };
    assert_eq!(parse_config(&raw), Err(ConfigError::NotAnInt(ConfigKey::MinSamplesLeaf)));
    let raw = RawConfig { bootstrap: RawFlag::Invalid, seed: RawSeed::Invalid, ..empty() };
    assert_eq!(parse_config(&raw), Err(ConfigError::NotABool));
    let raw = RawConfig { seed: RawSeed::Invalid, ..empty() };
    assert_eq!(parse_config(&raw), Err(ConfigError::NotAnInt(ConfigKey::Seed)));
    let raw = RawConfig { n_estimators: RawCount::Value(0), ..empty() };
    assert_eq!(
        parse_config(&raw),
        Err(ConfigError::Invalid(SylvaError::InvalidConfig("n_estimators must be >= 1".to_string())))
    );
}

#[test]
fn launch_checks() {
    assert_eq!(check_vector_add(4, 4), Ok(4));
    assert_eq!(check_vector_add(4, 3), Err(LaunchInputError::LengthMismatch { a_len: 4, b_len: 3 }));
    let bins: Vec<u8> = (0..1000).map(|i| ((i * 31 + 7) % 256) as u8).collect();
    assert_eq!(first_out_of_range_bin(&bins), None);
    assert_eq!(histogram_blocks(0), 1);
    assert_eq!(histogram_blocks(1), 1);
    assert_eq!(histogram_blocks(256), 1);
    assert_eq!(histogram_blocks(257), 2);
    assert_eq!(histogram_blocks(100_000), 391);
}

#[test]
fn named_parse_reads_the_given_lower_case_names() {
    let mut raw = empty();
    raw.max_features = RawMaxFeatures::Text("ALL".to_string());
    let cfg = parse_config_named(&raw, &"rf".to_string(), &"entropy".to_string(), &"all".to_string()).unwrap();
    assert_eq!(cfg.algo, Algo::RandomForest);
    assert!(cfg.bootstrap);
    assert_eq!(cfg.criterion, Criterion::Entropy);
    assert_eq!(cfg.max_features, MaxFeatures::All);
    // The names given are matched as they are: an upper-case name is unknown here.
    assert_eq!(
        parse_config_named(&raw, &"RF".to_string(), &"gini".to_string(), &"all".to_string()),
        Err(ConfigError::UnknownAlgo("RF".to_string()))
    );
    assert_eq!(
        parse_config_named(&raw, &"et".to_string(), &"gini".to_string(), &"log2".to_string()),
        Err(ConfigError::UnknownMaxFeatures("log2".to_string()))
    );
    // The library's parse lower-cases first.
    assert_eq!(parse_config(&raw).unwrap().max_features, MaxFeatures::All);
}
