//! Turning loosely typed configuration entries (as read from a Python dict
//! by the caller) into a [`TrainConfig`]: names are matched case-insensitively,
//! missing entries take their defaults, and the first problem found, in a
//! fixed order, is reported.
use vstd::prelude::*;
use crate::config::{Algo, Criterion, MaxFeatures, TrainConfig};
use crate::error::SylvaError;

verus! {

/// The result of lower-casing a string (`str::to_lowercase`).
pub uninterp spec fn spec_lowercase(s: Seq<char>) -> Seq<char>;

/// `str::to_lowercase`: the Unicode lower-case mapping of `s`.
#[verifier::external_body]
fn lowercase(s: &str) -> (r: String)
    ensures
        r@ == spec_lowercase(s@),
{
    s.to_lowercase()
}

/// Whether `a` is the string `b`.
fn same_text(a: &String, b: &str) -> (r: bool)
    ensures
        r == (a@ == b@),
{
    *a == String::from_str(b)
}

/// An integer entry: absent, a non-negative integer, or something else.
#[derive(Debug, Clone, Copy, PartialEq, Eq, Structural)]
pub enum RawCount {
    Missing,
    Value(usize),
    Invalid,
}

/// A seed entry: absent, a non-negative 64-bit integer, or something else.
#[derive(Debug, Clone, Copy, PartialEq, Eq, Structural)]
pub enum RawSeed {
    Missing,
    Value(u64),
    Invalid,
}

/// A boolean entry: absent, a bool, or something else.
#[derive(Debug, Clone, Copy, PartialEq, Eq, Structural)]
pub enum RawFlag {
    Missing,
    Value(bool),
    Invalid,
}

/// The depth entry: absent, `None` (unlimited), a non-negative integer, or
/// something else.
#[derive(Debug, Clone, Copy, PartialEq, Eq, Structural)]
pub enum RawDepth {
    Missing,
    Unlimited,
    Value(usize),
    Invalid,
}

/// The max-features entry: absent; a string; a float in `(0, 1]` (as the bit
/// pattern of its `f32` value); a float outside `(0, 1]`; an integer count;
/// or something else.
#[derive(Debug, Clone)]
pub enum RawMaxFeatures {
    Missing,
    Text(String),
    Fraction(u32),
    FractionOutOfRange,
    Count(usize),
    Unsupported,
}

/// The configuration entries as read.
#[derive(Debug, Clone)]
pub struct RawConfig {
    /// `algo`, when present and a string.
    pub algo: Option<String>,
    /// `criterion`, when present and a string.
    pub criterion: Option<String>,
    pub max_features: RawMaxFeatures,
    pub max_depth: RawDepth,
    pub n_estimators: RawCount,
    pub min_samples_split: RawCount,
    pub min_samples_leaf: RawCount,
    pub bootstrap: RawFlag,
    pub seed: RawSeed,
}

/// Which integer entry was malformed.
#[derive(Debug, Clone, Copy, PartialEq, Eq, Structural)]
pub enum ConfigKey {
    NEstimators,
    MinSamplesSplit,
    MinSamplesLeaf,
    Seed,
}

/// Why a configuration was refused.
#[derive(Debug, Clone, PartialEq, Eq)]
pub enum ConfigError {
    /// The lower-cased algorithm name is not known.
    UnknownAlgo(String),
    /// The lower-cased criterion name is not known.
    UnknownCriterion(String),
    /// The lower-cased max-features string is not known.
    UnknownMaxFeatures(String),
    /// A max-features fraction outside `(0, 1]`.
    FractionOutOfRange,
    /// A max-features entry of no accepted kind.
    UnsupportedMaxFeatures,
    /// A depth that is neither `None` nor a non-negative integer.
    BadMaxDepth,
    /// An integer entry that is not a non-negative integer.
    NotAnInt(ConfigKey),
    /// The bootstrap entry is not a bool.
    NotABool,
    /// The assembled configuration breaks a hyperparameter rule.
    Invalid(SylvaError),
}

/// The algorithm a lower-cased name selects.
pub open spec fn algo_named(s: Seq<char>) -> Option<Algo> {
    if s == "rf"@ || s == "random_forest"@ || s == "randomforest"@ {
        Some(Algo::RandomForest)
    } else if s == "et"@ || s == "extra_trees"@ || s == "extratrees"@ {
        Some(Algo::ExtraTrees)
    } else {
        None
    }
}

/// The criterion a lower-cased name selects.
pub open spec fn criterion_named(s: Seq<char>) -> Option<Criterion> {
    if s == "gini"@ {
        Some(Criterion::Gini)
    } else if s == "entropy"@ {
        Some(Criterion::Entropy)
    } else if s == "mse"@ || s == "squared_error"@ {
        Some(Criterion::Mse)
    } else {
        None
    }
}

/// The max-features choice a lower-cased name selects.
pub open spec fn max_features_named(s: Seq<char>) -> Option<MaxFeatures> {
    if s == "sqrt"@ {
        Some(MaxFeatures::Sqrt)
    } else if s == "all"@ || s == "none"@ {
        Some(MaxFeatures::All)
    } else {
        None
    }
}

/// The name tables, read in lower case: "rf", "random_forest" and
/// "randomforest" select RandomForest and "et", "extra_trees" and
/// "extratrees" ExtraTrees; "gini" selects Gini, "entropy" Entropy, and "mse"
/// and "squared_error" Mse; a max-features text "sqrt" selects `Sqrt` and
/// "all" or "none" selects `All`, and an absent max-features entry means
/// `Sqrt`.
pub proof fn lemma_name_tables(raw: RawConfig, names: (Seq<char>, Seq<char>, Seq<char>))
    ensures
        names.0 == "rf"@ || names.0 == "random_forest"@ || names.0 == "randomforest"@ ==> described(raw, names).algo
            == Algo::RandomForest,
        names.0 == "et"@ || names.0 == "extra_trees"@ || names.0 == "extratrees"@ ==> described(raw, names).algo
            == Algo::ExtraTrees,
        names.1 == "gini"@ ==> described(raw, names).criterion == Criterion::Gini,
        names.1 == "entropy"@ ==> described(raw, names).criterion == Criterion::Entropy,
        names.1 == "mse"@ || names.1 == "squared_error"@ ==> described(raw, names).criterion == Criterion::Mse,
        raw.max_features is Text && names.2 == "sqrt"@ ==> described(raw, names).max_features == MaxFeatures::Sqrt,
        raw.max_features is Text && (names.2 == "all"@ || names.2 == "none"@) ==> described(raw, names).max_features
            == MaxFeatures::All,
        raw.max_features is Missing ==> described(raw, names).max_features == MaxFeatures::Sqrt,
{
    reveal_strlit("rf");
    reveal_strlit("random_forest");
    reveal_strlit("randomforest");
    reveal_strlit("et");
    reveal_strlit("extra_trees");
    reveal_strlit("extratrees");
    reveal_strlit("gini");
    reveal_strlit("entropy");
    reveal_strlit("mse");
    reveal_strlit("squared_error");
    reveal_strlit("sqrt");
    reveal_strlit("all");
    reveal_strlit("none");
    assert("rf"@[0] == 'r');
    assert("random_forest"@[0] == 'r');
    assert("randomforest"@[0] == 'r');
    assert("et"@[0] == 'e');
    assert("extra_trees"@[0] == 'e');
    assert("extratrees"@[0] == 'e');
    assert("gini"@[0] == 'g');
    assert("entropy"@[0] == 'e');
    assert("mse"@[0] == 'm');
    assert("squared_error"@[0] == 's');
    assert("sqrt"@[0] == 's');
    assert("all"@[0] == 'a');
    assert("none"@[0] == 'n');
}

/// Every missing entry takes its documented default: 200 estimators,
/// unlimited depth, split minimum 2, leaf minimum 1, seed 42, bootstrap
/// exactly for RandomForest, ExtraTrees when no algorithm is given and Gini
/// when no criterion is given; a given entry is taken as it is.
pub proof fn lemma_defaults(raw: RawConfig)
    ensures
        raw.n_estimators is Missing ==> described(raw, lowered_names(raw)).n_estimators == 200,
        raw.n_estimators matches RawCount::Value(v) ==> described(raw, lowered_names(raw)).n_estimators == v,
        raw.max_depth is Missing || raw.max_depth is Unlimited ==> described(raw, lowered_names(raw)).max_depth
            is None,
        raw.max_depth matches RawDepth::Value(d) ==> described(raw, lowered_names(raw)).max_depth == Some(d),
        raw.min_samples_split is Missing ==> described(raw, lowered_names(raw)).min_samples_split == 2,
        raw.min_samples_leaf is Missing ==> described(raw, lowered_names(raw)).min_samples_leaf == 1,
        raw.seed is Missing ==> described(raw, lowered_names(raw)).seed == 42,
        raw.seed matches RawSeed::Value(v) ==> described(raw, lowered_names(raw)).seed == v,
        raw.bootstrap is Missing ==> (described(raw, lowered_names(raw)).bootstrap <==> described(
            raw,
            lowered_names(raw),
        ).algo == Algo::RandomForest),
        raw.bootstrap matches RawFlag::Value(b) ==> described(raw, lowered_names(raw)).bootstrap == b,
        raw.algo is None ==> described(raw, lowered_names(raw)).algo == Algo::ExtraTrees,
        raw.criterion is None ==> described(raw, lowered_names(raw)).criterion == Criterion::Gini,
{
    lemma_name_tables(raw, lowered_names(raw));
}

/// The lower-cased algorithm text (`"et"` when absent, already lower case).
pub open spec fn algo_text(raw: RawConfig) -> Seq<char> {
    match raw.algo {
        Some(s) => spec_lowercase(s@),
        None => "et"@,
    }
}

/// The lower-cased criterion text (`"gini"` when absent, already lower case).
pub open spec fn criterion_text(raw: RawConfig) -> Seq<char> {
    match raw.criterion {
        Some(s) => spec_lowercase(s@),
        None => "gini"@,
    }
}

/// The max-features choice the entry gives, if it gives one (`Sqrt` when
/// absent), a text entry read through its lower-cased form `mn`.
pub open spec fn max_features_of(m: RawMaxFeatures, mn: Seq<char>) -> Option<MaxFeatures> {
    match m {
        RawMaxFeatures::Missing => Some(MaxFeatures::Sqrt),
        RawMaxFeatures::Text(_) => max_features_named(mn),
        RawMaxFeatures::Fraction(b) => Some(MaxFeatures::Fraction(b)),
        RawMaxFeatures::Count(c) => Some(MaxFeatures::Count(c)),
        _ => None,
    }
}

/// The lower-cased names of the entries: algorithm, criterion, and the
/// max-features text (empty when that entry is not a text).
pub open spec fn lowered_names(raw: RawConfig) -> (Seq<char>, Seq<char>, Seq<char>) {
    (
        algo_text(raw),
        criterion_text(raw),
        match raw.max_features {
            RawMaxFeatures::Text(t) => spec_lowercase(t@),
            _ => Seq::empty(),
        },
    )
}

/// The value of an integer entry with its default.
pub open spec fn count_or(c: RawCount, default: usize) -> usize {
    match c {
        RawCount::Value(v) => v,
        _ => default,
    }
}

/// The configuration the entries describe, when every entry is well formed,
/// with the lower-cased names `names`.
pub open spec fn described(raw: RawConfig, names: (Seq<char>, Seq<char>, Seq<char>)) -> TrainConfig {
    let algo = algo_named(names.0).unwrap();
    TrainConfig {
        n_estimators: count_or(raw.n_estimators, 200),
        max_depth: match raw.max_depth {
            RawDepth::Value(d) => Some(d),
            _ => None,
        },
        max_features: max_features_of(raw.max_features, names.2).unwrap(),
        min_samples_split: count_or(raw.min_samples_split, 2),
        min_samples_leaf: count_or(raw.min_samples_leaf, 1),
        bootstrap: match raw.bootstrap {
            RawFlag::Value(b) => b,
            _ => algo == Algo::RandomForest,
        },
        criterion: criterion_named(names.1).unwrap(),
        seed: match raw.seed {
            RawSeed::Value(s) => s,
            _ => 42,
        },
        algo,
    }
}

/// Whether `e` is the error reported for `raw` with the lower-cased names
/// `names`: the first problem in the order algorithm, criterion, max
/// features, depth, estimator count, split minimum, leaf minimum, bootstrap
/// flag, seed, then the hyperparameter rules.
pub open spec fn reported(raw: RawConfig, names: (Seq<char>, Seq<char>, Seq<char>), e: ConfigError) -> bool {
    if algo_named(names.0) is None {
        e matches ConfigError::UnknownAlgo(s) && s@ == names.0
    } else if criterion_named(names.1) is None {
        e matches ConfigError::UnknownCriterion(s) && s@ == names.1
    } else if raw.max_features is Text && max_features_named(names.2) is None {
        e matches ConfigError::UnknownMaxFeatures(s) && s@ == names.2
    } else if raw.max_features is FractionOutOfRange {
        e == ConfigError::FractionOutOfRange
    } else if raw.max_features is Unsupported {
        e == ConfigError::UnsupportedMaxFeatures
    } else if raw.max_depth is Invalid {
        e == ConfigError::BadMaxDepth
    } else if raw.n_estimators is Invalid {
        e == ConfigError::NotAnInt(ConfigKey::NEstimators)
    } else if raw.min_samples_split is Invalid {
        e == ConfigError::NotAnInt(ConfigKey::MinSamplesSplit)
    } else if raw.min_samples_leaf is Invalid {
        e == ConfigError::NotAnInt(ConfigKey::MinSamplesLeaf)
    } else if raw.bootstrap is Invalid {
        e == ConfigError::NotABool
    } else if raw.seed is Invalid {
        e == ConfigError::NotAnInt(ConfigKey::Seed)
    } else {
        e matches ConfigError::Invalid(SylvaError::InvalidConfig(m)) && described(raw, names).fault() == Some(m@)
    }
}

/// Whether every entry of `raw` is well formed, with the lower-cased names
/// `names`.
pub open spec fn entries_ok(raw: RawConfig, names: (Seq<char>, Seq<char>, Seq<char>)) -> bool {
    &&& algo_named(names.0) is Some
    &&& criterion_named(names.1) is Some
    &&& max_features_of(raw.max_features, names.2) is Some
    &&& !(raw.max_depth is Invalid)
    &&& !(raw.n_estimators is Invalid)
    &&& !(raw.min_samples_split is Invalid)
    &&& !(raw.min_samples_leaf is Invalid)
    &&& !(raw.bootstrap is Invalid)
    &&& !(raw.seed is Invalid)
}

/// Build the training configuration the entries describe. Defaults: 200
/// estimators, unlimited depth, `Sqrt` features, split minimum 2, leaf
/// minimum 1, bootstrap for RandomForest only, Gini, seed 42, ExtraTrees.
/// Names are matched in lower case. Succeeds exactly when every entry is
/// well formed and the result passes [`TrainConfig::validate`]; otherwise
/// reports the first problem.
pub fn parse_config(raw: &RawConfig) -> (r: Result<TrainConfig, ConfigError>)
    ensures
        r is Ok <==> entries_ok(*raw, lowered_names(*raw)) && described(*raw, lowered_names(*raw)).valid(),
        r matches Ok(c) ==> c == described(*raw, lowered_names(*raw)),
        r matches Err(e) ==> reported(*raw, lowered_names(*raw), e),
{
    let algo_l = match &raw.algo {
        Some(s) => lowercase(s.as_str()),
        None => String::from_str("et"),
    };
    let crit_l = match &raw.criterion {
        Some(s) => lowercase(s.as_str()),
        None => String::from_str("gini"),
    };
    let mf_l = match &raw.max_features {
        RawMaxFeatures::Text(t) => lowercase(t.as_str()),
        _ => String::new(),
    };
    parse_config_named(raw, &algo_l, &crit_l, &mf_l)
}

/// [`parse_config`] once the names are lower-cased: `algo_l`, `crit_l` and
/// `mf_l` are the lower-cased algorithm, criterion and max-features text.
pub fn parse_config_named(raw: &RawConfig, algo_l: &String, crit_l: &String, mf_l: &String) -> (r: Result<
    TrainConfig,
    ConfigError,
>)
    ensures
        r is Ok <==> entries_ok(*raw, (algo_l@, crit_l@, mf_l@)) && described(*raw, (algo_l@, crit_l@, mf_l@)).valid(),
        r matches Ok(c) ==> c == described(*raw, (algo_l@, crit_l@, mf_l@)),
        r matches Err(e) ==> reported(*raw, (algo_l@, crit_l@, mf_l@), e),
{
    let algo = if same_text(algo_l, "rf") || same_text(algo_l, "random_forest") || same_text(algo_l, "randomforest") {
        Algo::RandomForest
    } else if same_text(algo_l, "et") || same_text(algo_l, "extra_trees") || same_text(algo_l, "extratrees") {
        Algo::ExtraTrees
    } else {
        return Err(ConfigError::UnknownAlgo(algo_l.clone()));
    };
    let bootstrap_default = match algo {
        Algo::RandomForest => true,
        Algo::ExtraTrees => false,
    };
    let criterion = if same_text(crit_l, "gini") {
        Criterion::Gini
    } else if same_text(crit_l, "entropy") {
        Criterion::Entropy
    } else if same_text(crit_l, "mse") || same_text(crit_l, "squared_error") {
        Criterion::Mse
    } else {
        return Err(ConfigError::UnknownCriterion(crit_l.clone()));
    };
    let max_features = match &raw.max_features {
        RawMaxFeatures::Missing => MaxFeatures::Sqrt,
        RawMaxFeatures::Text(_) => {
            if same_text(mf_l, "sqrt") {
                MaxFeatures::Sqrt
            } else if same_text(mf_l, "all") || same_text(mf_l, "none") {
                MaxFeatures::All
            } else {
                return Err(ConfigError::UnknownMaxFeatures(mf_l.clone()));
            }
        },
        RawMaxFeatures::Fraction(b) => MaxFeatures::Fraction(*b),
        RawMaxFeatures::FractionOutOfRange => {
            return Err(ConfigError::FractionOutOfRange);
        },
        RawMaxFeatures::Count(c) => MaxFeatures::Count(*c),
        RawMaxFeatures::Unsupported => {
            return Err(ConfigError::UnsupportedMaxFeatures);
        },
    };
    let max_depth = match raw.max_depth {
        RawDepth::Missing => None,
        RawDepth::Unlimited => None,
        RawDepth::Value(d) => Some(d),
        RawDepth::Invalid => {
            return Err(ConfigError::BadMaxDepth);
        },
    };
    let n_estimators = match raw.n_estimators {
        RawCount::Missing => 200,
        RawCount::Value(v) => v,
        RawCount::Invalid => {
            return Err(ConfigError::NotAnInt(ConfigKey::NEstimators));
        },
    };
    let min_samples_split = match raw.min_samples_split {
        RawCount::Missing => 2,
        RawCount::Value(v) => v,
        RawCount::Invalid => {
            return Err(ConfigError::NotAnInt(ConfigKey::MinSamplesSplit));
        },
    };
    let min_samples_leaf = match raw.min_samples_leaf {
        RawCount::Missing => 1,
        RawCount::Value(v) => v,
        RawCount::Invalid => {
            return Err(ConfigError::NotAnInt(ConfigKey::MinSamplesLeaf));
        },
    };
    let bootstrap = match raw.bootstrap {
        RawFlag::Missing => bootstrap_default,
        RawFlag::Value(b) => b,
        RawFlag::Invalid => {
            return Err(ConfigError::NotABool);
        },
    };
    let seed = match raw.seed {
        RawSeed::Missing => 42,
        RawSeed::Value(s) => s,
        RawSeed::Invalid => {
            return Err(ConfigError::NotAnInt(ConfigKey::Seed));
        },
    };
    let cfg = TrainConfig {
        n_estimators,
        max_depth,
        max_features,
        min_samples_split,
        min_samples_leaf,
        bootstrap,
        criterion,
        seed,
        algo,
    };
    assert(cfg == described(*raw, (algo_l@, crit_l@, mf_l@)));
    match cfg.validate() {
        Ok(()) => Ok(cfg),
        Err(e) => Err(ConfigError::Invalid(e)),
    }
}

} // verus!
