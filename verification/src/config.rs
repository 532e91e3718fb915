//! Device-neutral training configuration and the enums that parameterize a fit.
//! Validated at the boundary so bad parameters surface as a typed error.
use vstd::prelude::*;
use crate::error::{SylvaError, text};
use crate::float64::{
    clamp_count, clamp_exact, f64_sqrt_floor, fraction_count, fraction_count_exact, round_f64, round_f64_exact,
    sqrt_floor_exact,
};

verus! {

/// Split-quality criterion. `Mse` is the regression criterion; `Gini` and
/// `Entropy` are classification criteria.
#[derive(Debug, Clone, Copy, PartialEq, Eq, Structural)]
pub enum Criterion {
    Gini,
    Entropy,
    Mse,
}

/// Forest algorithm: ExtraTrees (random split thresholds) or RandomForest
/// (impurity-best split and bootstrap sampling).
#[derive(Debug, Clone, Copy, PartialEq, Eq, Structural)]
pub enum Algo {
    ExtraTrees,
    RandomForest,
}

/// Learning task. Classification carries the class count, which fixes the
/// leaf-probability layout of a forest.
#[derive(Debug, Clone, Copy, PartialEq, Eq, Structural)]
pub enum Task {
    Classification { n_classes: usize },
    Regression,
}

impl Task {
    /// Number of classes (`1` for regression).
    pub open spec fn classes(self) -> nat {
        match self {
            Task::Classification { n_classes } => n_classes as nat,
            Task::Regression => 1,
        }
    }
}

/// How many features are considered per split.
///
/// `Fraction` holds the IEEE-754 single-precision bit pattern of the fraction
/// (`f32::to_bits` of it).
#[derive(Debug, Clone, Copy, PartialEq, Eq, Structural)]
pub enum MaxFeatures {
    /// `floor(sqrt(n_features))`.
    Sqrt,
    /// A fraction of `n_features`, in `(0, 1]`, as an `f32` bit pattern.
    Fraction(u32),
    /// All features.
    All,
    /// An explicit count.
    Count(usize),
}

impl MaxFeatures {
    /// The feature count this choice resolves to for `n` features, always in
    /// `1..=max(n, 1)`: `floor(sqrt(n))` and `floor(f * n)` computed in double
    /// precision (`n` rounded to `f64`, the root or product correctly
    /// rounded, then truncated), `n` itself, or the explicit count, clamped.
    pub open spec fn resolved(self, n: nat) -> nat {
        match self {
            MaxFeatures::Sqrt => clamp_count(f64_sqrt_floor(round_f64(n)), n),
            MaxFeatures::Fraction(fb) => fraction_count(fb, n),
            MaxFeatures::All => clamp_count(n, n),
            MaxFeatures::Count(c) => clamp_count(c as nat, n),
        }
    }

    /// Resolve to a concrete, clamped feature count for a node. The task is
    /// accepted so callers can branch the default choice (classifier `Sqrt`,
    /// regressor `All`) before building the configuration; here the explicit
    /// variant is resolved.
    pub fn resolve(&self, n_features: usize, _task: Task) -> (r: usize)
        ensures
            r == self.resolved(n_features as nat),
            1 <= r,
            r <= n_features || r == 1,
    {
        match self {
            MaxFeatures::Sqrt => {
                let v = round_f64_exact(n_features as u128);
                clamp_exact(sqrt_floor_exact(v), n_features)
            },
            MaxFeatures::Fraction(fb) => fraction_count_exact(*fb, n_features),
            MaxFeatures::All => clamp_exact(n_features as u128, n_features),
            MaxFeatures::Count(c) => clamp_exact(*c as u128, n_features),
        }
    }
}

/// The bit pattern of `1.0f32`.
pub const F32_ONE_BITS: u32 = 0x3F80_0000;

/// Whether the `f32` with bit pattern `bits` lies in `(0, 1]`. Positive finite
/// floats are ordered like their bit patterns, `+0.0` is the pattern `0`,
/// `1.0` is `0x3F80_0000`, and every negative float or NaN has a pattern above
/// `0x3F80_0000`, so the test is a range test on the pattern.
pub open spec fn fraction_in_unit_interval(bits: u32) -> bool {
    0 < bits && bits <= F32_ONE_BITS
}

/// The full, device-neutral training configuration.
#[derive(Debug, Clone, Copy, PartialEq, Eq, Structural)]
pub struct TrainConfig {
    pub n_estimators: usize,
    pub max_depth: Option<usize>,
    pub max_features: MaxFeatures,
    pub min_samples_split: usize,
    pub min_samples_leaf: usize,
    pub bootstrap: bool,
    pub criterion: Criterion,
    pub seed: u64,
    pub algo: Algo,
}

impl TrainConfig {
    /// The message of the first hyperparameter rule this configuration breaks,
    /// or `None` when it breaks none. The rules, in order: at least one
    /// estimator, `min_samples_leaf >= 1`, `min_samples_split >= 2`, a fraction
    /// in `(0, 1]`, a count of at least one.
    pub open spec fn fault(self) -> Option<Seq<char>> {
        if self.n_estimators == 0 {
            Some("n_estimators must be >= 1"@)
        } else if self.min_samples_leaf == 0 {
            Some("min_samples_leaf must be >= 1"@)
        } else if self.min_samples_split < 2 {
            Some("min_samples_split must be >= 2"@)
        } else {
            match self.max_features {
                MaxFeatures::Fraction(b) => if !fraction_in_unit_interval(b) {
                    Some("max_features fraction must be in (0, 1]"@)
                } else {
                    None
                },
                MaxFeatures::Count(c) => if c == 0 {
                    Some("max_features count must be >= 1"@)
                } else {
                    None
                },
                _ => None,
            }
        }
    }

    /// Whether every hyperparameter rule holds.
    pub open spec fn valid(self) -> bool {
        self.fault() is None
    }

    /// Reject nonsensical hyperparameters with `InvalidConfig`, naming the
    /// first rule broken.
    pub fn validate(&self) -> (r: Result<(), SylvaError>)
        ensures
            r is Ok <==> self.valid(),
            r matches Err(e) ==> (e matches SylvaError::InvalidConfig(m) && self.fault() == Some(m@)),
    {
        if self.n_estimators == 0 {
            return Err(SylvaError::InvalidConfig(text("n_estimators must be >= 1")));
        }
        if self.min_samples_leaf == 0 {
            return Err(SylvaError::InvalidConfig(text("min_samples_leaf must be >= 1")));
        }
        if self.min_samples_split < 2 {
            return Err(SylvaError::InvalidConfig(text("min_samples_split must be >= 2")));
        }
        match self.max_features {
            MaxFeatures::Fraction(b) => {
                if !(0 < b && b <= F32_ONE_BITS) {
                    return Err(SylvaError::InvalidConfig(
                        text("max_features fraction must be in (0, 1]"),
                    ));
                }
            },
            MaxFeatures::Count(c) => {
                if c == 0 {
                    return Err(SylvaError::InvalidConfig(text("max_features count must be >= 1")));
                }
            },
            _ => {},
        }
        Ok(())
    }
}

} // verus!
