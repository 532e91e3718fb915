//! Boundary checks of a training call: the configuration, the shape of the
//! training set, and the task and class of each row read from the labels.
use vstd::prelude::*;
use crate::config::{Criterion, Task, TrainConfig};
use crate::error::{SylvaError, decimal, decimal_text, text};
use crate::labels::{label_as_usize, max_label, scan_labels, valid_label, LabelScan};

verus! {

/// The error a training call with `n_rows` rows, `n_features` features and
/// `y_len` targets is refused with, if any: no rows, no features, or a target
/// count that differs from the row count (checked in that order).
pub open spec fn shape_fault(n_rows: usize, n_features: usize, y_len: usize) -> Option<Seq<char>> {
    if n_rows == 0 {
        Some("X has 0 rows"@)
    } else if n_features == 0 {
        Some("X has 0 features"@)
    } else if y_len != n_rows {
        Some("y length "@ + decimal(y_len as nat) + " != X rows "@ + decimal(n_rows as nat))
    } else {
        None
    }
}

/// Check the shape of a training set: at least one row, at least one
/// feature, one target per row. Every refusal is an `InvalidInput`.
pub fn check_training_shape(n_rows: usize, n_features: usize, y_len: usize) -> (r: Result<(), SylvaError>)
    ensures
        r is Ok <==> shape_fault(n_rows, n_features, y_len) is None,
        r is Ok <==> (n_rows > 0 && n_features > 0 && y_len == n_rows),
        r matches Err(e) ==> (e matches SylvaError::InvalidInput(m) && shape_fault(n_rows, n_features, y_len)
            == Some(m@)),
{
    if n_rows == 0 {
        return Err(SylvaError::InvalidInput(text("X has 0 rows")));
    }
    if n_features == 0 {
        return Err(SylvaError::InvalidInput(text("X has 0 features")));
    }
    if y_len != n_rows {
        let m = text("y length ").concat(decimal_text(y_len).as_str()).concat(" != X rows ").concat(
            decimal_text(n_rows).as_str(),
        );
        return Err(SylvaError::InvalidInput(m));
    }
    Ok(())
}

/// Why a training call was refused before any tree was grown.
#[derive(Debug, Clone, PartialEq, Eq)]
pub enum FitRefusal {
    /// A configuration, shape or label-set error.
    Invalid(SylvaError),
    /// The first label that is not a non-negative integer (its `f32` bits);
    /// its message shows the value.
    BadLabel(u32),
}

/// Every label is a non-negative integer.
pub open spec fn all_valid(y: Seq<u32>) -> bool {
    forall|k: int| 0 <= k < y.len() ==> valid_label(#[trigger] y[k])
}

/// The largest label, read as an `i64`, is at most `i64::MAX`.
proof fn lemma_max_label_bound(y: Seq<u32>, i: int)
    ensures
        max_label(y, i) matches Some(v) ==> v <= i64::MAX,
    decreases i,
{
    if i > 0 {
        lemma_max_label_bound(y, i - 1);
    }
}

/// Check a training call in order: the configuration, then the shape, then
/// the labels. A regression criterion gives the regression task; a
/// classification criterion needs every label to be a non-negative integer
/// (the first one that is not is reported) and gives one class per value up
/// to the largest label, with each row's class.
pub fn prepare_fit(cfg: &TrainConfig, n_rows: usize, n_features: usize, y: &Vec<u32>) -> (r: Result<
    (Task, Vec<usize>),
    FitRefusal,
>)
    requires
        cfg.valid() && shape_fault(n_rows, n_features, y@.len() as usize) is None && cfg.criterion != Criterion::Mse
            && all_valid(y@) ==> max_label(y@, y@.len() as int) != Some(i64::MAX as nat),
    ensures
        cfg.fault() matches Some(m) ==> (r matches Err(FitRefusal::Invalid(SylvaError::InvalidConfig(s))) && s@
            == m),
        cfg.valid() ==> (shape_fault(n_rows, n_features, y@.len() as usize) matches Some(m) ==> (r matches Err(
            FitRefusal::Invalid(SylvaError::InvalidInput(s)),
        ) && s@ == m)),
        cfg.valid() && shape_fault(n_rows, n_features, y@.len() as usize) is None ==> match cfg.criterion {
            Criterion::Mse => r matches Ok((t, c)) && t == Task::Regression && c@.len() == 0,
            _ => if all_valid(y@) {
                &&& r matches Ok((t, c))
                &&& max_label(y@, y@.len() as int) matches Some(m) && t == (Task::Classification {
                    n_classes: (m + 1) as usize,
                })
                &&& c@.len() == y@.len()
                &&& forall|k: int| 0 <= k < y@.len() ==> #[trigger] c@[k] == label_as_usize(y@[k])
            } else {
                r matches Err(FitRefusal::BadLabel(b)) && exists|k: int|
                    0 <= k < y@.len() && y@[k] == b && !valid_label(b) && forall|j: int|
                        0 <= j < k ==> valid_label(#[trigger] y@[j])
            },
        },
{
    match cfg.validate() {
        Ok(()) => {},
        Err(e) => {
            return Err(FitRefusal::Invalid(e));
        },
    }
    match check_training_shape(n_rows, n_features, y.len()) {
        Ok(()) => {},
        Err(e) => {
            return Err(FitRefusal::Invalid(e));
        },
    }
    match cfg.criterion {
        Criterion::Mse => Ok((Task::Regression, Vec::new())),
        _ => match scan_labels(y) {
            LabelScan::Invalid(b) => Err(FitRefusal::BadLabel(b)),
            LabelScan::Labels { classes, max_label: None } => Err(
                FitRefusal::Invalid(SylvaError::InvalidInput(text("no valid classification labels found"))),
            ),
            LabelScan::Labels { classes, max_label: Some(m) } => {
                proof {
                    lemma_max_label_bound(y@, y@.len() as int);
                }
                assert(m + 1 <= i64::MAX);
                Ok((Task::Classification { n_classes: (m + 1) as usize }, classes))
            },
        },
    }
}

} // verus!
