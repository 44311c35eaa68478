//! Labels of the breast-cancer dataset.

use vstd::prelude::*;
use crate::text::text_is;

verus! {

/// Column that holds the diagnosis.
pub const DIAGNOSIS_FIELD_INDEX: usize = 1;

/// First column that holds a feature.
pub const FIRST_FEATURE_INDEX: usize = 2;

/// Diagnosis attached to a sample. `Malignant` has the lower ordinal.
#[derive(Debug, Clone, Copy, PartialEq, Eq, Hash, Structural)]
pub enum Diagnosis {
    /// The tumour is malignant.
    Malignant,
    /// The tumour is benign.
    Benign,
}

/// The diagnosis a column text names, if it names one: `M` or `B`.
pub open spec fn diagnosis_named(text: Seq<char>) -> Option<Diagnosis> {
    if text == "M"@ {
        Some(Diagnosis::Malignant)
    } else if text == "B"@ {
        Some(Diagnosis::Benign)
    } else {
        None
    }
}

/// Reads a diagnosis, or `None` for any other text.
pub fn parse_diagnosis(diagnosis: &str) -> (parsed: Option<Diagnosis>)
    ensures
        parsed == diagnosis_named(diagnosis@),
{
    if text_is(diagnosis, "M") {
        Some(Diagnosis::Malignant)
    } else if text_is(diagnosis, "B") {
        Some(Diagnosis::Benign)
    } else {
        None
    }
}

/// The other of the two diagnoses.
pub fn opposite_diagnosis(diagnosis: Diagnosis) -> (other: Diagnosis)
    ensures
        other != diagnosis,
{
    match diagnosis {
        Diagnosis::Malignant => Diagnosis::Benign,
        Diagnosis::Benign => Diagnosis::Malignant,
    }
}

} // verus!
