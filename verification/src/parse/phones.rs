//! Labels and column rules of the phone-usage dataset.

use vstd::prelude::*;
use crate::text::text_is;

verus! {

/// Column that holds the operating system's name.
pub const OS_FIELD_INDEX: usize = 2;

/// First column that holds a numeric feature.
pub const NUMERIC_FIELD_START: usize = 3;

/// Last column that holds a numeric feature.
pub const NUMERIC_FIELD_END: usize = 8;

/// Column that holds the user's gender.
pub const GENDER_FIELD_INDEX: usize = 9;

/// Operating system of a phone.
#[derive(Debug, Clone, Copy, PartialEq, Eq, Hash, Structural)]
pub enum PhoneOs {
    /// Android.
    Android,
    /// iOS.
    IOs,
}

/// The operating system a column text names, if it names one.
pub open spec fn os_named(text: Seq<char>) -> Option<PhoneOs> {
    if text == "Android"@ {
        Some(PhoneOs::Android)
    } else if text == "iOS"@ {
        Some(PhoneOs::IOs)
    } else {
        None
    }
}

/// The feature value a gender text stands for, if it is one of the two the
/// dataset uses: 0 for `Female`, 1 for `Male`.
pub open spec fn gender_named(text: Seq<char>) -> Option<u8> {
    if text == "Female"@ {
        Some(0u8)
    } else if text == "Male"@ {
        Some(1u8)
    } else {
        None
    }
}

/// Reads an operating system's name, or `None` for any other text.
pub fn parse_os(os: &str) -> (parsed: Option<PhoneOs>)
    ensures
        parsed == os_named(os@),
{
    if text_is(os, "Android") {
        Some(PhoneOs::Android)
    } else if text_is(os, "iOS") {
        Some(PhoneOs::IOs)
    } else {
        None
    }
}

/// Reads an operating system's name. The dataset holds no other text in that
/// column, and none is accepted here.
pub fn to_os(os: &str) -> (parsed: PhoneOs)
    requires
        os_named(os@).is_some(),
    ensures
        os_named(os@) == Some(parsed),
{
    if text_is(os, "Android") {
        PhoneOs::Android
    } else {
        PhoneOs::IOs
    }
}

/// Reads a gender as a feature value, or `None` for any other text.
pub fn gender_value(gender: &str) -> (parsed: Option<u8>)
    ensures
        parsed == gender_named(gender@),
{
    if text_is(gender, "Female") {
        Some(0)
    } else if text_is(gender, "Male") {
        Some(1)
    } else {
        None
    }
}

/// Whether the column at `index` holds a numeric feature.
pub fn is_numeric_field(index: usize) -> (numeric: bool)
    ensures
        numeric == (NUMERIC_FIELD_START <= index <= NUMERIC_FIELD_END),
{
    NUMERIC_FIELD_START <= index && index <= NUMERIC_FIELD_END
}

} // verus!
