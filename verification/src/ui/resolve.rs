//! The value a settled die shows, read from its face label.
//!
//! A percentile die is thrown as a tens die (`00`..`90`) and a d10 (`0`..`9`);
//! a lone d10 shows `0` for ten.

use vstd::prelude::*;

use crate::dice::kind::DieKind;

verus! {

/// The value of a percentile pair: tens plus ones, with `00` and `0` read as 100.
pub open spec fn spec_percentile_value(tens: u32, ones: u32) -> int {
    if tens == 0 && ones == 0 {
        100
    } else {
        tens + ones
    }
}

/// Combines the labels of a settled percentile pair into one value.
pub fn percentile_value(tens: u32, ones: u32) -> (value: u32)
    requires
        tens + ones <= u32::MAX,
    ensures
        value == spec_percentile_value(tens, ones),
{
    if tens == 0 && ones == 0 {
        100
    } else {
        tens + ones
    }
}

/// The value of a die thrown on its own: a d10 label `0` reads as ten,
/// every other label as itself.
pub open spec fn spec_single_die_value(kind: DieKind, label: u32) -> u32 {
    if kind == DieKind::D10 && label == 0 {
        10
    } else {
        label
    }
}

/// Reads the value of a die thrown on its own from its face label.
pub fn single_die_value(kind: DieKind, label: u32) -> (value: u32)
    ensures
        value == spec_single_die_value(kind, label),
{
    match kind {
        DieKind::D10 if label == 0 => 10,
        _ => label,
    }
}

} // verus!
