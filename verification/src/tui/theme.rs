//! The screen's colour thresholds: which shade a duration is drawn in. The
//! colours themselves are the binary's; the library names the shade.

use vstd::prelude::*;

verus! {

/// Thresholds, in hours, for shading a single entry's duration.
pub const ENTRY_DURATION_HIGH_H: i64 = 4;
pub const ENTRY_DURATION_MED_H: i64 = 2;

/// Thresholds, in hours, for shading a day's total tracked duration.
pub const DAY_DURATION_HIGH_H: i64 = 8;
pub const DAY_DURATION_MED_H: i64 = 4;

/// The shade a duration is drawn in: light red, light yellow, light green.
#[derive(Clone, Copy, Debug, PartialEq, Eq, Structural)]
pub enum DurationShade {
    High,
    Med,
    Low,
}

/// The shade for a duration in hours, given the high and medium thresholds: high
/// from the high threshold up, medium from the medium one, low below both.
pub fn duration_color(hours: i64, high_threshold: i64, med_threshold: i64) -> (r: DurationShade)
    ensures
        r == if hours >= high_threshold {
            DurationShade::High
        } else if hours >= med_threshold {
            DurationShade::Med
        } else {
            DurationShade::Low
        },
{
    if hours >= high_threshold {
        DurationShade::High
    } else if hours >= med_threshold {
        DurationShade::Med
    } else {
        DurationShade::Low
    }
}

} // verus!
