//! The one place the crate touches the wall clock.

use vstd::prelude::*;
use chrono::Datelike;
use chrono::Timelike;

verus! {

/// Relies on chrono's `Utc::now` and the `Datelike`/`Timelike` accessors:
/// the wall clock as plain UTC fields (year, month, day, hour, minute,
/// second, nanosecond). Nothing is assumed of the values; callers validate.
#[verifier::external_body]
pub(crate) fn clock_now_parts() -> (r: (u32, u32, u32, u32, u32, u32, u32)) {
    let t = chrono::Utc::now();
    (
        t.year() as u32,
        t.month(),
        t.day(),
        t.hour(),
        t.minute(),
        t.second(),
        t.nanosecond(),
    )
}

/// Relies on chrono's `Utc::now`, `TimeDelta::days` and the date-time
/// subtraction, plus the `Datelike`/`Timelike` accessors: the moment the
/// given number of days before now, as plain UTC fields. The subtraction
/// panics once it leaves chrono's ±262,000-year range, so the day count
/// is bounded to stay far inside it; nothing is assumed of the values,
/// callers validate.
#[verifier::external_body]
pub(crate) fn clock_days_ago_parts(days: u32) -> (r: (u32, u32, u32, u32, u32, u32, u32))
    requires
        days <= 36_500_000,
{
    let t = chrono::Utc::now() - chrono::TimeDelta::days(days as i64);
    (
        t.year() as u32,
        t.month(),
        t.day(),
        t.hour(),
        t.minute(),
        t.second(),
        t.nanosecond(),
    )
}

/// Relies on the same chrono calls as [`clock_days_ago_parts`], reading
/// the clock once and subtracting both day counts from that one moment.
/// The day counts are bounded as there; nothing is assumed of the values.
#[verifier::external_body]
pub(crate) fn clock_cutoffs_parts(short_days: u32, long_days: u32) -> (r: (
    (u32, u32, u32, u32, u32, u32, u32),
    (u32, u32, u32, u32, u32, u32, u32),
))
    requires
        short_days <= 36_500_000,
        long_days <= 36_500_000,
{
    let now = chrono::Utc::now();
    let a = now - chrono::TimeDelta::days(short_days as i64);
    let b = now - chrono::TimeDelta::days(long_days as i64);
    (
        (a.year() as u32, a.month(), a.day(), a.hour(), a.minute(), a.second(), a.nanosecond()),
        (b.year() as u32, b.month(), b.day(), b.hour(), b.minute(), b.second(), b.nanosecond()),
    )
}

} // verus!
