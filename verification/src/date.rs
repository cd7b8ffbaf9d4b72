//! UTC timestamps kept as plain calendar fields, with a total chronological
//! order. These are the keys of every value series in the archive.

use vstd::prelude::*;
use crate::clock;

verus! {

/// A moment in UTC, to nanosecond precision, as plain calendar fields.
#[derive(Debug, Clone, Copy, PartialEq, Eq, Structural, Hash)]
pub struct YarkDate {
    pub year: u32,
    pub month: u32,
    pub day: u32,
    pub hour: u32,
    pub minute: u32,
    pub second: u32,
    pub nanos: u32,
}

/// Whether `y` is a leap year in the proleptic Gregorian calendar.
pub open spec fn spec_is_leap_year(y: u32) -> bool {
    (y % 4 == 0 && y % 100 != 0) || y % 400 == 0
}

/// Number of days of month `m` (1-based) in year `y`.
pub open spec fn spec_days_in_month(y: u32, m: u32) -> u32 {
    if m == 2 {
        if spec_is_leap_year(y) {
            29
        } else {
            28
        }
    } else if m == 4 || m == 6 || m == 9 || m == 11 {
        30
    } else {
        31
    }
}

pub fn is_leap_year(y: u32) -> (r: bool)
    ensures
        r == spec_is_leap_year(y),
{
    (y % 4 == 0 && y % 100 != 0) || y % 400 == 0
}

pub fn days_in_month(y: u32, m: u32) -> (r: u32)
    ensures
        r == spec_days_in_month(y, m),
{
    if m == 2 {
        if is_leap_year(y) {
            29
        } else {
            28
        }
    } else if m == 4 || m == 6 || m == 9 || m == 11 {
        30
    } else {
        31
    }
}

impl YarkDate {
    /// A well-formed date: a real calendar day with in-range time fields,
    /// within the four-digit years the text form can carry.
    pub open spec fn wf(self) -> bool {
        &&& self.year <= 9999
        &&& 1 <= self.month <= 12
        &&& 1 <= self.day <= spec_days_in_month(self.year, self.month)
        &&& self.hour < 24
        &&& self.minute < 60
        &&& self.second < 60
        &&& self.nanos < 1_000_000_000
    }

    /// Chronological order: lexicographic over the calendar fields.
    pub open spec fn spec_lt(self, other: Self) -> bool {
        if self.year != other.year {
            self.year < other.year
        } else if self.month != other.month {
            self.month < other.month
        } else if self.day != other.day {
            self.day < other.day
        } else if self.hour != other.hour {
            self.hour < other.hour
        } else if self.minute != other.minute {
            self.minute < other.minute
        } else if self.second != other.second {
            self.second < other.second
        } else {
            self.nanos < other.nanos
        }
    }

    pub open spec fn spec_le(self, other: Self) -> bool {
        self.spec_lt(other) || self == other
    }

    /// Builds a date after checking that the fields form a real timestamp.
    pub fn new(
        year: u32,
        month: u32,
        day: u32,
        hour: u32,
        minute: u32,
        second: u32,
        nanos: u32,
    ) -> (r: Option<YarkDate>)
        ensures
            ({
                let d = YarkDate { year, month, day, hour, minute, second, nanos };
                if d.wf() {
                    r == Some(d)
                } else {
                    r is None
                }
            }),
    {
        let d = YarkDate { year, month, day, hour, minute, second, nanos };
        if d.is_valid() {
            Some(d)
        } else {
            None
        }
    }

    pub fn is_valid(&self) -> (r: bool)
        ensures
            r == self.wf(),
    {
        self.year <= 9999 && 1 <= self.month && self.month <= 12 && 1 <= self.day && self.day
            <= days_in_month(self.year, self.month) && self.hour < 24 && self.minute < 60
            && self.second < 60 && self.nanos < 1_000_000_000
    }

    pub fn lt(&self, other: &YarkDate) -> (r: bool)
        ensures
            r == self.spec_lt(*other),
    {
        if self.year != other.year {
            self.year < other.year
        } else if self.month != other.month {
            self.month < other.month
        } else if self.day != other.day {
            self.day < other.day
        } else if self.hour != other.hour {
            self.hour < other.hour
        } else if self.minute != other.minute {
            self.minute < other.minute
        } else if self.second != other.second {
            self.second < other.second
        } else {
            self.nanos < other.nanos
        }
    }

    /// The moment `days` days before now; falls back to the epoch if the
    /// clock hands back fields outside the representable range. The day
    /// count is bounded because the clock arithmetic cannot leave its
    /// ±262,000-year range; a hundred thousand years covers every use.
    pub fn days_ago(days: u32) -> (d: YarkDate)
        requires
            days <= 36_500_000,
        ensures
            d.wf(),
    {
        let (year, month, day, hour, minute, second, n) = clock::clock_days_ago_parts(days);
        let nanos = if n >= 1_000_000_000 {
            999_999_999
        } else {
            n
        };
        let cand = YarkDate { year, month, day, hour, minute, second, nanos };
        if cand.is_valid() {
            cand
        } else {
            YarkDate { year: 1970, month: 1, day: 1, hour: 0, minute: 0, second: 0, nanos: 0 }
        }
    }

    /// Two cutoff moments, `short_days` and `long_days` before one single
    /// reading of the clock, the longer one never after the shorter; any
    /// out-of-range or disordered reading falls back to the epoch.
    pub fn recent_cutoffs(short_days: u32, long_days: u32) -> (r: (YarkDate, YarkDate))
        requires
            short_days <= 36_500_000,
            long_days <= 36_500_000,
            short_days <= long_days,
        ensures
            r.0.wf(),
            r.1.wf(),
            r.1.spec_le(r.0),
    {
        let (a, b) = clock::clock_cutoffs_parts(short_days, long_days);
        let (y0, mo0, d0, h0, mi0, s0, n0) = a;
        let (y1, mo1, d1, h1, mi1, s1, n1) = b;
        let epoch = YarkDate { year: 1970, month: 1, day: 1, hour: 0, minute: 0, second: 0, nanos: 0 };
        let na0 = if n0 >= 1_000_000_000 {
            999_999_999
        } else {
            n0
        };
        let na1 = if n1 >= 1_000_000_000 {
            999_999_999
        } else {
            n1
        };
        let short_cut = YarkDate { year: y0, month: mo0, day: d0, hour: h0, minute: mi0, second: s0, nanos: na0 };
        let long_cut = YarkDate { year: y1, month: mo1, day: d1, hour: h1, minute: mi1, second: s1, nanos: na1 };
        if !(short_cut.is_valid() && long_cut.is_valid()) {
            return (epoch, epoch);
        }
        if short_cut.lt(&long_cut) {
            return (epoch, epoch);
        }
        (short_cut, long_cut)
    }

    /// The current wall-clock moment; falls back to the epoch if the clock
    /// hands back fields outside the representable range.
    pub fn now() -> (d: YarkDate)
        ensures
            d.wf(),
    {
        let (year, month, day, hour, minute, second, n) = clock::clock_now_parts();
        let nanos = if n >= 1_000_000_000 {
            999_999_999
        } else {
            n
        };
        let cand = YarkDate { year, month, day, hour, minute, second, nanos };
        if cand.is_valid() {
            cand
        } else {
            YarkDate { year: 1970, month: 1, day: 1, hour: 0, minute: 0, second: 0, nanos: 0 }
        }
    }
}

/// The order is transitive.
pub proof fn lemma_date_lt_trans(a: YarkDate, b: YarkDate, c: YarkDate)
    requires
        a.spec_lt(b),
        b.spec_lt(c),
    ensures
        a.spec_lt(c),
{
}

/// The order is total: any two dates compare one way, the other, or are equal.
pub proof fn lemma_date_lt_total(a: YarkDate, b: YarkDate)
    ensures
        a.spec_lt(b) || b.spec_lt(a) || a == b,
{
}

} // verus!
