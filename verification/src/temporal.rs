//! Calendar primitives: dates, wall-clock times, naive date-times, and their
//! mapping onto a single integer scale of seconds relative to 1970-01-01
//! 00:00:00 (proleptic Gregorian calendar).
use vstd::prelude::*;

verus! {

/// A calendar date, no time component.
#[derive(Clone, Copy, Debug, PartialEq, Eq, Structural)]
pub struct Date {
    pub year: u16,
    pub month: u8,
    pub day: u8,
}

/// A wall-clock time of day.
#[derive(Clone, Copy, Debug, PartialEq, Eq, Structural)]
pub struct Time {
    pub hour: u8,
    pub minute: u8,
    pub second: u8,
}

/// A calendar date plus a wall-clock time, with no timezone attached.
#[derive(Clone, Copy, Debug, PartialEq, Eq, Structural)]
pub struct DateTime {
    pub date: Date,
    pub time: Time,
}

pub open spec fn is_leap_year(y: int) -> bool {
    (y % 4 == 0 && y % 100 != 0) || y % 400 == 0
}

pub open spec fn spec_days_in_month(y: int, m: int) -> int {
    if m == 2 {
        if is_leap_year(y) {
            29
        } else {
            28
        }
    } else if m == 4 || m == 6 || m == 9 || m == 11 {
        30
    } else {
        31
    }
}

/// A real calendar date of the proleptic Gregorian calendar.
pub open spec fn date_valid(d: Date) -> bool {
    &&& 1 <= d.month <= 12
    &&& 1 <= d.day <= spec_days_in_month(d.year as int, d.month as int)
}

/// A real wall-clock time (leap seconds are not modeled).
pub open spec fn time_valid(t: Time) -> bool {
    &&& t.hour < 24
    &&& t.minute < 60
    &&& t.second < 60
}

pub open spec fn date_time_valid(dt: DateTime) -> bool {
    date_valid(dt.date) && time_valid(dt.time)
}

/// Number of leap years in `[0, y)`, year 0 counted as leap.
pub open spec fn leaps_before(y: int) -> int {
    (y + 3) / 4 - (y + 99) / 100 + (y + 399) / 400
}

/// Days from 0000-01-01 to the first day of year `y`.
pub open spec fn days_before_year(y: int) -> int {
    365 * y + leaps_before(y)
}

/// Days from the first day of year `y` to the first day of its month `m`.
pub open spec fn days_before_month(y: int, m: int) -> int {
    (if m == 1 {
        0int
    } else if m == 2 {
        31
    } else if m == 3 {
        59
    } else if m == 4 {
        90
    } else if m == 5 {
        120
    } else if m == 6 {
        151
    } else if m == 7 {
        181
    } else if m == 8 {
        212
    } else if m == 9 {
        243
    } else if m == 10 {
        273
    } else if m == 11 {
        304
    } else {
        334
    }) + if m > 2 && is_leap_year(y) {
        1int
    } else {
        0int
    }
}

/// Days from 0000-01-01 to the date `d` (0 for 0000-01-01 itself).
pub open spec fn day_index(d: Date) -> int {
    days_before_year(d.year as int) + days_before_month(d.year as int, d.month as int) + d.day - 1
}

/// Days from 0000-01-01 to 1970-01-01.
pub open spec fn epoch_day_index() -> int {
    719528
}

/// Seconds from 1970-01-01 00:00:00 to the date-time `dt`, on the naive
/// (timezone-free) scale.
pub open spec fn dt_seconds(dt: DateTime) -> int {
    (day_index(dt.date) - epoch_day_index()) * 86400 + dt.time.hour * 3600 + dt.time.minute * 60
        + dt.time.second
}

/// The next calendar day.
pub open spec fn spec_date_succ(d: Date) -> Date {
    if d.day < spec_days_in_month(d.year as int, d.month as int) {
        Date { year: d.year, month: d.month, day: (d.day + 1) as u8 }
    } else if d.month < 12 {
        Date { year: d.year, month: (d.month + 1) as u8, day: 1 }
    } else {
        Date { year: (d.year + 1) as u16, month: 1, day: 1 }
    }
}

/// Any real date-time of a four-digit year lies within the scale's range for
/// years 0000 through 9999.
pub proof fn lemma_dt_seconds_range(dt: DateTime)
    requires
        date_time_valid(dt),
        dt.date.year < 10000,
    ensures
        -62167219200 <= dt_seconds(dt) < 253402300800,
{
    let y = dt.date.year as int;
    assert(0 <= leaps_before(y) <= 2500);
    assert(0 <= days_before_month(y, dt.date.month as int) <= 335);
    assert(day_index(dt.date) < 3653060);
}

pub fn days_in_month(year: u16, month: u8) -> (r: u8)
    requires
        1 <= month <= 12,
    ensures
        r == spec_days_in_month(year as int, month as int),
{
    if month == 2 {
        if (year % 4 == 0 && year % 100 != 0) || year % 400 == 0 {
            29
        } else {
            28
        }
    } else if month == 4 || month == 6 || month == 9 || month == 11 {
        30
    } else {
        31
    }
}

impl Date {
    /// The next calendar day.
    pub fn succ(&self) -> (r: Date)
        requires
            date_valid(*self),
            self.year < 65535,
        ensures
            r == spec_date_succ(*self),
            date_valid(r),
    {
        if self.day < days_in_month(self.year, self.month) {
            Date { year: self.year, month: self.month, day: self.day + 1 }
        } else if self.month < 12 {
            Date { year: self.year, month: self.month + 1, day: 1 }
        } else {
            Date { year: self.year + 1, month: 1, day: 1 }
        }
    }
}

impl DateTime {
    /// Seconds from 1970-01-01 00:00:00 on the naive scale.
    pub fn to_seconds(&self) -> (r: i64)
        requires
            date_time_valid(*self),
        ensures
            r == dt_seconds(*self),
    {
        let y = self.date.year as i64;
        let leaps = (y + 3) / 4 - (y + 99) / 100 + (y + 399) / 400;
        let before_month: i64 = match self.date.month {
            1 => 0,
            2 => 31,
            3 => 59,
            4 => 90,
            5 => 120,
            6 => 151,
            7 => 181,
            8 => 212,
            9 => 243,
            10 => 273,
            11 => 304,
            _ => 334,
        };
        let leap_extra: i64 = if self.date.month > 2 && ((y % 4 == 0 && y % 100 != 0) || y % 400
            == 0) {
            1
        } else {
            0
        };
        let days = 365 * y + leaps + before_month + leap_extra + self.date.day as i64 - 1;
        (days - 719528) * 86400 + self.time.hour as i64 * 3600 + self.time.minute as i64 * 60
            + self.time.second as i64
    }
}

} // verus!
