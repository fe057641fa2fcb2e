//! Interpretation of RFC 5545 property values: dates, times, durations,
//! periods, UTC offsets, recurrence rules, and timezone transition tables,
//! resolved into unambiguous time ranges.
use vstd::prelude::*;

pub mod scan;
pub mod temporal;
pub mod property;
pub mod types;
pub mod duration;
pub mod recur;
pub mod timezone;
pub mod event;

verus! {

/// The primitive value type a decode was attempted for, reported inside
/// [`Error::TypeDecode`] when the text does not match that type's grammar.
#[derive(Clone, Copy, Debug, PartialEq, Eq, Structural)]
pub enum ICalTypes {
    Binary,
    Boolean,
    CalAddress,
    Date,
    DateTime,
    Duration,
    Float,
    Integer,
    Period,
    Recur,
    Text,
    Time,
    URI,
    UTCOffset,
}

/// Every failure this crate reports. Malformed input is always an ordinary,
/// recoverable failure value; no function here panics on it.
#[derive(Clone, Copy, Debug, PartialEq, Eq, Structural)]
pub enum Error {
    InvalidDate,
    InvalidTime,
    InvalidDateTime,
    InvalidTimeRange,
    InvalidTimezone,
    TypeDecode(ICalTypes),
}

pub fn add(left: usize, right: usize) -> (r: usize)
    requires
        left + right <= usize::MAX,
    ensures
        r == left + right,
{
    left + right
}

} // verus!
