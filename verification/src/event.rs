//! The event time-range resolver: combines a start value, an optional end
//! value, and an optional duration, against a timezone table, into one
//! normalized time range, rejecting every combination the rules disallow.
use vstd::prelude::*;

use crate::duration::{dur_text_val, duration_decode_ok, ICalDuration};
use crate::property::Property;
use crate::temporal::{Date, DateTime, Time, date_valid, date_time_valid, dt_seconds,
    spec_date_succ};
use crate::timezone::{map_lookup, no_applicable, offset_resolution_ok, Timezone, TimezoneMap};
use crate::types::{date_decode_ok, date_of_text, datetime_is_utc, datetime_of_text, dt_decode_ok,
    dt_inner, IcalDate, IcalDateTime, lemma_date_of_text_year, lemma_datetime_of_text_year};
use crate::{Error, ICalTypes};

verus! {

/// The terminal artifact of resolution: calendar-date bounds, absolute
/// instant bounds, or floating local-instant bounds; each end exclusive.
#[derive(Clone, Copy, Debug, PartialEq, Eq, Structural)]
pub enum EventTimeRange {
    Date { start: Date, end: Date },
    DateTime { start: i64, end: i64 },
    FloatingDateTime { start: i64, end: i64 },
}

/// The raw timing properties of an event-like entity.
pub struct RawTiming {
    pub start: Property,
    pub end: Option<Property>,
    pub duration: Option<Property>,
}

/// A decoded start or end value, at the specification level.
pub enum SpecTimeValue {
    Date(Date),
    Utc(DateTime),
    Floating(DateTime),
    Zoned(DateTime, Seq<char>),
}

/// What decoding a timing property yields: a date when the text is a date,
/// else a tagged date-time, else the date-time decode error.
pub open spec fn spec_decode_time_value(p: Property) -> Result<SpecTimeValue, Error> {
    if date_decode_ok(p) {
        Ok(SpecTimeValue::Date(date_of_text(p.value->0@)))
    } else if dt_decode_ok(p) {
        let s = p.value->0@;
        if datetime_is_utc(s) {
            Ok(SpecTimeValue::Utc(datetime_of_text(s)))
        } else if crate::property::spec_tzid(p) is Some {
            Ok(SpecTimeValue::Zoned(datetime_of_text(s), crate::property::spec_tzid(p)->0))
        } else {
            Ok(SpecTimeValue::Floating(datetime_of_text(s)))
        }
    } else {
        Err(Error::TypeDecode(ICalTypes::DateTime))
    }
}

/// What decoding a duration property yields.
pub open spec fn spec_decode_duration(p: Property) -> Result<int, Error> {
    if duration_decode_ok(p) {
        Ok(dur_text_val(p.value->0@)->0)
    } else {
        Err(Error::TypeDecode(ICalTypes::Duration))
    }
}

/// `v` is the absolute instant of local time `l` in `tz`.
pub open spec fn to_utc_ok(tz: Timezone, l: i64, v: i64) -> bool {
    exists|off: i32| #[trigger] offset_resolution_ok(tz, l, off) && v == l - off
}

/// `e` is the failure converting local time `l` in `tz` produces: the
/// timezone error when no transition applies, the range error when the
/// shifted instant does not fit.
pub open spec fn to_utc_err(tz: Timezone, l: i64, e: Error) -> bool {
    ||| (e == Error::InvalidTimezone && no_applicable(tz, l))
    ||| (e == Error::InvalidTimeRange && exists|off: i32|
        #[trigger] offset_resolution_ok(tz, l, off) && !(i64::MIN <= l - off <= i64::MAX))
}

/// The outcome of converting the pair (`l1` in `tz1`, then `l2` in `tz2`)
/// into an absolute-instant range: the first failure wins.
pub open spec fn pair_range_dt(
    tz1: Timezone,
    l1: i64,
    tz2: Timezone,
    l2: i64,
    r: Result<EventTimeRange, Error>,
) -> bool {
    match r {
        Ok(EventTimeRange::DateTime { start, end }) => to_utc_ok(tz1, l1, start) && to_utc_ok(
            tz2,
            l2,
            end,
        ),
        Ok(_) => false,
        Err(e) => to_utc_err(tz1, l1, e) || ((exists|v: i64| #[trigger] to_utc_ok(tz1, l1, v))
            && to_utc_err(tz2, l2, e)),
    }
}

/// The local second count at which the calendar day of `dt` ends: the next
/// day's local midnight minus one second.
pub open spec fn local_end_of_day(dt: DateTime) -> int {
    dt_seconds(DateTime { date: spec_date_succ(dt.date), time: Time { hour: 0, minute: 0, second: 0 } }) - 1
}

/// The full combination table: given the raw timing and the timezone table's
/// entries, `r` is the outcome resolution must produce.
pub open spec fn range_resolution_ok(
    timing: RawTiming,
    entries: Seq<Timezone>,
    r: Result<EventTimeRange, Error>,
) -> bool {
    match spec_decode_time_value(timing.start) {
        Err(e) => r == Err::<EventTimeRange, Error>(e),
        Ok(sv) => match timing.end {
            Some(ep) => match spec_decode_time_value(ep) {
                Err(e) => r == Err::<EventTimeRange, Error>(e),
                Ok(ev) => match timing.duration {
                    Some(dp) => match spec_decode_duration(dp) {
                        Err(e) => r == Err::<EventTimeRange, Error>(e),
                        Ok(_) => r == Err::<EventTimeRange, Error>(Error::InvalidTimeRange),
                    },
                    None => range_with_end(sv, ev, entries, r),
                },
            },
            None => match timing.duration {
                Some(dp) => match spec_decode_duration(dp) {
                    Err(e) => r == Err::<EventTimeRange, Error>(e),
                    Ok(d) => range_with_duration(sv, d, entries, r),
                },
                None => range_alone(sv, entries, r),
            },
        },
    }
}

/// The table rows with neither end nor duration.
pub open spec fn range_alone(
    sv: SpecTimeValue,
    entries: Seq<Timezone>,
    r: Result<EventTimeRange, Error>,
) -> bool {
    match sv {
        SpecTimeValue::Date(d) => r == Ok::<EventTimeRange, Error>(
            EventTimeRange::Date { start: d, end: spec_date_succ(d) },
        ),
        SpecTimeValue::Utc(dt) => r == Ok::<EventTimeRange, Error>(
            EventTimeRange::DateTime {
                start: dt_seconds(dt) as i64,
                end: (dt_seconds(dt) + 86400) as i64,
            },
        ),
        SpecTimeValue::Floating(dt) => r == Ok::<EventTimeRange, Error>(
            EventTimeRange::FloatingDateTime {
                start: dt_seconds(dt) as i64,
                end: (dt_seconds(dt) + 86400) as i64,
            },
        ),
        SpecTimeValue::Zoned(dt, zid) => match map_lookup(entries, zid) {
            None => r == Err::<EventTimeRange, Error>(Error::InvalidTimezone),
            Some(tz) => pair_range_dt(
                tz,
                dt_seconds(dt) as i64,
                tz,
                local_end_of_day(dt) as i64,
                r,
            ),
        },
    }
}

/// The table rows with an end value.
pub open spec fn range_with_end(
    sv: SpecTimeValue,
    ev: SpecTimeValue,
    entries: Seq<Timezone>,
    r: Result<EventTimeRange, Error>,
) -> bool {
    match (sv, ev) {
        (SpecTimeValue::Date(d), SpecTimeValue::Date(e)) => r == Ok::<EventTimeRange, Error>(
            EventTimeRange::Date { start: d, end: e },
        ),
        (SpecTimeValue::Utc(s), SpecTimeValue::Utc(e)) => r == Ok::<EventTimeRange, Error>(
            EventTimeRange::DateTime { start: dt_seconds(s) as i64, end: dt_seconds(e) as i64 },
        ),
        (SpecTimeValue::Floating(s), SpecTimeValue::Floating(e)) => r == Ok::<
            EventTimeRange,
            Error,
        >(
            EventTimeRange::FloatingDateTime {
                start: dt_seconds(s) as i64,
                end: dt_seconds(e) as i64,
            },
        ),
        (SpecTimeValue::Zoned(s, z1), SpecTimeValue::Zoned(e, z2)) => match map_lookup(
            entries,
            z1,
        ) {
            None => r == Err::<EventTimeRange, Error>(Error::InvalidTimezone),
            Some(tz1) => match map_lookup(entries, z2) {
                None => r == Err::<EventTimeRange, Error>(Error::InvalidTimezone),
                Some(tz2) => pair_range_dt(tz1, dt_seconds(s) as i64, tz2, dt_seconds(e) as i64, r),
            },
        },
        (SpecTimeValue::Utc(_), SpecTimeValue::Floating(_)) => r == Err::<EventTimeRange, Error>(
            Error::InvalidDateTime,
        ),
        (SpecTimeValue::Utc(_), SpecTimeValue::Zoned(_, _)) => r == Err::<EventTimeRange, Error>(
            Error::InvalidDateTime,
        ),
        (SpecTimeValue::Floating(_), SpecTimeValue::Utc(_)) => r == Err::<EventTimeRange, Error>(
            Error::InvalidDateTime,
        ),
        (SpecTimeValue::Floating(_), SpecTimeValue::Zoned(_, _)) => r == Err::<
            EventTimeRange,
            Error,
        >(Error::InvalidDateTime),
        (SpecTimeValue::Zoned(_, _), SpecTimeValue::Utc(_)) => r == Err::<EventTimeRange, Error>(
            Error::InvalidDateTime,
        ),
        (SpecTimeValue::Zoned(_, _), SpecTimeValue::Floating(_)) => r == Err::<
            EventTimeRange,
            Error,
        >(Error::InvalidDateTime),
        _ => r == Err::<EventTimeRange, Error>(Error::InvalidTimeRange),
    }
}

/// The table rows with a duration.
pub open spec fn range_with_duration(
    sv: SpecTimeValue,
    d: int,
    entries: Seq<Timezone>,
    r: Result<EventTimeRange, Error>,
) -> bool {
    match sv {
        SpecTimeValue::Utc(s) => {
            if i64::MIN <= dt_seconds(s) + d <= i64::MAX {
                r == Ok::<EventTimeRange, Error>(
                    EventTimeRange::DateTime {
                        start: dt_seconds(s) as i64,
                        end: (dt_seconds(s) + d) as i64,
                    },
                )
            } else {
                r == Err::<EventTimeRange, Error>(Error::InvalidTimeRange)
            }
        },
        SpecTimeValue::Floating(s) => {
            if i64::MIN <= dt_seconds(s) + d <= i64::MAX {
                r == Ok::<EventTimeRange, Error>(
                    EventTimeRange::FloatingDateTime {
                        start: dt_seconds(s) as i64,
                        end: (dt_seconds(s) + d) as i64,
                    },
                )
            } else {
                r == Err::<EventTimeRange, Error>(Error::InvalidTimeRange)
            }
        },
        SpecTimeValue::Zoned(s, zid) => match map_lookup(entries, zid) {
            None => r == Err::<EventTimeRange, Error>(Error::InvalidTimezone),
            Some(tz) => {
                if i64::MIN <= dt_seconds(s) + d <= i64::MAX {
                    pair_range_dt(tz, dt_seconds(s) as i64, tz, (dt_seconds(s) + d) as i64, r)
                } else {
                    r == Err::<EventTimeRange, Error>(Error::InvalidTimeRange)
                }
            },
        },
        SpecTimeValue::Date(_) => r == Err::<EventTimeRange, Error>(Error::InvalidTimeRange),
    }
}


/// A decoded timing value: a date, or a tagged date-time.
pub enum TimeValue {
    Date(IcalDate),
    DateTime(IcalDateTime),
}

/// Relates a decoded tagged date-time to the specification-level decode.
pub open spec fn tv_matches(p: Property, t: IcalDateTime) -> bool {
    match t {
        IcalDateTime::Utc { date_time } => spec_decode_time_value(p) == Ok::<SpecTimeValue, Error>(
            SpecTimeValue::Utc(date_time),
        ),
        IcalDateTime::Floating { date_time } => spec_decode_time_value(p) == Ok::<
            SpecTimeValue,
            Error,
        >(SpecTimeValue::Floating(date_time)),
        IcalDateTime::TimeZone { date_time, tzid } => spec_decode_time_value(p) == Ok::<
            SpecTimeValue,
            Error,
        >(SpecTimeValue::Zoned(date_time, tzid@)),
    }
}

impl TimeValue {
    /// Decodes a timing property: a date if the text is a date, else a tagged
    /// date-time.
    pub fn try_from(value: &Property) -> (r: Result<TimeValue, Error>)
        ensures
            match r {
                Ok(TimeValue::Date(d)) => spec_decode_time_value(*value) == Ok::<
                    SpecTimeValue,
                    Error,
                >(SpecTimeValue::Date(d.date)) && date_valid(d.date),
                Ok(TimeValue::DateTime(t)) => tv_matches(*value, t) && date_time_valid(
                    dt_inner(t),
                ),
                Err(e) => spec_decode_time_value(*value) == Err::<SpecTimeValue, Error>(e),
            },
    {
        match IcalDate::try_from(value) {
            Ok(d) => Ok(TimeValue::Date(d)),
            Err(_) => match IcalDateTime::try_from(value) {
                Ok(t) => Ok(TimeValue::DateTime(t)),
                Err(e) => Err(e),
            },
        }
    }
}

/// An event-like entity: so far, only its resolved time range.
pub struct Event {
    pub time: EventTimeRange,
}

impl RawTiming {
    /// Resolves the start/end/duration triple against the timezone table into
    /// one normalized time range, per the combination table; anything the
    /// table does not list is rejected.
    pub fn get_time_range(&self, timezone_map: &TimezoneMap) -> (r: Result<EventTimeRange, Error>)
        ensures
            range_resolution_ok(*self, timezone_map.entries@, r),
    {
        let start = match TimeValue::try_from(&self.start) {
            Ok(v) => v,
            Err(e) => {
                return Err(e);
            },
        };
        let end = match &self.end {
            Some(p) => match TimeValue::try_from(p) {
                Ok(v) => Some(v),
                Err(e) => {
                    return Err(e);
                },
            },
            None => None,
        };
        let duration = match &self.duration {
            Some(p) => match ICalDuration::try_from(p) {
                Ok(v) => Some(v),
                Err(e) => {
                    return Err(e);
                },
            },
            None => None,
        };
        match (start, end, duration) {
            (TimeValue::Date(start), None, None) => {
                proof {
                    lemma_date_of_text_year(self.start.value->0@);
                }
                let d = start.date;
                Ok(EventTimeRange::Date { start: d, end: d.succ() })
            },
            (TimeValue::Date(start), Some(TimeValue::Date(end)), None) => {
                Ok(EventTimeRange::Date { start: start.date, end: end.date })
            },
            (TimeValue::DateTime(start), None, None) => {
                proof {
                    lemma_datetime_of_text_year(self.start.value->0@);
                    crate::temporal::lemma_dt_seconds_range(dt_inner(start));
                }
                match start {
                    IcalDateTime::Utc { date_time } => {
                        let s = date_time.to_seconds();
                        Ok(EventTimeRange::DateTime { start: s, end: s + 86400 })
                    },
                    IcalDateTime::Floating { date_time } => {
                        let s = date_time.to_seconds();
                        Ok(EventTimeRange::FloatingDateTime { start: s, end: s + 86400 })
                    },
                    IcalDateTime::TimeZone { date_time, tzid } => {
                        let timezone = match timezone_map.get(&tzid) {
                            Some(tz) => tz,
                            None => {
                                return Err(Error::InvalidTimezone);
                            },
                        };
                        let next_day = date_time.date.succ();
                        let end_dt = DateTime {
                            date: next_day,
                            time: Time { hour: 0, minute: 0, second: 0 },
                        };
                        proof {
                            if end_dt.date.year < 10000 {
                                crate::temporal::lemma_dt_seconds_range(end_dt);
                            } else {
                                assert(end_dt.date == Date { year: 10000, month: 1, day: 1 });
                                assert(dt_seconds(end_dt) == 253402300800);
                            }
                        }
                        let end_local = end_dt.to_seconds() - 1;
                        let su = match timezone.to_utc(date_time.to_seconds()) {
                            Ok(v) => v,
                            Err(e) => {
                                return Err(e);
                            },
                        };
                        let eu = match timezone.to_utc(end_local) {
                            Ok(v) => v,
                            Err(e) => {
                                proof {
                                    assert(to_utc_ok(*timezone, dt_seconds(date_time) as i64, su));
                                }
                                return Err(e);
                            },
                        };
                        Ok(EventTimeRange::DateTime { start: su, end: eu })
                    },
                }
            },
            (TimeValue::DateTime(start), Some(TimeValue::DateTime(end)), None) => {
                proof {
                    lemma_datetime_of_text_year(self.start.value->0@);
                    crate::temporal::lemma_dt_seconds_range(dt_inner(start));
                    lemma_datetime_of_text_year(self.end->0.value->0@);
                    crate::temporal::lemma_dt_seconds_range(dt_inner(end));
                }
                match (start, end) {
                    (
                        IcalDateTime::Utc { date_time: s },
                        IcalDateTime::Utc { date_time: e },
                    ) => Ok(
                        EventTimeRange::DateTime { start: s.to_seconds(), end: e.to_seconds() },
                    ),
                    (
                        IcalDateTime::Floating { date_time: s },
                        IcalDateTime::Floating { date_time: e },
                    ) => Ok(
                        EventTimeRange::FloatingDateTime {
                            start: s.to_seconds(),
                            end: e.to_seconds(),
                        },
                    ),
                    (
                        IcalDateTime::TimeZone { date_time: s, tzid: start_tzid },
                        IcalDateTime::TimeZone { date_time: e, tzid: end_tzid },
                    ) => {
                        let start_timezone = match timezone_map.get(&start_tzid) {
                            Some(tz) => tz,
                            None => {
                                return Err(Error::InvalidTimezone);
                            },
                        };
                        let end_timezone = match timezone_map.get(&end_tzid) {
                            Some(tz) => tz,
                            None => {
                                return Err(Error::InvalidTimezone);
                            },
                        };
                        let su = match start_timezone.to_utc(s.to_seconds()) {
                            Ok(v) => v,
                            Err(e) => {
                                return Err(e);
                            },
                        };
                        let eu = match end_timezone.to_utc(e.to_seconds()) {
                            Ok(v) => v,
                            Err(err) => {
                                proof {
                                    assert(to_utc_ok(*start_timezone, dt_seconds(s) as i64, su));
                                }
                                return Err(err);
                            },
                        };
                        Ok(EventTimeRange::DateTime { start: su, end: eu })
                    },
                    _ => Err(Error::InvalidDateTime),
                }
            },
            (TimeValue::DateTime(start), None, Some(duration)) => {
                proof {
                    lemma_datetime_of_text_year(self.start.value->0@);
                    crate::temporal::lemma_dt_seconds_range(dt_inner(start));
                }
                match start {
                    IcalDateTime::Utc { date_time } => {
                        let s = date_time.to_seconds();
                        match s.checked_add(duration.seconds) {
                            Some(e) => Ok(EventTimeRange::DateTime { start: s, end: e }),
                            None => Err(Error::InvalidTimeRange),
                        }
                    },
                    IcalDateTime::Floating { date_time } => {
                        let s = date_time.to_seconds();
                        match s.checked_add(duration.seconds) {
                            Some(e) => Ok(EventTimeRange::FloatingDateTime { start: s, end: e }),
                            None => Err(Error::InvalidTimeRange),
                        }
                    },
                    IcalDateTime::TimeZone { date_time, tzid } => {
                        let timezone = match timezone_map.get(&tzid) {
                            Some(tz) => tz,
                            None => {
                                return Err(Error::InvalidTimezone);
                            },
                        };
                        let s = date_time.to_seconds();
                        let end_local = match s.checked_add(duration.seconds) {
                            Some(e) => e,
                            None => {
                                return Err(Error::InvalidTimeRange);
                            },
                        };
                        let su = match timezone.to_utc(s) {
                            Ok(v) => v,
                            Err(e) => {
                                return Err(e);
                            },
                        };
                        let eu = match timezone.to_utc(end_local) {
                            Ok(v) => v,
                            Err(e) => {
                                proof {
                                    assert(to_utc_ok(*timezone, s, su));
                                }
                                return Err(e);
                            },
                        };
                        Ok(EventTimeRange::DateTime { start: su, end: eu })
                    },
                }
            },
            _ => Err(Error::InvalidTimeRange),
        }
    }
}

/// Converting one local time has a unique outcome: the helper behind the
/// idempotence of resolution.
proof fn lemma_to_utc_unique(tz: Timezone, l: i64, r1: Result<i64, Error>, r2: Result<i64, Error>)
    requires
        match r1 {
            Ok(v) => to_utc_ok(tz, l, v),
            Err(e) => to_utc_err(tz, l, e),
        },
        match r2 {
            Ok(v) => to_utc_ok(tz, l, v),
            Err(e) => to_utc_err(tz, l, e),
        },
    ensures
        r1 == r2,
{
    lemma_to_utc_shape(tz, l, r1, r2);
    lemma_to_utc_shape(tz, l, r2, r1);
    match (r1, r2) {
        (Ok(v1), Ok(v2)) => {
            let off1 = choose|off: i32| #[trigger] offset_resolution_ok(tz, l, off) && v1 == l
                - off;
            let off2 = choose|off: i32| #[trigger] offset_resolution_ok(tz, l, off) && v2 == l
                - off;
            crate::timezone::lemma_offset_resolution_unique(tz, l, off1, off2);
        },
        (Err(e1), Err(e2)) => {
            if e1 != e2 {
                // one failure names the timezone, the other the range; they
                // cannot both hold of the same conversion
                assert(no_applicable(tz, l));
                let off = choose|off: i32|
                    #[trigger] offset_resolution_ok(tz, l, off) && !(i64::MIN <= l - off
                        <= i64::MAX);
                lemma_resolution_applies(tz, l, off);
            }
        },
        _ => {},
    }
}

/// A successful conversion refutes both failure shapes.
proof fn lemma_to_utc_shape(
    tz: Timezone,
    l: i64,
    r1: Result<i64, Error>,
    r2: Result<i64, Error>,
)
    requires
        match r1 {
            Ok(v) => to_utc_ok(tz, l, v),
            Err(e) => to_utc_err(tz, l, e),
        },
        match r2 {
            Ok(v) => to_utc_ok(tz, l, v),
            Err(e) => to_utc_err(tz, l, e),
        },
    ensures
        r1 is Ok ==> r2 is Ok,
{
    match (r1, r2) {
        (Ok(v1), Err(e2)) => {
            let off1 = choose|off: i32| #[trigger] offset_resolution_ok(tz, l, off) && v1 == l
                - off;
            if e2 == Error::InvalidTimezone {
                lemma_resolution_applies(tz, l, off1);
            } else {
                let off2 = choose|off: i32|
                    #[trigger] offset_resolution_ok(tz, l, off) && !(i64::MIN <= l - off
                        <= i64::MAX);
                crate::timezone::lemma_offset_resolution_unique(tz, l, off1, off2);
            }
        },
        _ => {},
    }
}

/// A resolved offset exhibits an applicable transition.
proof fn lemma_resolution_applies(tz: Timezone, l: i64, off: i32)
    requires
        offset_resolution_ok(tz, l, off),
    ensures
        !no_applicable(tz, l),
{
    let (i, a) = choose|i: int, a: i64|
        {
            &&& #[trigger] crate::timezone::applies(tz.transitions@, i, a, l)
            &&& off == tz.transitions@[i].offset
            &&& forall|j: int, b: i64|
                #[trigger] crate::timezone::applies(tz.transitions@, j, b, l) ==> b < a || (b == a
                    && j <= i)
        };
    assert(crate::timezone::applies(tz.transitions@, i, a, l));
}

/// Converting a pair of local times has a unique outcome.
proof fn lemma_pair_unique(
    tz1: Timezone,
    l1: i64,
    tz2: Timezone,
    l2: i64,
    r1: Result<EventTimeRange, Error>,
    r2: Result<EventTimeRange, Error>,
)
    requires
        pair_range_dt(tz1, l1, tz2, l2, r1),
        pair_range_dt(tz1, l1, tz2, l2, r2),
    ensures
        r1 == r2,
{
    lemma_pair_shape(tz1, l1, tz2, l2, r1, r2);
    lemma_pair_shape(tz1, l1, tz2, l2, r2, r1);
    match (r1, r2) {
        (Ok(EventTimeRange::DateTime { start: s1, end: e1 }), Ok(
            EventTimeRange::DateTime { start: s2, end: e2 },
        )) => {
            lemma_to_utc_unique(tz1, l1, Ok(s1), Ok(s2));
            lemma_to_utc_unique(tz2, l2, Ok(e1), Ok(e2));
        },
        (Err(x1), Err(x2)) => {
            if to_utc_err(tz1, l1, x1) {
                if to_utc_err(tz1, l1, x2) {
                    lemma_to_utc_unique(tz1, l1, Err(x1), Err(x2));
                } else {
                    let v = choose|v: i64| #[trigger] to_utc_ok(tz1, l1, v);
                    lemma_to_utc_unique(tz1, l1, Ok(v), Err(x1));
                }
            } else {
                if to_utc_err(tz1, l1, x2) {
                    let v = choose|v: i64| #[trigger] to_utc_ok(tz1, l1, v);
                    lemma_to_utc_unique(tz1, l1, Ok(v), Err(x2));
                } else {
                    lemma_to_utc_unique(tz2, l2, Err(x1), Err(x2));
                }
            }
        },
        _ => {},
    }
}

/// An outcome pair cannot mix success and failure.
proof fn lemma_pair_shape(
    tz1: Timezone,
    l1: i64,
    tz2: Timezone,
    l2: i64,
    r1: Result<EventTimeRange, Error>,
    r2: Result<EventTimeRange, Error>,
)
    requires
        pair_range_dt(tz1, l1, tz2, l2, r1),
        pair_range_dt(tz1, l1, tz2, l2, r2),
    ensures
        r1 is Ok ==> r2 is Ok,
{
    match (r1, r2) {
        (Ok(EventTimeRange::DateTime { start, end }), Err(e2)) => {
            if to_utc_err(tz1, l1, e2) {
                lemma_to_utc_shape(tz1, l1, Ok(start), Err(e2));
            } else {
                lemma_to_utc_shape(tz2, l2, Ok(end), Err(e2));
            }
        },
        _ => {},
    }
}

/// Resolving the same timing against the same timezone table twice yields
/// identical output: the resolution contract pins a unique result, so the
/// resolver holds no hidden mutable state.
pub proof fn lemma_range_resolution_unique(
    timing: RawTiming,
    entries: Seq<Timezone>,
    r1: Result<EventTimeRange, Error>,
    r2: Result<EventTimeRange, Error>,
)
    requires
        range_resolution_ok(timing, entries, r1),
        range_resolution_ok(timing, entries, r2),
    ensures
        r1 == r2,
{
    match spec_decode_time_value(timing.start) {
        Err(_) => {},
        Ok(sv) => match timing.end {
            Some(ep) => match spec_decode_time_value(ep) {
                Err(_) => {},
                Ok(ev) => match timing.duration {
                    Some(_) => {},
                    None => match (sv, ev) {
                        (SpecTimeValue::Zoned(s, z1), SpecTimeValue::Zoned(e, z2)) => {
                            match map_lookup(entries, z1) {
                                None => {},
                                Some(tz1) => match map_lookup(entries, z2) {
                                    None => {},
                                    Some(tz2) => {
                                        lemma_pair_unique(
                                            tz1,
                                            dt_seconds(s) as i64,
                                            tz2,
                                            dt_seconds(e) as i64,
                                            r1,
                                            r2,
                                        );
                                    },
                                },
                            }
                        },
                        _ => {},
                    },
                },
            },
            None => match timing.duration {
                Some(dp) => match spec_decode_duration(dp) {
                    Err(_) => {},
                    Ok(d) => match sv {
                        SpecTimeValue::Zoned(s, zid) => match map_lookup(entries, zid) {
                            None => {},
                            Some(tz) => {
                                if i64::MIN <= dt_seconds(s) + d <= i64::MAX {
                                    lemma_pair_unique(
                                        tz,
                                        dt_seconds(s) as i64,
                                        tz,
                                        (dt_seconds(s) + d) as i64,
                                        r1,
                                        r2,
                                    );
                                }
                            },
                        },
                        _ => {},
                    },
                },
                None => match sv {
                    SpecTimeValue::Zoned(dt, zid) => match map_lookup(entries, zid) {
                        None => {},
                        Some(tz) => {
                            lemma_pair_unique(
                                tz,
                                dt_seconds(dt) as i64,
                                tz,
                                local_end_of_day(dt) as i64,
                                r1,
                                r2,
                            );
                        },
                    },
                    _ => {},
                },
            },
        },
    }
}

} // verus!
