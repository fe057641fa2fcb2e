//! Typed RFC 5545 property values and the positional micro-grammars that
//! decode them from a property's raw text.
use vstd::prelude::*;

use crate::scan::{all_digits, digit_run, digit_val, digits_val, digit_run_end, digits_to_u64, is_digit,
    lemma_digit_run_is, lemma_digits_val_nonneg, lemma_digits_val_prefix};
use crate::temporal::{Date, DateTime, Time, date_time_valid, date_valid, spec_days_in_month,
    time_valid};
use crate::property::{Property, get_tzid, spec_tzid};
use crate::{Error, ICalTypes};

verus! {

// ---------------------------------------------------------------------------
// Date
// ---------------------------------------------------------------------------
/// `YYYYMMDD`: exactly eight digits denoting a real calendar date.
pub open spec fn date_text_valid(s: Seq<char>) -> bool {
    &&& s.len() == 8
    &&& all_digits(s)
    &&& 1 <= digits_val(s.subrange(4, 6)) <= 12
    &&& 1 <= digits_val(s.subrange(6, 8)) <= spec_days_in_month(
        digits_val(s.subrange(0, 4)),
        digits_val(s.subrange(4, 6)),
    )
}

/// The date denoted by a valid `YYYYMMDD` string.
pub open spec fn date_of_text(s: Seq<char>) -> Date {
    Date {
        year: digits_val(s.subrange(0, 4)) as u16,
        month: digits_val(s.subrange(4, 6)) as u8,
        day: digits_val(s.subrange(6, 8)) as u8,
    }
}

/// Ten to the power `n`.
pub open spec fn pow10(n: nat) -> int
    decreases n,
{
    if n == 0 {
        1
    } else {
        10 * pow10((n - 1) as nat)
    }
}

pub proof fn lemma_digits_val_upper(s: Seq<char>)
    requires
        all_digits(s),
    ensures
        digits_val(s) < pow10(s.len()),
    decreases s.len(),
{
    if s.len() > 0 {
        assert(all_digits(s.drop_last()));
        lemma_digits_val_upper(s.drop_last());
        assert(digits_val(s.drop_last()) <= pow10((s.len() - 1) as nat) - 1);
        assert(digits_val(s.drop_last()) * 10 <= (pow10((s.len() - 1) as nat) - 1) * 10) by (nonlinear_arith)
            requires
                digits_val(s.drop_last()) <= pow10((s.len() - 1) as nat) - 1,
        ;
        assert(digit_val(s.last()) <= 9);
    }
}

pub proof fn lemma_pow10_pos(n: nat)
    ensures
        pow10(n) >= 1,
    decreases n,
{
    if n > 0 {
        lemma_pow10_pos((n - 1) as nat);
    }
}

pub proof fn lemma_pow10_mono(a: nat, b: nat)
    requires
        a <= b,
    ensures
        pow10(a) <= pow10(b),
    decreases b,
{
    if a < b {
        lemma_pow10_mono(a, (b - 1) as nat);
        lemma_pow10_pos((b - 1) as nat);
        assert(pow10(b) == 10 * pow10((b - 1) as nat));
    }
}

pub proof fn lemma_pow10_vals()
    ensures
        pow10(0) == 1,
        pow10(1) == 10,
        pow10(2) == 100,
        pow10(3) == 1000,
        pow10(4) == 10000,
{
    assert(pow10(0) == 1);
    assert(pow10(1) == 10);
    assert(pow10(2) == 100);
    assert(pow10(3) == 1000);
    assert(pow10(4) == 10000);
}

/// A valid date text denotes a four-digit year.
pub proof fn lemma_date_of_text_year(s: Seq<char>)
    requires
        date_text_valid(s),
    ensures
        date_of_text(s).year < 10000,
{
    lemma_pow10_vals();
    assert(all_digits(s.subrange(0, 4)));
    lemma_digits_val_upper(s.subrange(0, 4));
    lemma_digits_val_nonneg(s.subrange(0, 4));
}

/// A valid date-time text denotes a four-digit year.
pub proof fn lemma_datetime_of_text_year(s: Seq<char>)
    requires
        datetime_text_valid(s),
    ensures
        datetime_of_text(s).date.year < 10000,
{
    lemma_date_of_text_year(s.subrange(0, 8));
}

/// Decodes `YYYYMMDD`.
pub fn parse_date(s: &str) -> (r: Option<Date>)
    ensures
        match r {
            Some(d) => date_text_valid(s@) && d == date_of_text(s@) && date_valid(d),
            None => !date_text_valid(s@),
        },
{
    let len = s.unicode_len();
    if len != 8 {
        return None;
    }
    let j = digit_run_end(s, 0, len);
    if j != 8 {
        return None;
    }
    proof {
        assert(all_digits(s@));
        assert(all_digits(s@.subrange(0, 4)));
        assert(all_digits(s@.subrange(4, 6)));
        assert(all_digits(s@.subrange(6, 8)));
        lemma_pow10_vals();
        lemma_digits_val_upper(s@.subrange(0, 4));
        lemma_digits_val_upper(s@.subrange(4, 6));
        lemma_digits_val_upper(s@.subrange(6, 8));
        lemma_digits_val_nonneg(s@.subrange(0, 4));
        lemma_digits_val_nonneg(s@.subrange(4, 6));
        lemma_digits_val_nonneg(s@.subrange(6, 8));
    }
    let y = match digits_to_u64(s, 0, 4) {
        Some(v) => v,
        None => {
            proof {
                assert(false);
            }
            return None;
        },
    };
    let m = match digits_to_u64(s, 4, 6) {
        Some(v) => v,
        None => {
            proof {
                assert(false);
            }
            return None;
        },
    };
    let d = match digits_to_u64(s, 6, 8) {
        Some(v) => v,
        None => {
            proof {
                assert(false);
            }
            return None;
        },
    };
    if m < 1 || m > 12 {
        return None;
    }
    let dim = crate::temporal::days_in_month(y as u16, m as u8);
    if d < 1 || d > dim as u64 {
        return None;
    }
    Some(Date { year: y as u16, month: m as u8, day: d as u8 })
}

// ---------------------------------------------------------------------------
// Time
// ---------------------------------------------------------------------------
/// `HHMMSS` optionally suffixed `Z`: a real wall-clock time.
pub open spec fn time_text_valid(s: Seq<char>) -> bool {
    &&& (s.len() == 6 || (s.len() == 7 && s[6] == 'Z'))
    &&& (forall|i: int| 0 <= i < 6 ==> is_digit(#[trigger] s[i]))
    &&& digits_val(s.subrange(0, 2)) < 24
    &&& digits_val(s.subrange(2, 4)) < 60
    &&& digits_val(s.subrange(4, 6)) < 60
}

/// Whether a valid time string carries the UTC marker `Z`.
pub open spec fn time_is_utc(s: Seq<char>) -> bool {
    s.len() == 7
}

/// The time denoted by a valid `HHMMSS[Z]` string.
pub open spec fn time_of_text(s: Seq<char>) -> Time {
    Time {
        hour: digits_val(s.subrange(0, 2)) as u8,
        minute: digits_val(s.subrange(2, 4)) as u8,
        second: digits_val(s.subrange(4, 6)) as u8,
    }
}

/// Decodes `HHMMSS[Z]`; the flag reports the `Z` marker.
pub fn parse_time(s: &str) -> (r: Option<(Time, bool)>)
    ensures
        match r {
            Some(p) => time_text_valid(s@) && p.0 == time_of_text(s@) && p.1 == time_is_utc(s@)
                && time_valid(p.0),
            None => !time_text_valid(s@),
        },
{
    let len = s.unicode_len();
    if len != 6 && len != 7 {
        return None;
    }
    if len == 7 && s.get_char(6) != 'Z' {
        return None;
    }
    let j = digit_run_end(s, 0, 6);
    if j != 6 {
        return None;
    }
    proof {
        assert(all_digits(s@.subrange(0, 2)));
        assert(all_digits(s@.subrange(2, 4)));
        assert(all_digits(s@.subrange(4, 6)));
        lemma_pow10_vals();
        lemma_digits_val_upper(s@.subrange(0, 2));
        lemma_digits_val_upper(s@.subrange(2, 4));
        lemma_digits_val_upper(s@.subrange(4, 6));
        lemma_digits_val_nonneg(s@.subrange(0, 2));
        lemma_digits_val_nonneg(s@.subrange(2, 4));
        lemma_digits_val_nonneg(s@.subrange(4, 6));
    }
    let h = match digits_to_u64(s, 0, 2) {
        Some(v) => v,
        None => {
            proof {
                assert(false);
            }
            return None;
        },
    };
    let mi = match digits_to_u64(s, 2, 4) {
        Some(v) => v,
        None => {
            proof {
                assert(false);
            }
            return None;
        },
    };
    let se = match digits_to_u64(s, 4, 6) {
        Some(v) => v,
        None => {
            proof {
                assert(false);
            }
            return None;
        },
    };
    if h >= 24 || mi >= 60 || se >= 60 {
        return None;
    }
    Some((Time { hour: h as u8, minute: mi as u8, second: se as u8 }, len == 7))
}

// ---------------------------------------------------------------------------
// DateTime
// ---------------------------------------------------------------------------
/// `YYYYMMDD` + literal `T` + `HHMMSS[Z]`.
pub open spec fn datetime_text_valid(s: Seq<char>) -> bool {
    &&& s.len() >= 9
    &&& s[8] == 'T'
    &&& date_text_valid(s.subrange(0, 8))
    &&& time_text_valid(s.subrange(9, s.len() as int))
}

pub open spec fn datetime_is_utc(s: Seq<char>) -> bool {
    time_is_utc(s.subrange(9, s.len() as int))
}

pub open spec fn datetime_of_text(s: Seq<char>) -> DateTime {
    DateTime {
        date: date_of_text(s.subrange(0, 8)),
        time: time_of_text(s.subrange(9, s.len() as int)),
    }
}

/// Decodes `YYYYMMDDTHHMMSS[Z]`; the flag reports the `Z` marker.
pub fn parse_datetime(s: &str) -> (r: Option<(DateTime, bool)>)
    ensures
        match r {
            Some(p) => datetime_text_valid(s@) && p.0 == datetime_of_text(s@) && p.1
                == datetime_is_utc(s@) && date_time_valid(p.0),
            None => !datetime_text_valid(s@),
        },
{
    let len = s.unicode_len();
    if len < 9 {
        return None;
    }
    if s.get_char(8) != 'T' {
        return None;
    }
    let date_part = s.substring_char(0, 8);
    let time_part = s.substring_char(9, len);
    let d = match parse_date(date_part) {
        Some(d) => d,
        None => {
            return None;
        },
    };
    let t = match parse_time(time_part) {
        Some(t) => t,
        None => {
            return None;
        },
    };
    Some((DateTime { date: d, time: t.0 }, t.1))
}

// ---------------------------------------------------------------------------
// Tagged value types
// ---------------------------------------------------------------------------
/// A parsed `DATE` property value.
#[derive(Clone, Copy, Debug, PartialEq, Eq, Structural)]
pub struct IcalDate {
    pub date: Date,
}

/// A parsed `TIME` property value; the tag records which timezone variant the
/// source property denoted and is never silently coerced.
#[derive(Clone, Debug)]
pub enum ICalTime {
    Utc { time: Time },
    Floating { time: Time },
    Local { time: Time, tzid: String },
}

/// A parsed `DATE-TIME` property value; `Utc` and `Floating` never carry a
/// timezone identifier, `TimeZone` always does.
#[derive(Clone, Debug)]
pub enum IcalDateTime {
    Utc { date_time: DateTime },
    Floating { date_time: DateTime },
    TimeZone { date_time: DateTime, tzid: String },
}

/// A `DATE` property decodes iff its value text is a valid `YYYYMMDD` date.
pub open spec fn date_decode_ok(p: Property) -> bool {
    match p.value {
        Some(s) => date_text_valid(s@),
        None => false,
    }
}

impl IcalDate {
    pub fn try_from(property: &Property) -> (r: Result<IcalDate, Error>)
        ensures
            match r {
                Ok(d) => date_decode_ok(*property) && (match property.value {
                    Some(s) => d.date == date_of_text(s@) && date_valid(d.date),
                    None => false,
                }),
                Err(e) => !date_decode_ok(*property) && e == Error::TypeDecode(ICalTypes::Date),
            },
    {
        match &property.value {
            Some(v) => match parse_date(v.as_str()) {
                Some(d) => Ok(IcalDate { date: d }),
                None => Err(Error::TypeDecode(ICalTypes::Date)),
            },
            None => Err(Error::TypeDecode(ICalTypes::Date)),
        }
    }
}

/// A `TIME` property decodes iff its text is a valid time and the UTC marker
/// does not additionally carry a timezone parameter.
pub open spec fn time_decode_ok(p: Property) -> bool {
    match p.value {
        Some(s) => time_text_valid(s@) && !(time_is_utc(s@) && spec_tzid(p) is Some),
        None => false,
    }
}

/// Relates a decoded `ICalTime` to its source property: the variant tag
/// follows the `Z` marker and the `TZID` parameter.
pub open spec fn time_decoded(p: Property, t: ICalTime) -> bool {
    match p.value {
        Some(s) => match t {
            ICalTime::Utc { time } => time_is_utc(s@) && spec_tzid(p) is None && time
                == time_of_text(s@),
            ICalTime::Floating { time } => !time_is_utc(s@) && spec_tzid(p) is None && time
                == time_of_text(s@),
            ICalTime::Local { time, tzid } => !time_is_utc(s@) && spec_tzid(p) == Some(tzid@)
                && time == time_of_text(s@),
        },
        None => false,
    }
}

impl ICalTime {
    pub fn try_from(property: &Property) -> (r: Result<ICalTime, Error>)
        ensures
            match r {
                Ok(t) => time_decode_ok(*property) && time_decoded(*property, t),
                Err(e) => !time_decode_ok(*property) && e == Error::TypeDecode(ICalTypes::Time),
            },
    {
        match &property.value {
            Some(v) => match parse_time(v.as_str()) {
                Some((time, utc)) => {
                    let tzid = get_tzid(property);
                    match (utc, tzid) {
                        (true, None) => Ok(ICalTime::Utc { time }),
                        (false, None) => Ok(ICalTime::Floating { time }),
                        (false, Some(tzid)) => Ok(ICalTime::Local { time, tzid }),
                        (true, Some(_)) => Err(Error::TypeDecode(ICalTypes::Time)),
                    }
                },
                None => Err(Error::TypeDecode(ICalTypes::Time)),
            },
            None => Err(Error::TypeDecode(ICalTypes::Time)),
        }
    }
}

/// A date-time text `s` decodes in the context of property `p`'s parameters
/// iff it is valid and the UTC marker does not additionally carry a timezone
/// parameter.
pub open spec fn dt_part_ok(p: Property, s: Seq<char>) -> bool {
    datetime_text_valid(s) && !(datetime_is_utc(s) && spec_tzid(p) is Some)
}

/// Relates a decoded `IcalDateTime` to a date-time text `s` read in the
/// context of property `p`'s parameters.
pub open spec fn dt_part_decoded(p: Property, s: Seq<char>, t: IcalDateTime) -> bool {
    match t {
        IcalDateTime::Utc { date_time } => datetime_is_utc(s) && spec_tzid(p) is None && date_time
            == datetime_of_text(s),
        IcalDateTime::Floating { date_time } => !datetime_is_utc(s) && spec_tzid(p) is None
            && date_time == datetime_of_text(s),
        IcalDateTime::TimeZone { date_time, tzid } => !datetime_is_utc(s) && spec_tzid(p) == Some(
            tzid@,
        ) && date_time == datetime_of_text(s),
    }
}

/// A `DATE-TIME` property decodes iff its text is a valid date-time and the
/// UTC marker does not additionally carry a timezone parameter.
pub open spec fn dt_decode_ok(p: Property) -> bool {
    match p.value {
        Some(s) => dt_part_ok(p, s@),
        None => false,
    }
}

/// Relates a decoded `IcalDateTime` to its source property.
pub open spec fn dt_decoded(p: Property, t: IcalDateTime) -> bool {
    match p.value {
        Some(s) => dt_part_decoded(p, s@, t),
        None => false,
    }
}

/// The naive date-time carried by any variant.
pub open spec fn dt_inner(t: IcalDateTime) -> DateTime {
    match t {
        IcalDateTime::Utc { date_time } => date_time,
        IcalDateTime::Floating { date_time } => date_time,
        IcalDateTime::TimeZone { date_time, .. } => date_time,
    }
}

/// Decodes one date-time text in the context of `property`'s parameters,
/// applying the `Z`/`TZID` tagging rules.
pub fn decode_dt_part(property: &Property, v: &str) -> (r: Option<IcalDateTime>)
    ensures
        match r {
            Some(t) => dt_part_ok(*property, v@) && dt_part_decoded(*property, v@, t)
                && date_time_valid(dt_inner(t)),
            None => !dt_part_ok(*property, v@),
        },
{
    match parse_datetime(v) {
        Some((date_time, utc)) => {
            let tzid = get_tzid(property);
            match (utc, tzid) {
                (true, None) => Some(IcalDateTime::Utc { date_time }),
                (false, None) => Some(IcalDateTime::Floating { date_time }),
                (false, Some(tzid)) => Some(IcalDateTime::TimeZone { date_time, tzid }),
                (true, Some(_)) => None,
            }
        },
        None => None,
    }
}

impl IcalDateTime {
    pub fn try_from(property: &Property) -> (r: Result<IcalDateTime, Error>)
        ensures
            match r {
                Ok(t) => dt_decode_ok(*property) && dt_decoded(*property, t) && date_time_valid(
                    dt_inner(t),
                ),
                Err(e) => !dt_decode_ok(*property) && e == Error::TypeDecode(ICalTypes::DateTime),
            },
    {
        match &property.value {
            Some(v) => match decode_dt_part(property, v.as_str()) {
                Some(t) => Ok(t),
                None => Err(Error::TypeDecode(ICalTypes::DateTime)),
            },
            None => Err(Error::TypeDecode(ICalTypes::DateTime)),
        }
    }
}

// ---------------------------------------------------------------------------
// UTC offset
// ---------------------------------------------------------------------------
/// A parsed `UTC-OFFSET` value: signed seconds east of UTC.
#[derive(Clone, Copy, Debug, PartialEq, Eq, Structural)]
pub struct IcalUTCOffset {
    pub offset: i32,
}

/// Sign, two-digit hours, two-digit minutes, optional two-digit seconds.
pub open spec fn utcoffset_text_valid(s: Seq<char>) -> bool {
    &&& (s.len() == 5 || s.len() == 7)
    &&& (s[0] == '+' || s[0] == '-')
    &&& (forall|i: int| 1 <= i < s.len() ==> is_digit(#[trigger] s[i]))
}

/// The signed seconds denoted by a valid `UTC-OFFSET` text.
pub open spec fn utcoffset_seconds(s: Seq<char>) -> int {
    let mag = digits_val(s.subrange(1, 3)) * 3600 + digits_val(s.subrange(3, 5)) * 60 + if s.len()
        == 7 {
        digits_val(s.subrange(5, 7))
    } else {
        0
    };
    if s[0] == '-' {
        -mag
    } else {
        mag
    }
}

/// Decodes `±HHMM[SS]`.
pub fn parse_utc_offset(s: &str) -> (r: Option<i32>)
    ensures
        match r {
            Some(v) => utcoffset_text_valid(s@) && v == utcoffset_seconds(s@),
            None => !utcoffset_text_valid(s@),
        },
{
    let len = s.unicode_len();
    if len != 5 && len != 7 {
        return None;
    }
    let c0 = s.get_char(0);
    if c0 != '+' && c0 != '-' {
        return None;
    }
    let j = digit_run_end(s, 1, len);
    if j != len {
        return None;
    }
    proof {
        assert(all_digits(s@.subrange(1, 3)));
        assert(all_digits(s@.subrange(3, 5)));
        lemma_pow10_vals();
        lemma_digits_val_upper(s@.subrange(1, 3));
        lemma_digits_val_upper(s@.subrange(3, 5));
        lemma_digits_val_nonneg(s@.subrange(1, 3));
        lemma_digits_val_nonneg(s@.subrange(3, 5));
    }
    let h = match digits_to_u64(s, 1, 3) {
        Some(v) => v,
        None => {
            proof {
                assert(false);
            }
            return None;
        },
    };
    let m = match digits_to_u64(s, 3, 5) {
        Some(v) => v,
        None => {
            proof {
                assert(false);
            }
            return None;
        },
    };
    let sec: u64 = if len == 7 {
        proof {
            assert(all_digits(s@.subrange(5, 7)));
            lemma_digits_val_upper(s@.subrange(5, 7));
            lemma_digits_val_nonneg(s@.subrange(5, 7));
        }
        match digits_to_u64(s, 5, 7) {
            Some(v) => v,
            None => {
                proof {
                    assert(false);
                }
                return None;
            },
        }
    } else {
        0
    };
    let mag: u64 = h * 3600 + m * 60 + sec;
    if c0 == '-' {
        Some(-(mag as i32))
    } else {
        Some(mag as i32)
    }
}

impl IcalUTCOffset {
    pub fn try_from(property: &Property) -> (r: Result<IcalUTCOffset, Error>)
        ensures
            match r {
                Ok(o) => (match property.value {
                    Some(s) => utcoffset_text_valid(s@) && o.offset == utcoffset_seconds(s@),
                    None => false,
                }),
                Err(e) => e == Error::TypeDecode(ICalTypes::UTCOffset) && (match property.value {
                    Some(s) => !utcoffset_text_valid(s@),
                    None => true,
                }),
            },
    {
        match &property.value {
            Some(v) => match parse_utc_offset(v.as_str()) {
                Some(offset) => Ok(IcalUTCOffset { offset }),
                None => Err(Error::TypeDecode(ICalTypes::UTCOffset)),
            },
            None => Err(Error::TypeDecode(ICalTypes::UTCOffset)),
        }
    }
}

// ---------------------------------------------------------------------------
// Period
// ---------------------------------------------------------------------------
/// A parsed `PERIOD` value: an explicit start/end pair, or a start plus a
/// duration.
#[derive(Clone, Debug)]
pub enum IcalPeriod {
    StartEnd { start: IcalDateTime, end: IcalDateTime },
    StartDuration { start: IcalDateTime, duration: crate::duration::ICalDuration },
}

/// Index of the first `/` in `s`, or `s.len()` when there is none.
pub open spec fn slash_idx(s: Seq<char>) -> int
    decreases s.len(),
{
    if s.len() == 0 {
        0
    } else if s[0] == '/' {
        0
    } else {
        1 + slash_idx(s.drop_first())
    }
}

proof fn lemma_slash_idx_is(s: Seq<char>, k: int)
    requires
        0 <= k <= s.len(),
        forall|x: int| 0 <= x < k ==> (#[trigger] s[x]) != '/',
        k < s.len() ==> s[k] == '/',
    ensures
        slash_idx(s) == k,
    decreases s.len(),
{
    if k > 0 {
        lemma_slash_idx_is(s.drop_first(), k - 1);
    }
}

/// The text splits on exactly one `/`.
pub open spec fn single_slash(s: Seq<char>) -> bool {
    let k = slash_idx(s);
    k < s.len() && slash_idx(s.subrange(k + 1, s.len() as int)) == s.len() - k - 1
}

/// A `PERIOD` text decodes in the context of `p`'s parameters iff it splits on
/// a single `/`, the left side is a date-time, and the right side is a
/// date-time or a duration.
pub open spec fn period_text_ok(p: Property, s: Seq<char>) -> bool {
    let k = slash_idx(s);
    &&& single_slash(s)
    &&& dt_part_ok(p, s.subrange(0, k))
    &&& (dt_part_ok(p, s.subrange(k + 1, s.len() as int)) || crate::duration::dur_text_in_range(
        s.subrange(k + 1, s.len() as int),
    ))
}

pub open spec fn period_decode_ok(p: Property) -> bool {
    match p.value {
        Some(s) => period_text_ok(p, s@),
        None => false,
    }
}

/// Relates a decoded `IcalPeriod` to its source property: a right side that
/// parses as a date-time wins over the duration reading.
pub open spec fn period_decoded(p: Property, s: Seq<char>, r: IcalPeriod) -> bool {
    let k = slash_idx(s);
    let left = s.subrange(0, k);
    let right = s.subrange(k + 1, s.len() as int);
    match r {
        IcalPeriod::StartEnd { start, end } => dt_part_decoded(p, left, start) && dt_part_ok(
            p,
            right,
        ) && dt_part_decoded(p, right, end),
        IcalPeriod::StartDuration { start, duration } => dt_part_decoded(p, left, start)
            && !dt_part_ok(p, right) && crate::duration::dur_text_val(right) == Some(
            duration.seconds as int,
        ),
    }
}

/// Scans forward from `i` to the first `/` (or `limit`).
fn find_slash(s: &str, i: usize, limit: usize) -> (j: usize)
    requires
        i <= limit <= s@.len(),
    ensures
        i <= j <= limit,
        forall|k: int| i <= k < j ==> (#[trigger] s@[k]) != '/',
        j < limit ==> s@[j as int] == '/',
{
    let mut j = i;
    while j < limit
        invariant
            i <= j <= limit <= s@.len(),
            forall|k: int| i <= k < j ==> (#[trigger] s@[k]) != '/',
        decreases limit - j,
    {
        if s.get_char(j) == '/' {
            return j;
        }
        j = j + 1;
    }
    j
}

impl IcalPeriod {
    pub fn try_from(property: &Property) -> (r: Result<IcalPeriod, Error>)
        ensures
            match r {
                Ok(v) => period_decode_ok(*property) && (match property.value {
                    Some(s) => period_decoded(*property, s@, v),
                    None => false,
                }),
                Err(e) => !period_decode_ok(*property) && (match property.value {
                    Some(s) => {
                        let k = slash_idx(s@);
                        if !single_slash(s@) {
                            e == Error::TypeDecode(ICalTypes::Period)
                        } else if !dt_part_ok(*property, s@.subrange(0, k)) {
                            e == Error::TypeDecode(ICalTypes::DateTime)
                        } else {
                            e == Error::TypeDecode(ICalTypes::Duration)
                        }
                    },
                    None => e == Error::TypeDecode(ICalTypes::Period),
                }),
            },
    {
        let v = match &property.value {
            Some(v) => v,
            None => {
                return Err(Error::TypeDecode(ICalTypes::Period));
            },
        };
        let s = v.as_str();
        let len = s.unicode_len();
        let k = find_slash(s, 0, len);
        proof {
            lemma_slash_idx_is(s@, k as int);
        }
        if k >= len {
            proof {
                assert(!single_slash(s@));
            }
            return Err(Error::TypeDecode(ICalTypes::Period));
        }
        let k2 = find_slash(s, k + 1, len);
        proof {
            let t = s@.subrange(k as int + 1, len as int);
            assert forall|x: int| 0 <= x < k2 - k - 1 implies (#[trigger] t[x]) != '/' by {
                assert(t[x] == s@[k + 1 + x]);
            }
            if k2 < len {
                assert(t[k2 - k - 1] == s@[k2 as int]);
            }
            lemma_slash_idx_is(t, k2 as int - k - 1);
        }
        if k2 < len {
            proof {
                assert(!single_slash(s@));
            }
            return Err(Error::TypeDecode(ICalTypes::Period));
        }
        proof {
            assert(single_slash(s@));
        }
        let left = s.substring_char(0, k);
        let right = s.substring_char(k + 1, len);
        let start = match decode_dt_part(property, left) {
            Some(t) => t,
            None => {
                return Err(Error::TypeDecode(ICalTypes::DateTime));
            },
        };
        match decode_dt_part(property, right) {
            Some(end) => Ok(IcalPeriod::StartEnd { start, end }),
            None => match crate::duration::parse_duration(right) {
                Some(seconds) => Ok(
                    IcalPeriod::StartDuration {
                        start,
                        duration: crate::duration::ICalDuration { seconds },
                    },
                ),
                None => Err(Error::TypeDecode(ICalTypes::Duration)),
            },
        }
    }
}

// ---------------------------------------------------------------------------
// Scalars
// ---------------------------------------------------------------------------
/// A parsed `BOOLEAN` value: the literals `TRUE` or `FALSE`.
#[derive(Clone, Copy, Debug, PartialEq, Eq, Structural)]
pub struct ICalBoolean {
    pub value: bool,
}

pub open spec fn boolean_decode_ok(p: Property) -> bool {
    match p.value {
        Some(s) => s@ == "TRUE"@ || s@ == "FALSE"@,
        None => false,
    }
}

impl ICalBoolean {
    pub fn try_from(property: &Property) -> (r: Result<ICalBoolean, Error>)
        ensures
            match r {
                Ok(b) => boolean_decode_ok(*property) && (match property.value {
                    Some(s) => b.value == (s@ == "TRUE"@),
                    None => false,
                }),
                Err(e) => !boolean_decode_ok(*property) && e == Error::TypeDecode(
                    ICalTypes::Boolean,
                ),
            },
    {
        proof {
            reveal_strlit("TRUE");
            reveal_strlit("FALSE");
        }
        match &property.value {
            Some(v) => {
                if crate::scan::str_eq(v.as_str(), "TRUE") {
                    Ok(ICalBoolean { value: true })
                } else if crate::scan::str_eq(v.as_str(), "FALSE") {
                    Ok(ICalBoolean { value: false })
                } else {
                    Err(Error::TypeDecode(ICalTypes::Boolean))
                }
            },
            None => Err(Error::TypeDecode(ICalTypes::Boolean)),
        }
    }
}

/// A parsed `INTEGER` value.
#[derive(Clone, Copy, Debug, PartialEq, Eq, Structural)]
pub struct IcalInteger {
    pub value: i32,
}

/// An optional sign followed by at least one digit.
pub open spec fn int_text_valid(s: Seq<char>) -> bool {
    let i: int = if s.len() > 0 && (s[0] == '+' || s[0] == '-') {
        1
    } else {
        0
    };
    s.len() > i && (forall|j: int| i <= j < s.len() ==> is_digit(#[trigger] s[j]))
}

/// The signed value denoted by a valid integer text, unbounded.
pub open spec fn int_text_val(s: Seq<char>) -> int {
    let i: int = if s.len() > 0 && (s[0] == '+' || s[0] == '-') {
        1
    } else {
        0
    };
    let mag = digits_val(s.subrange(i, s.len() as int));
    if s.len() > 0 && s[0] == '-' {
        -mag
    } else {
        mag
    }
}

/// An `INTEGER` property decodes iff its text is a signed numeral whose value
/// fits in an `i32`.
pub open spec fn integer_decode_ok(p: Property) -> bool {
    match p.value {
        Some(s) => int_text_valid(s@) && -0x8000_0000 <= int_text_val(s@) < 0x8000_0000,
        None => false,
    }
}

impl IcalInteger {
    pub fn try_from(property: &Property) -> (r: Result<IcalInteger, Error>)
        ensures
            match r {
                Ok(n) => integer_decode_ok(*property) && (match property.value {
                    Some(s) => n.value == int_text_val(s@),
                    None => false,
                }),
                Err(e) => !integer_decode_ok(*property) && e == Error::TypeDecode(
                    ICalTypes::Integer,
                ),
            },
    {
        let v = match &property.value {
            Some(v) => v,
            None => {
                return Err(Error::TypeDecode(ICalTypes::Integer));
            },
        };
        let s = v.as_str();
        let len = s.unicode_len();
        if len == 0 {
            return Err(Error::TypeDecode(ICalTypes::Integer));
        }
        let c0 = s.get_char(0);
        let neg = c0 == '-';
        let i: usize = if c0 == '-' || c0 == '+' {
            1
        } else {
            0
        };
        if i >= len {
            return Err(Error::TypeDecode(ICalTypes::Integer));
        }
        let j = digit_run_end(s, i, len);
        if j != len {
            return Err(Error::TypeDecode(ICalTypes::Integer));
        }
        proof {
            assert(all_digits(s@.subrange(i as int, len as int)));
            lemma_digits_val_nonneg(s@.subrange(i as int, len as int));
        }
        let mag = match digits_to_u64(s, i, len) {
            Some(m) => m,
            None => {
                return Err(Error::TypeDecode(ICalTypes::Integer));
            },
        };
        if neg {
            if mag > 0x8000_0000 {
                return Err(Error::TypeDecode(ICalTypes::Integer));
            }
            Ok(IcalInteger { value: (-(mag as i64)) as i32 })
        } else {
            if mag >= 0x8000_0000 {
                return Err(Error::TypeDecode(ICalTypes::Integer));
            }
            Ok(IcalInteger { value: mag as i32 })
        }
    }
}

/// A parsed `TEXT` value: the raw text, passed through.
#[derive(Clone, Debug)]
pub struct IcalText {
    pub value: String,
}

impl IcalText {
    pub fn try_from(property: &Property) -> (r: Result<IcalText, Error>)
        ensures
            match r {
                Ok(t) => (match property.value {
                    Some(s) => t.value@ == s@,
                    None => false,
                }),
                Err(e) => property.value is None && e == Error::TypeDecode(ICalTypes::Text),
            },
    {
        match &property.value {
            Some(v) => Ok(IcalText { value: v.clone() }),
            None => Err(Error::TypeDecode(ICalTypes::Text)),
        }
    }
}

// ---------------------------------------------------------------------------
// Binary (base64) and URIs, through outside decoders
// ---------------------------------------------------------------------------
/// What base64's standard-alphabet decode returns on a text: `Some` with the
/// decoded bytes exactly on well-formed input. A pure function of the text.
pub uninterp spec fn b64_standard_decoding(s: Seq<char>) -> Option<Seq<u8>>;

/// Relies on base64's `STANDARD` engine `decode`: deterministic, and `Ok`
/// exactly on well-formed standard-alphabet input.
#[verifier::external_body]
fn b64_decode(s: &str) -> (r: Option<Vec<u8>>)
    ensures
        r is Some <==> b64_standard_decoding(s@) is Some,
        r matches Some(v) ==> b64_standard_decoding(s@) == Some(v@),
{
    match base64::Engine::decode(&base64::engine::general_purpose::STANDARD, s.as_bytes()) {
        Ok(v) => Some(v),
        Err(_) => None,
    }
}

/// A parsed `BINARY` value: the decoded bytes.
#[derive(Clone, Debug)]
pub struct ICalBinary {
    pub data: Vec<u8>,
}

/// A `BINARY` property decodes iff base64 accepts its text.
pub open spec fn binary_decode_ok(p: Property) -> bool {
    match p.value {
        Some(s) => b64_standard_decoding(s@) is Some,
        None => false,
    }
}

impl ICalBinary {
    pub fn try_from(property: &Property) -> (r: Result<ICalBinary, Error>)
        ensures
            match r {
                Ok(b) => binary_decode_ok(*property) && (match property.value {
                    Some(s) => b64_standard_decoding(s@) == Some(b.data@),
                    None => false,
                }),
                Err(e) => !binary_decode_ok(*property) && e == Error::TypeDecode(ICalTypes::Binary),
            },
    {
        match &property.value {
            Some(v) => match b64_decode(v.as_str()) {
                Some(data) => Ok(ICalBinary { data }),
                None => Err(Error::TypeDecode(ICalTypes::Binary)),
            },
            None => Err(Error::TypeDecode(ICalTypes::Binary)),
        }
    }
}

#[verifier::external_type_specification]
#[verifier::external_body]
pub struct ExUri(http::Uri);

/// Whether http's URI parser accepts a text: a pure function of the text.
pub uninterp spec fn uri_accepts(s: Seq<char>) -> bool;

/// Relies on `http::Uri`'s `FromStr`: deterministic generic URI-syntax
/// validation, `Ok` exactly on accepted input.
#[verifier::external_body]
fn parse_uri(s: &str) -> (r: Option<http::Uri>)
    ensures
        r is Some <==> uri_accepts(s@),
{
    match <http::Uri as core::str::FromStr>::from_str(s) {
        Ok(u) => Some(u),
        Err(_) => None,
    }
}

/// A parsed `CAL-ADDRESS` value: a URI.
pub struct ICalCalAddress {
    pub address: http::Uri,
}

pub open spec fn uri_decode_ok(p: Property) -> bool {
    match p.value {
        Some(s) => uri_accepts(s@),
        None => false,
    }
}

impl ICalCalAddress {
    pub fn try_from(property: &Property) -> (r: Result<ICalCalAddress, Error>)
        ensures
            r is Ok <==> uri_decode_ok(*property),
            r matches Err(e) ==> e == Error::TypeDecode(ICalTypes::CalAddress),
    {
        match &property.value {
            Some(v) => match parse_uri(v.as_str()) {
                Some(address) => Ok(ICalCalAddress { address }),
                None => Err(Error::TypeDecode(ICalTypes::CalAddress)),
            },
            None => Err(Error::TypeDecode(ICalTypes::CalAddress)),
        }
    }
}

/// A parsed `URI` value.
pub struct IcalURI {
    pub value: http::Uri,
}

impl IcalURI {
    pub fn try_from(property: &Property) -> (r: Result<IcalURI, Error>)
        ensures
            r is Ok <==> uri_decode_ok(*property),
            r matches Err(e) ==> e == Error::TypeDecode(ICalTypes::URI),
    {
        match &property.value {
            Some(v) => match parse_uri(v.as_str()) {
                Some(value) => Ok(IcalURI { value }),
                None => Err(Error::TypeDecode(ICalTypes::URI)),
            },
            None => Err(Error::TypeDecode(ICalTypes::URI)),
        }
    }
}

} // verus!
