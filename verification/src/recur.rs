//! The recurrence-rule grammar: `FREQ=<unit>` followed by `;KEY=value`
//! fragments, folded left-to-right into one descriptor. Two fragments that
//! set the same field conflict: duplicate keys are a decode failure, not
//! last-wins; `UNTIL` and `COUNT` share one field and so exclude each other.
use vstd::prelude::*;

use crate::scan::{all_digits, char_idx, digit_run, digits_val, digit_run_end, digits_to_u64,
    find_char, is_digit, lemma_char_idx_is, lemma_digits_val_nonneg, str_eq};
use crate::temporal::{Date, DateTime};
use crate::types::{date_text_valid, date_of_text, datetime_text_valid, datetime_is_utc,
    datetime_of_text, parse_date, parse_datetime, lemma_pow10_vals, lemma_digits_val_upper};
use crate::property::Property;
use crate::{Error, ICalTypes};

verus! {

#[derive(Clone, Copy, Debug, PartialEq, Eq, Structural)]
pub enum ICalRecurFrequency {
    Secondly,
    Minutely,
    Hourly,
    Daily,
    Weekly,
    Monthly,
    Yearly,
}

#[derive(Clone, Copy, Debug, PartialEq, Eq, Structural)]
pub enum ICalRecurDayOfWeek {
    Sunday,
    Monday,
    Tuesday,
    Wednesday,
    Thursday,
    Friday,
    Saturday,
}

/// A weekday with an optional signed ordinal-in-period (`-1SU`, `2MO`, `TU`).
#[derive(Clone, Copy, Debug, PartialEq, Eq, Structural)]
pub struct IcalRecurWeekDay {
    pub day: ICalRecurDayOfWeek,
    pub nth_of_month: Option<i8>,
}

/// The absolute cutoff of a recurrence: a date, or a UTC date-time.
#[derive(Clone, Copy, Debug, PartialEq, Eq, Structural)]
pub enum IcalRecurUntil {
    Date(Date),
    DateTime(DateTime),
}

/// A recurrence limit: a repetition count, or an absolute cutoff. The two are
/// mutually exclusive by construction.
#[derive(Clone, Copy, Debug, PartialEq, Eq, Structural)]
pub enum IcalRecurLimit {
    Count(u64),
    Until(IcalRecurUntil),
}

/// The parsed, merged representation of a recurrence rule.
#[derive(Clone, Debug)]
pub struct IcalRecur {
    pub frequency: ICalRecurFrequency,
    pub limit: Option<IcalRecurLimit>,
    pub interval: Option<u64>,
    pub by_second: Option<Vec<u8>>,
    pub by_minute: Option<Vec<u8>>,
    pub by_hour: Option<Vec<u8>>,
    pub by_day: Option<Vec<IcalRecurWeekDay>>,
    pub by_month_day: Option<Vec<i8>>,
    pub by_year_day: Option<Vec<i16>>,
    pub by_week_no: Option<Vec<i8>>,
    pub by_month: Option<Vec<u8>>,
    pub by_set_pos: Option<Vec<i16>>,
    pub wkst: Option<ICalRecurDayOfWeek>,
}

/// The mathematical model of a descriptor's optional fields (frequency
/// excluded), with sequences in place of vectors.
#[verifier::ext_equal]
pub struct RecurFields {
    pub limit: Option<IcalRecurLimit>,
    pub interval: Option<u64>,
    pub by_second: Option<Seq<u8>>,
    pub by_minute: Option<Seq<u8>>,
    pub by_hour: Option<Seq<u8>>,
    pub by_day: Option<Seq<IcalRecurWeekDay>>,
    pub by_month_day: Option<Seq<i8>>,
    pub by_year_day: Option<Seq<i16>>,
    pub by_week_no: Option<Seq<i8>>,
    pub by_month: Option<Seq<u8>>,
    pub by_set_pos: Option<Seq<i16>>,
    pub wkst: Option<ICalRecurDayOfWeek>,
}

pub open spec fn opt_view<T: View>(o: Option<T>) -> Option<T::V> {
    match o {
        Some(v) => Some(v@),
        None => None,
    }
}

/// The optional fields a descriptor holds.
pub open spec fn fields_of(r: IcalRecur) -> RecurFields {
    RecurFields {
        limit: r.limit,
        interval: r.interval,
        by_second: opt_view(r.by_second),
        by_minute: opt_view(r.by_minute),
        by_hour: opt_view(r.by_hour),
        by_day: opt_view(r.by_day),
        by_month_day: opt_view(r.by_month_day),
        by_year_day: opt_view(r.by_year_day),
        by_week_no: opt_view(r.by_week_no),
        by_month: opt_view(r.by_month),
        by_set_pos: opt_view(r.by_set_pos),
        wkst: r.wkst,
    }
}

pub open spec fn empty_fields() -> RecurFields {
    RecurFields {
        limit: None,
        interval: None,
        by_second: None,
        by_minute: None,
        by_hour: None,
        by_day: None,
        by_month_day: None,
        by_year_day: None,
        by_week_no: None,
        by_month: None,
        by_set_pos: None,
        wkst: None,
    }
}

/// Two fragment results conflict when any field is set on both sides.
pub open spec fn fields_conflict(a: RecurFields, b: RecurFields) -> bool {
    ||| (a.limit is Some && b.limit is Some)
    ||| (a.interval is Some && b.interval is Some)
    ||| (a.by_second is Some && b.by_second is Some)
    ||| (a.by_minute is Some && b.by_minute is Some)
    ||| (a.by_hour is Some && b.by_hour is Some)
    ||| (a.by_day is Some && b.by_day is Some)
    ||| (a.by_month_day is Some && b.by_month_day is Some)
    ||| (a.by_year_day is Some && b.by_year_day is Some)
    ||| (a.by_week_no is Some && b.by_week_no is Some)
    ||| (a.by_month is Some && b.by_month is Some)
    ||| (a.by_set_pos is Some && b.by_set_pos is Some)
    ||| (a.wkst is Some && b.wkst is Some)
}

pub open spec fn opt_or<T>(a: Option<T>, b: Option<T>) -> Option<T> {
    match a {
        Some(v) => Some(v),
        None => b,
    }
}

/// Field-wise combination of two non-conflicting fragment results.
pub open spec fn fields_merge(a: RecurFields, b: RecurFields) -> RecurFields {
    RecurFields {
        limit: opt_or(a.limit, b.limit),
        interval: opt_or(a.interval, b.interval),
        by_second: opt_or(a.by_second, b.by_second),
        by_minute: opt_or(a.by_minute, b.by_minute),
        by_hour: opt_or(a.by_hour, b.by_hour),
        by_day: opt_or(a.by_day, b.by_day),
        by_month_day: opt_or(a.by_month_day, b.by_month_day),
        by_year_day: opt_or(a.by_year_day, b.by_year_day),
        by_week_no: opt_or(a.by_week_no, b.by_week_no),
        by_month: opt_or(a.by_month, b.by_month),
        by_set_pos: opt_or(a.by_set_pos, b.by_set_pos),
        wkst: opt_or(a.wkst, b.wkst),
    }
}

// --- token denotations -------------------------------------------------------
pub open spec fn starts_with(s: Seq<char>, p: Seq<char>) -> bool {
    s.len() >= p.len() && s.subrange(0, p.len() as int) == p
}

pub open spec fn freq_of(t: Seq<char>) -> Option<ICalRecurFrequency> {
    if t == seq!['S', 'E', 'C', 'O', 'N', 'D', 'L', 'Y'] {
        Some(ICalRecurFrequency::Secondly)
    } else if t == seq!['M', 'I', 'N', 'U', 'T', 'E', 'L', 'Y'] {
        Some(ICalRecurFrequency::Minutely)
    } else if t == seq!['H', 'O', 'U', 'R', 'L', 'Y'] {
        Some(ICalRecurFrequency::Hourly)
    } else if t == seq!['D', 'A', 'I', 'L', 'Y'] {
        Some(ICalRecurFrequency::Daily)
    } else if t == seq!['W', 'E', 'E', 'K', 'L', 'Y'] {
        Some(ICalRecurFrequency::Weekly)
    } else if t == seq!['M', 'O', 'N', 'T', 'H', 'L', 'Y'] {
        Some(ICalRecurFrequency::Monthly)
    } else if t == seq!['Y', 'E', 'A', 'R', 'L', 'Y'] {
        Some(ICalRecurFrequency::Yearly)
    } else {
        None
    }
}

pub open spec fn weekday_of(t: Seq<char>) -> Option<ICalRecurDayOfWeek> {
    if t == seq!['S', 'U'] {
        Some(ICalRecurDayOfWeek::Sunday)
    } else if t == seq!['M', 'O'] {
        Some(ICalRecurDayOfWeek::Monday)
    } else if t == seq!['T', 'U'] {
        Some(ICalRecurDayOfWeek::Tuesday)
    } else if t == seq!['W', 'E'] {
        Some(ICalRecurDayOfWeek::Wednesday)
    } else if t == seq!['T', 'H'] {
        Some(ICalRecurDayOfWeek::Thursday)
    } else if t == seq!['F', 'R'] {
        Some(ICalRecurDayOfWeek::Friday)
    } else if t == seq!['S', 'A'] {
        Some(ICalRecurDayOfWeek::Saturday)
    } else {
        None
    }
}

// --- list denotations --------------------------------------------------------
/// Comma-separated one-or-two-digit unsigned items.
pub open spec fn sp_u8_list(s: Seq<char>) -> Option<Seq<u8>>
    decreases s.len(),
{
    let k = char_idx(s, ',');
    if k < 0 || k > s.len() {
        None
    } else {
        let item = s.subrange(0, k);
        if !(1 <= item.len() <= 2 && all_digits(item)) {
            None
        } else if k == s.len() {
            Some(seq![digits_val(item) as u8])
        } else {
            match sp_u8_list(s.subrange(k + 1, s.len() as int)) {
                Some(rest) => Some(seq![digits_val(item) as u8] + rest),
                None => None,
            }
        }
    }
}

/// An optionally signed numeral of at most `maxd` digits.
pub open spec fn signed_item_ok(t: Seq<char>, maxd: int) -> bool {
    let i: int = if t.len() > 0 && (t[0] == '+' || t[0] == '-') {
        1
    } else {
        0
    };
    1 <= t.len() - i <= maxd && (forall|j: int| i <= j < t.len() ==> is_digit(#[trigger] t[j]))
}

pub open spec fn signed_item_val(t: Seq<char>) -> int {
    let i: int = if t.len() > 0 && (t[0] == '+' || t[0] == '-') {
        1
    } else {
        0
    };
    let mag = digits_val(t.subrange(i, t.len() as int));
    if t.len() > 0 && t[0] == '-' {
        -mag
    } else {
        mag
    }
}

/// Comma-separated signed items of at most two digits.
pub open spec fn sp_i8_list(s: Seq<char>) -> Option<Seq<i8>>
    decreases s.len(),
{
    let k = char_idx(s, ',');
    if k < 0 || k > s.len() {
        None
    } else {
        let item = s.subrange(0, k);
        if !signed_item_ok(item, 2) {
            None
        } else if k == s.len() {
            Some(seq![signed_item_val(item) as i8])
        } else {
            match sp_i8_list(s.subrange(k + 1, s.len() as int)) {
                Some(rest) => Some(seq![signed_item_val(item) as i8] + rest),
                None => None,
            }
        }
    }
}

/// Comma-separated signed items of at most three digits.
pub open spec fn sp_i16_list(s: Seq<char>) -> Option<Seq<i16>>
    decreases s.len(),
{
    let k = char_idx(s, ',');
    if k < 0 || k > s.len() {
        None
    } else {
        let item = s.subrange(0, k);
        if !signed_item_ok(item, 3) {
            None
        } else if k == s.len() {
            Some(seq![signed_item_val(item) as i16])
        } else {
            match sp_i16_list(s.subrange(k + 1, s.len() as int)) {
                Some(rest) => Some(seq![signed_item_val(item) as i16] + rest),
                None => None,
            }
        }
    }
}

/// A weekday with an optional signed ordinal of at most two digits.
pub open spec fn byday_item(t: Seq<char>) -> Option<IcalRecurWeekDay> {
    let sgn = t.len() > 0 && (t[0] == '+' || t[0] == '-');
    let i: int = if sgn {
        1
    } else {
        0
    };
    let k = digit_run(t.subrange(i, t.len() as int));
    if (sgn && k == 0) || k > 2 {
        None
    } else {
        match weekday_of(t.subrange(i + k, t.len() as int)) {
            Some(d) => Some(
                IcalRecurWeekDay {
                    day: d,
                    nth_of_month: if k == 0 {
                        None
                    } else {
                        Some(
                            (if t[0] == '-' {
                                -digits_val(t.subrange(i, i + k))
                            } else {
                                digits_val(t.subrange(i, i + k))
                            }) as i8,
                        )
                    },
                },
            ),
            None => None,
        }
    }
}

/// Comma-separated weekday items.
pub open spec fn sp_byday_list(s: Seq<char>) -> Option<Seq<IcalRecurWeekDay>>
    decreases s.len(),
{
    let k = char_idx(s, ',');
    if k < 0 || k > s.len() {
        None
    } else {
        let item = s.subrange(0, k);
        match byday_item(item) {
            Some(w) => {
                if k == s.len() {
                    Some(seq![w])
                } else {
                    match sp_byday_list(s.subrange(k + 1, s.len() as int)) {
                        Some(rest) => Some(seq![w] + rest),
                        None => None,
                    }
                }
            },
            None => None,
        }
    }
}

// --- fragment denotation -----------------------------------------------------
pub open spec fn fields_with_limit(l: IcalRecurLimit) -> RecurFields {
    RecurFields { limit: Some(l), ..empty_fields() }
}

/// The `UNTIL` cutoff: a date, or a date-time that must be UTC.
pub open spec fn until_of(v: Seq<char>) -> Option<IcalRecurUntil> {
    if date_text_valid(v) {
        Some(IcalRecurUntil::Date(date_of_text(v)))
    } else if datetime_text_valid(v) && datetime_is_utc(v) {
        Some(IcalRecurUntil::DateTime(datetime_of_text(v)))
    } else {
        None
    }
}

/// An unsigned numeral that fits in a `u64`.
pub open spec fn u64_numeral_ok(v: Seq<char>) -> bool {
    v.len() >= 1 && all_digits(v) && digits_val(v) <= u64::MAX
}

/// What a single `;KEY=value` fragment (without the leading `;`) contributes.
pub open spec fn sp_fragment(t: Seq<char>) -> Option<RecurFields> {
    if starts_with(t, seq!['U', 'N', 'T', 'I', 'L', '=']) {
        let v = t.subrange(6, t.len() as int);
        match until_of(v) {
            Some(u) => Some(fields_with_limit(IcalRecurLimit::Until(u))),
            None => None,
        }
    } else if starts_with(t, seq!['C', 'O', 'U', 'N', 'T', '=']) {
        let v = t.subrange(6, t.len() as int);
        if u64_numeral_ok(v) {
            Some(fields_with_limit(IcalRecurLimit::Count(digits_val(v) as u64)))
        } else {
            None
        }
    } else if starts_with(t, seq!['I', 'N', 'T', 'E', 'R', 'V', 'A', 'L', '=']) {
        let v = t.subrange(9, t.len() as int);
        if u64_numeral_ok(v) && digits_val(v) >= 1 {
            Some(RecurFields { interval: Some(digits_val(v) as u64), ..empty_fields() })
        } else {
            None
        }
    } else if starts_with(t, seq!['B', 'Y', 'S', 'E', 'C', 'O', 'N', 'D', '=']) {
        match sp_u8_list(t.subrange(9, t.len() as int)) {
            Some(l) => Some(RecurFields { by_second: Some(l), ..empty_fields() }),
            None => None,
        }
    } else if starts_with(t, seq!['B', 'Y', 'M', 'I', 'N', 'U', 'T', 'E', '=']) {
        match sp_u8_list(t.subrange(9, t.len() as int)) {
            Some(l) => Some(RecurFields { by_minute: Some(l), ..empty_fields() }),
            None => None,
        }
    } else if starts_with(t, seq!['B', 'Y', 'H', 'O', 'U', 'R', '=']) {
        match sp_u8_list(t.subrange(7, t.len() as int)) {
            Some(l) => Some(RecurFields { by_hour: Some(l), ..empty_fields() }),
            None => None,
        }
    } else if starts_with(t, seq!['B', 'Y', 'D', 'A', 'Y', '=']) {
        match sp_byday_list(t.subrange(6, t.len() as int)) {
            Some(l) => Some(RecurFields { by_day: Some(l), ..empty_fields() }),
            None => None,
        }
    } else if starts_with(t, seq!['B', 'Y', 'M', 'O', 'N', 'T', 'H', 'D', 'A', 'Y', '=']) {
        match sp_i8_list(t.subrange(11, t.len() as int)) {
            Some(l) => Some(RecurFields { by_month_day: Some(l), ..empty_fields() }),
            None => None,
        }
    } else if starts_with(t, seq!['B', 'Y', 'Y', 'E', 'A', 'R', 'D', 'A', 'Y', '=']) {
        match sp_i16_list(t.subrange(10, t.len() as int)) {
            Some(l) => Some(RecurFields { by_year_day: Some(l), ..empty_fields() }),
            None => None,
        }
    } else if starts_with(t, seq!['B', 'Y', 'W', 'E', 'E', 'K', 'N', 'O', '=']) {
        match sp_i8_list(t.subrange(9, t.len() as int)) {
            Some(l) => Some(RecurFields { by_week_no: Some(l), ..empty_fields() }),
            None => None,
        }
    } else if starts_with(t, seq!['B', 'Y', 'M', 'O', 'N', 'T', 'H', '=']) {
        match sp_u8_list(t.subrange(8, t.len() as int)) {
            Some(l) => Some(RecurFields { by_month: Some(l), ..empty_fields() }),
            None => None,
        }
    } else if starts_with(t, seq!['B', 'Y', 'S', 'E', 'T', 'P', 'O', 'S', '=']) {
        match sp_i16_list(t.subrange(9, t.len() as int)) {
            Some(l) => Some(RecurFields { by_set_pos: Some(l), ..empty_fields() }),
            None => None,
        }
    } else if starts_with(t, seq!['W', 'K', 'S', 'T', '=']) {
        match weekday_of(t.subrange(5, t.len() as int)) {
            Some(d) => Some(RecurFields { wkst: Some(d), ..empty_fields() }),
            None => None,
        }
    } else {
        None
    }
}

/// Folds the `;`-prefixed fragments of `s` into `acc`, left to right,
/// conflicting on any field set twice.
pub open spec fn sp_fold(s: Seq<char>, acc: RecurFields) -> Option<RecurFields>
    decreases s.len(),
{
    if s.len() == 0 {
        Some(acc)
    } else if s[0] != ';' {
        None
    } else {
        let rest = s.subrange(1, s.len() as int);
        let k = char_idx(rest, ';');
        if k < 0 || k > rest.len() {
            None
        } else {
            match sp_fragment(rest.subrange(0, k)) {
                Some(b) => {
                    if fields_conflict(acc, b) {
                        None
                    } else {
                        sp_fold(rest.subrange(k, rest.len() as int), fields_merge(acc, b))
                    }
                },
                None => None,
            }
        }
    }
}

/// The descriptor denoted by a whole recurrence-rule text: a mandatory
/// leading `FREQ=` and the folded fragments.
pub open spec fn sp_recur_fields(s: Seq<char>) -> Option<(ICalRecurFrequency, RecurFields)> {
    let k = char_idx(s, ';');
    if k < 0 || k > s.len() {
        None
    } else {
        let head = s.subrange(0, k);
        if starts_with(head, seq!['F', 'R', 'E', 'Q', '=']) {
            match freq_of(head.subrange(5, head.len() as int)) {
                Some(f) => match sp_fold(s.subrange(k, s.len() as int), empty_fields()) {
                    Some(b) => Some((f, b)),
                    None => None,
                },
                None => None,
            }
        } else {
            None
        }
    }
}

pub open spec fn recur_decode_ok(p: Property) -> bool {
    match p.value {
        Some(s) => sp_recur_fields(s@) is Some,
        None => false,
    }
}

// --- exec parsers ------------------------------------------------------------
/// Decodes the two-letter weekday token `s[i..j]`.
fn parse_weekday(s: &str, i: usize, j: usize) -> (r: Option<ICalRecurDayOfWeek>)
    requires
        i <= j <= s@.len(),
    ensures
        r == weekday_of(s@.subrange(i as int, j as int)),
{
    proof {
        reveal_strlit("SU");
        reveal_strlit("MO");
        reveal_strlit("TU");
        reveal_strlit("WE");
        reveal_strlit("TH");
        reveal_strlit("FR");
        reveal_strlit("SA");
        assert("SU"@ =~= seq!['S', 'U']);
        assert("MO"@ =~= seq!['M', 'O']);
        assert("TU"@ =~= seq!['T', 'U']);
        assert("WE"@ =~= seq!['W', 'E']);
        assert("TH"@ =~= seq!['T', 'H']);
        assert("FR"@ =~= seq!['F', 'R']);
        assert("SA"@ =~= seq!['S', 'A']);
    }
    let t = s.substring_char(i, j);
    if str_eq(t, "SU") {
        Some(ICalRecurDayOfWeek::Sunday)
    } else if str_eq(t, "MO") {
        Some(ICalRecurDayOfWeek::Monday)
    } else if str_eq(t, "TU") {
        Some(ICalRecurDayOfWeek::Tuesday)
    } else if str_eq(t, "WE") {
        Some(ICalRecurDayOfWeek::Wednesday)
    } else if str_eq(t, "TH") {
        Some(ICalRecurDayOfWeek::Thursday)
    } else if str_eq(t, "FR") {
        Some(ICalRecurDayOfWeek::Friday)
    } else if str_eq(t, "SA") {
        Some(ICalRecurDayOfWeek::Saturday)
    } else {
        None
    }
}

/// Prepends a decoded prefix onto a list parse's outcome.
pub open spec fn prepend_u8(a: Seq<u8>, o: Option<Seq<u8>>) -> Option<Seq<u8>> {
    match o {
        Some(r) => Some(a + r),
        None => None,
    }
}

/// Decodes a comma-separated unsigned list from `s[i..j]`.
fn parse_u8_list(s: &str, i: usize, j: usize) -> (r: Option<Vec<u8>>)
    requires
        i <= j <= s@.len(),
    ensures
        match r {
            Some(v) => sp_u8_list(s@.subrange(i as int, j as int)) == Some(v@),
            None => sp_u8_list(s@.subrange(i as int, j as int)) is None,
        },
{
    let ghost full = s@.subrange(i as int, j as int);
    let mut p = i;
    let mut out: Vec<u8> = Vec::new();
    proof {
        match sp_u8_list(full) {
            Some(r) => {
                assert(out@ + r =~= r);
            },
            None => {},
        }
    }
    loop
        invariant
            i <= p <= j <= s@.len(),
            full == s@.subrange(i as int, j as int),
            sp_u8_list(full) == prepend_u8(out@, sp_u8_list(s@.subrange(p as int, j as int))),
        decreases j - p,
    {
        let ghost t = s@.subrange(p as int, j as int);
        let k = find_char(s, p, j, ',');
        proof {
            assert forall|x: int| 0 <= x < k - p implies (#[trigger] t[x]) != ',' by {
                assert(t[x] == s@[p + x]);
            }
            if k < j {
                assert(t[k - p] == s@[k as int]);
            }
            lemma_char_idx_is(t, ',', k as int - p);
            assert(t.subrange(0, k - p) =~= s@.subrange(p as int, k as int));
        }
        if k == p || k - p > 2 {
            return None;
        }
        let de = digit_run_end(s, p, k);
        if de != k {
            proof {
                assert(!is_digit(t.subrange(0, k - p)[de - p]));
            }
            return None;
        }
        proof {
            assert(all_digits(s@.subrange(p as int, k as int)));
            lemma_pow10_vals();
            lemma_digits_val_upper(s@.subrange(p as int, k as int));
            lemma_digits_val_nonneg(s@.subrange(p as int, k as int));
        }
        let v = match digits_to_u64(s, p, k) {
            Some(v) => v,
            None => {
                proof {
                    assert(false);
                }
                return None;
            },
        };
        out.push(v as u8);
        if k == j {
            proof {
                assert(sp_u8_list(t) == Some(seq![digits_val(t.subrange(0, k - p)) as u8]));
                assert(out@ =~= out@.drop_last() + seq![digits_val(t.subrange(0, k - p)) as u8]);
                assert(sp_u8_list(full) == Some(out@));
            }
            return Some(out);
        }
        proof {
            let item = t.subrange(0, k - p);
            let rest = t.subrange(k - p + 1, t.len() as int);
            assert(rest =~= s@.subrange(k as int + 1, j as int));
            assert(sp_u8_list(t) == (match sp_u8_list(rest) {
                Some(r) => Some(seq![digits_val(item) as u8] + r),
                None => None,
            }));
            assert(prepend_u8(out@.drop_last(), sp_u8_list(t)) == prepend_u8(
                out@,
                sp_u8_list(rest),
            )) by {
                match sp_u8_list(rest) {
                    Some(r) => {
                        assert(out@.drop_last() + (seq![digits_val(item) as u8] + r) =~= out@ + r);
                    },
                    None => {},
                }
            }
        }
        p = k + 1;
    }
}

/// Decodes an optionally signed item `s[q..k]` of at most `maxd` digits.
/// Returns the signed value, within `±10^maxd`.
fn parse_signed_item(s: &str, q: usize, k: usize, maxd: usize) -> (r: Option<i64>)
    requires
        q <= k <= s@.len(),
        1 <= maxd <= 3,
    ensures
        match r {
            Some(v) => signed_item_ok(s@.subrange(q as int, k as int), maxd as int) && v
                == signed_item_val(s@.subrange(q as int, k as int)) && -crate::types::pow10(
                maxd as nat,
            ) < v < crate::types::pow10(maxd as nat),
            None => !signed_item_ok(s@.subrange(q as int, k as int), maxd as int),
        },
{
    let ghost t = s@.subrange(q as int, k as int);
    if q >= k {
        return None;
    }
    proof {
        assert(t[0] == s@[q as int]);
    }
    let c0 = s.get_char(q);
    let neg = c0 == '-';
    let b: usize = if c0 == '-' || c0 == '+' {
        1
    } else {
        0
    };
    if k - q - b < 1 || k - q - b > maxd {
        return None;
    }
    let de = digit_run_end(s, q + b, k);
    if de != k {
        proof {
            assert(!is_digit(t[de - q]));
        }
        return None;
    }
    proof {
        assert(t.subrange(b as int, t.len() as int) =~= s@.subrange(q as int + b, k as int));
        assert(all_digits(s@.subrange(q as int + b, k as int)));
        lemma_pow10_vals();
        lemma_digits_val_upper(s@.subrange(q as int + b, k as int));
        lemma_digits_val_nonneg(s@.subrange(q as int + b, k as int));
        crate::types::lemma_pow10_mono((k - q - b) as nat, maxd as nat);
    }
    let mag = match digits_to_u64(s, q + b, k) {
        Some(v) => v,
        None => {
            proof {
                assert(false);
            }
            return None;
        },
    };
    if neg {
        Some(-(mag as i64))
    } else {
        Some(mag as i64)
    }
}

pub open spec fn prepend_i8(a: Seq<i8>, o: Option<Seq<i8>>) -> Option<Seq<i8>> {
    match o {
        Some(r) => Some(a + r),
        None => None,
    }
}

/// Decodes a comma-separated signed two-digit list from `s[i..j]`.
fn parse_i8_list(s: &str, i: usize, j: usize) -> (r: Option<Vec<i8>>)
    requires
        i <= j <= s@.len(),
    ensures
        match r {
            Some(v) => sp_i8_list(s@.subrange(i as int, j as int)) == Some(v@),
            None => sp_i8_list(s@.subrange(i as int, j as int)) is None,
        },
{
    let ghost full = s@.subrange(i as int, j as int);
    let mut p = i;
    let mut out: Vec<i8> = Vec::new();
    proof {
        match sp_i8_list(full) {
            Some(r) => {
                assert(out@ + r =~= r);
            },
            None => {},
        }
    }
    loop
        invariant
            i <= p <= j <= s@.len(),
            full == s@.subrange(i as int, j as int),
            sp_i8_list(full) == prepend_i8(out@, sp_i8_list(s@.subrange(p as int, j as int))),
        decreases j - p,
    {
        let ghost t = s@.subrange(p as int, j as int);
        let k = find_char(s, p, j, ',');
        proof {
            assert forall|x: int| 0 <= x < k - p implies (#[trigger] t[x]) != ',' by {
                assert(t[x] == s@[p + x]);
            }
            if k < j {
                assert(t[k - p] == s@[k as int]);
            }
            lemma_char_idx_is(t, ',', k as int - p);
            assert(t.subrange(0, k - p) =~= s@.subrange(p as int, k as int));
        }
        let v = match parse_signed_item(s, p, k, 2) {
            Some(v) => v,
            None => {
                return None;
            },
        };
        out.push(v as i8);
        let ghost item = t.subrange(0, k - p);
        proof {
            assert(signed_item_val(item) as i8 == v as i8);
        }
        if k == j {
            proof {
                assert(sp_i8_list(t) == Some(seq![signed_item_val(item) as i8]));
                assert(out@ =~= out@.drop_last() + seq![signed_item_val(item) as i8]);
                assert(sp_i8_list(full) == Some(out@));
            }
            return Some(out);
        }
        proof {
            let rest = t.subrange(k - p + 1, t.len() as int);
            assert(rest =~= s@.subrange(k as int + 1, j as int));
            assert(sp_i8_list(t) == (match sp_i8_list(rest) {
                Some(r) => Some(seq![signed_item_val(item) as i8] + r),
                None => None,
            }));
            assert(prepend_i8(out@.drop_last(), sp_i8_list(t)) == prepend_i8(
                out@,
                sp_i8_list(rest),
            )) by {
                match sp_i8_list(rest) {
                    Some(r) => {
                        assert(out@.drop_last() + (seq![signed_item_val(item) as i8] + r) =~= out@
                            + r);
                    },
                    None => {},
                }
            }
        }
        p = k + 1;
    }
}

pub open spec fn prepend_i16(a: Seq<i16>, o: Option<Seq<i16>>) -> Option<Seq<i16>> {
    match o {
        Some(r) => Some(a + r),
        None => None,
    }
}

/// Decodes a comma-separated signed three-digit list from `s[i..j]`.
fn parse_i16_list(s: &str, i: usize, j: usize) -> (r: Option<Vec<i16>>)
    requires
        i <= j <= s@.len(),
    ensures
        match r {
            Some(v) => sp_i16_list(s@.subrange(i as int, j as int)) == Some(v@),
            None => sp_i16_list(s@.subrange(i as int, j as int)) is None,
        },
{
    let ghost full = s@.subrange(i as int, j as int);
    let mut p = i;
    let mut out: Vec<i16> = Vec::new();
    proof {
        match sp_i16_list(full) {
            Some(r) => {
                assert(out@ + r =~= r);
            },
            None => {},
        }
    }
    loop
        invariant
            i <= p <= j <= s@.len(),
            full == s@.subrange(i as int, j as int),
            sp_i16_list(full) == prepend_i16(out@, sp_i16_list(s@.subrange(p as int, j as int))),
        decreases j - p,
    {
        let ghost t = s@.subrange(p as int, j as int);
        let k = find_char(s, p, j, ',');
        proof {
            assert forall|x: int| 0 <= x < k - p implies (#[trigger] t[x]) != ',' by {
                assert(t[x] == s@[p + x]);
            }
            if k < j {
                assert(t[k - p] == s@[k as int]);
            }
            lemma_char_idx_is(t, ',', k as int - p);
            assert(t.subrange(0, k - p) =~= s@.subrange(p as int, k as int));
        }
        let v = match parse_signed_item(s, p, k, 3) {
            Some(v) => v,
            None => {
                return None;
            },
        };
        out.push(v as i16);
        let ghost item = t.subrange(0, k - p);
        proof {
            assert(signed_item_val(item) as i16 == v as i16);
        }
        if k == j {
            proof {
                assert(sp_i16_list(t) == Some(seq![signed_item_val(item) as i16]));
                assert(out@ =~= out@.drop_last() + seq![signed_item_val(item) as i16]);
                assert(sp_i16_list(full) == Some(out@));
            }
            return Some(out);
        }
        proof {
            let rest = t.subrange(k - p + 1, t.len() as int);
            assert(rest =~= s@.subrange(k as int + 1, j as int));
            assert(sp_i16_list(t) == (match sp_i16_list(rest) {
                Some(r) => Some(seq![signed_item_val(item) as i16] + r),
                None => None,
            }));
            assert(prepend_i16(out@.drop_last(), sp_i16_list(t)) == prepend_i16(
                out@,
                sp_i16_list(rest),
            )) by {
                match sp_i16_list(rest) {
                    Some(r) => {
                        assert(out@.drop_last() + (seq![signed_item_val(item) as i16] + r) =~= out@
                            + r);
                    },
                    None => {},
                }
            }
        }
        p = k + 1;
    }
}

/// Decodes one weekday item (optional signed ordinal + weekday) `s[p..k]`.
fn parse_byday_item(s: &str, p: usize, k: usize) -> (r: Option<IcalRecurWeekDay>)
    requires
        p <= k <= s@.len(),
    ensures
        r == byday_item(s@.subrange(p as int, k as int)),
{
    let ghost t = s@.subrange(p as int, k as int);
    let sgn = if p < k {
        proof {
            assert(t[0] == s@[p as int]);
        }
        let c0 = s.get_char(p);
        c0 == '+' || c0 == '-'
    } else {
        false
    };
    let b: usize = if sgn {
        1
    } else {
        0
    };
    let de = digit_run_end(s, p + b, k);
    proof {
        let tt = t.subrange(b as int, t.len() as int);
        assert forall|x: int| 0 <= x < de - p - b implies is_digit(#[trigger] tt[x]) by {
            assert(tt[x] == s@[p + b + x]);
        }
        if de < k {
            assert(tt[de - p - b] == s@[de as int]);
        }
        crate::scan::lemma_digit_run_is(tt, de as int - p - b);
        assert(tt =~= s@.subrange(p as int + b, k as int));
    }
    let run = de - (p + b);
    if (sgn && run == 0) || run > 2 {
        return None;
    }
    let day = match parse_weekday(s, de, k) {
        Some(d) => d,
        None => {
            proof {
                assert(t.subrange(b as int + run, t.len() as int) =~= s@.subrange(
                    de as int,
                    k as int,
                ));
            }
            return None;
        },
    };
    proof {
        assert(t.subrange(b as int + run, t.len() as int) =~= s@.subrange(de as int, k as int));
    }
    if run == 0 {
        Some(IcalRecurWeekDay { day, nth_of_month: None })
    } else {
        proof {
            assert(t.subrange(b as int, b as int + run) =~= s@.subrange(
                p as int + b,
                de as int,
            ));
            assert(all_digits(s@.subrange(p as int + b, de as int)));
            lemma_pow10_vals();
            lemma_digits_val_upper(s@.subrange(p as int + b, de as int));
            lemma_digits_val_nonneg(s@.subrange(p as int + b, de as int));
        }
        let mag = match digits_to_u64(s, p + b, de) {
            Some(v) => v,
            None => {
                proof {
                    assert(false);
                }
                return None;
            },
        };
        let nth: i8 = if sgn && s.get_char(p) == '-' {
            -((mag as i64) as i8)
        } else {
            (mag as i64) as i8
        };
        Some(IcalRecurWeekDay { day, nth_of_month: Some(nth) })
    }
}

pub open spec fn prepend_wd(
    a: Seq<IcalRecurWeekDay>,
    o: Option<Seq<IcalRecurWeekDay>>,
) -> Option<Seq<IcalRecurWeekDay>> {
    match o {
        Some(r) => Some(a + r),
        None => None,
    }
}

/// Decodes a comma-separated weekday list from `s[i..j]`.
fn parse_byday_list(s: &str, i: usize, j: usize) -> (r: Option<Vec<IcalRecurWeekDay>>)
    requires
        i <= j <= s@.len(),
    ensures
        match r {
            Some(v) => sp_byday_list(s@.subrange(i as int, j as int)) == Some(v@),
            None => sp_byday_list(s@.subrange(i as int, j as int)) is None,
        },
{
    let ghost full = s@.subrange(i as int, j as int);
    let mut p = i;
    let mut out: Vec<IcalRecurWeekDay> = Vec::new();
    proof {
        match sp_byday_list(full) {
            Some(r) => {
                assert(out@ + r =~= r);
            },
            None => {},
        }
    }
    loop
        invariant
            i <= p <= j <= s@.len(),
            full == s@.subrange(i as int, j as int),
            sp_byday_list(full) == prepend_wd(out@, sp_byday_list(s@.subrange(p as int, j as int))),
        decreases j - p,
    {
        let ghost t = s@.subrange(p as int, j as int);
        let k = find_char(s, p, j, ',');
        proof {
            assert forall|x: int| 0 <= x < k - p implies (#[trigger] t[x]) != ',' by {
                assert(t[x] == s@[p + x]);
            }
            if k < j {
                assert(t[k - p] == s@[k as int]);
            }
            lemma_char_idx_is(t, ',', k as int - p);
            assert(t.subrange(0, k - p) =~= s@.subrange(p as int, k as int));
        }
        let w = match parse_byday_item(s, p, k) {
            Some(w) => w,
            None => {
                return None;
            },
        };
        out.push(w);
        let ghost item = t.subrange(0, k - p);
        if k == j {
            proof {
                assert(sp_byday_list(t) == Some(seq![byday_item(item)->0]));
                assert(out@ =~= out@.drop_last() + seq![byday_item(item)->0]);
                assert(sp_byday_list(full) == Some(out@));
            }
            return Some(out);
        }
        proof {
            let rest = t.subrange(k - p + 1, t.len() as int);
            assert(rest =~= s@.subrange(k as int + 1, j as int));
            assert(prepend_wd(out@.drop_last(), sp_byday_list(t)) == prepend_wd(
                out@,
                sp_byday_list(rest),
            )) by {
                match sp_byday_list(rest) {
                    Some(r) => {
                        assert(out@.drop_last() + (seq![byday_item(item)->0] + r) =~= out@ + r);
                    },
                    None => {},
                }
            }
        }
        p = k + 1;
    }
}


/// Whether `s[fs..fe]` starts with the literal `lit`.
fn check_prefix(s: &str, fs: usize, fe: usize, lit: &str) -> (r: bool)
    requires
        fs <= fe <= s@.len(),
    ensures
        r == starts_with(s@.subrange(fs as int, fe as int), lit@),
{
    let l = lit.unicode_len();
    if fe - fs < l {
        return false;
    }
    let sub = s.substring_char(fs, fs + l);
    proof {
        assert(s@.subrange(fs as int, fs as int + l as int) =~= s@.subrange(
            fs as int,
            fe as int,
        ).subrange(0, l as int));
    }
    str_eq(sub, lit)
}

/// Decodes an `UNTIL` cutoff value `s[vs..fe]`: a date, or a UTC date-time.
fn parse_until(s: &str, vs: usize, fe: usize) -> (r: Option<IcalRecurUntil>)
    requires
        vs <= fe <= s@.len(),
    ensures
        r == until_of(s@.subrange(vs as int, fe as int)),
{
    let v = s.substring_char(vs, fe);
    match parse_date(v) {
        Some(d) => Some(IcalRecurUntil::Date(d)),
        None => match parse_datetime(v) {
            Some((dt, true)) => Some(IcalRecurUntil::DateTime(dt)),
            Some((_, false)) => None,
            None => None,
        },
    }
}

/// Decodes an unsigned numeral value `s[vs..fe]` that must fit in a `u64`.
fn parse_u64_numeral(s: &str, vs: usize, fe: usize) -> (r: Option<u64>)
    requires
        vs <= fe <= s@.len(),
    ensures
        match r {
            Some(v) => u64_numeral_ok(s@.subrange(vs as int, fe as int)) && v == digits_val(
                s@.subrange(vs as int, fe as int),
            ),
            None => !u64_numeral_ok(s@.subrange(vs as int, fe as int)),
        },
{
    let ghost t = s@.subrange(vs as int, fe as int);
    if vs == fe {
        return None;
    }
    let j = digit_run_end(s, vs, fe);
    if j != fe {
        proof {
            assert(!is_digit(t[j - vs]));
        }
        return None;
    }
    proof {
        assert(all_digits(t));
        assert(t =~= s@.subrange(vs as int, fe as int));
    }
    digits_to_u64(s, vs, fe)
}

/// Decodes one `KEY=value` fragment and merges it into `rec`; fails on an
/// unknown key, a malformed value, or a field that is already set.
#[verifier::rlimit(60)]
fn apply_fragment(s: &str, fs: usize, fe: usize, rec: IcalRecur) -> (r: Option<IcalRecur>)
    requires
        fs <= fe <= s@.len(),
    ensures
        ({
            let frag = s@.subrange(fs as int, fe as int);
            match r {
                Some(rec2) => {
                    &&& sp_fragment(frag) is Some
                    &&& !fields_conflict(fields_of(rec), sp_fragment(frag)->0)
                    &&& fields_of(rec2) == fields_merge(fields_of(rec), sp_fragment(frag)->0)
                    &&& rec2.frequency == rec.frequency
                },
                None => sp_fragment(frag) is None || fields_conflict(
                    fields_of(rec),
                    sp_fragment(frag)->0,
                ),
            }
        }),
{
    proof {
        reveal_strlit("UNTIL=");
        reveal_strlit("COUNT=");
        reveal_strlit("INTERVAL=");
        reveal_strlit("BYSECOND=");
        reveal_strlit("BYMINUTE=");
        reveal_strlit("BYHOUR=");
        reveal_strlit("BYDAY=");
        reveal_strlit("BYMONTHDAY=");
        reveal_strlit("BYYEARDAY=");
        reveal_strlit("BYWEEKNO=");
        reveal_strlit("BYMONTH=");
        reveal_strlit("BYSETPOS=");
        reveal_strlit("WKST=");
        assert("UNTIL="@ =~= seq!['U', 'N', 'T', 'I', 'L', '=']);
        assert("COUNT="@ =~= seq!['C', 'O', 'U', 'N', 'T', '=']);
        assert("INTERVAL="@ =~= seq!['I', 'N', 'T', 'E', 'R', 'V', 'A', 'L', '=']);
        assert("BYSECOND="@ =~= seq!['B', 'Y', 'S', 'E', 'C', 'O', 'N', 'D', '=']);
        assert("BYMINUTE="@ =~= seq!['B', 'Y', 'M', 'I', 'N', 'U', 'T', 'E', '=']);
        assert("BYHOUR="@ =~= seq!['B', 'Y', 'H', 'O', 'U', 'R', '=']);
        assert("BYDAY="@ =~= seq!['B', 'Y', 'D', 'A', 'Y', '=']);
        assert("BYMONTHDAY="@ =~= seq!['B', 'Y', 'M', 'O', 'N', 'T', 'H', 'D', 'A', 'Y', '=']);
        assert("BYYEARDAY="@ =~= seq!['B', 'Y', 'Y', 'E', 'A', 'R', 'D', 'A', 'Y', '=']);
        assert("BYWEEKNO="@ =~= seq!['B', 'Y', 'W', 'E', 'E', 'K', 'N', 'O', '=']);
        assert("BYMONTH="@ =~= seq!['B', 'Y', 'M', 'O', 'N', 'T', 'H', '=']);
        assert("BYSETPOS="@ =~= seq!['B', 'Y', 'S', 'E', 'T', 'P', 'O', 'S', '=']);
        assert("WKST="@ =~= seq!['W', 'K', 'S', 'T', '=']);
    }
    let ghost frag = s@.subrange(fs as int, fe as int);
    if check_prefix(s, fs, fe, "UNTIL=") {
        proof {
            assert(frag.subrange(6, frag.len() as int) =~= s@.subrange(fs as int + 6, fe as int));
        }
        match parse_until(s, fs + 6, fe) {
            Some(u) => {
                if rec.limit.is_some() {
                    None
                } else {
                    Some(IcalRecur { limit: Some(IcalRecurLimit::Until(u)), ..rec })
                }
            },
            None => None,
        }
    } else if check_prefix(s, fs, fe, "COUNT=") {
        proof {
            assert(frag.subrange(6, frag.len() as int) =~= s@.subrange(fs as int + 6, fe as int));
        }
        match parse_u64_numeral(s, fs + 6, fe) {
            Some(c) => {
                if rec.limit.is_some() {
                    None
                } else {
                    Some(IcalRecur { limit: Some(IcalRecurLimit::Count(c)), ..rec })
                }
            },
            None => None,
        }
    } else if check_prefix(s, fs, fe, "INTERVAL=") {
        proof {
            assert(frag.subrange(9, frag.len() as int) =~= s@.subrange(fs as int + 9, fe as int));
        }
        match parse_u64_numeral(s, fs + 9, fe) {
            Some(c) => {
                if c < 1 || rec.interval.is_some() {
                    None
                } else {
                    Some(IcalRecur { interval: Some(c), ..rec })
                }
            },
            None => None,
        }
    } else if check_prefix(s, fs, fe, "BYSECOND=") {
        proof {
            assert(frag.subrange(9, frag.len() as int) =~= s@.subrange(fs as int + 9, fe as int));
        }
        match parse_u8_list(s, fs + 9, fe) {
            Some(l) => {
                if rec.by_second.is_some() {
                    None
                } else {
                    Some(IcalRecur { by_second: Some(l), ..rec })
                }
            },
            None => None,
        }
    } else if check_prefix(s, fs, fe, "BYMINUTE=") {
        proof {
            assert(frag.subrange(9, frag.len() as int) =~= s@.subrange(fs as int + 9, fe as int));
        }
        match parse_u8_list(s, fs + 9, fe) {
            Some(l) => {
                if rec.by_minute.is_some() {
                    None
                } else {
                    Some(IcalRecur { by_minute: Some(l), ..rec })
                }
            },
            None => None,
        }
    } else if check_prefix(s, fs, fe, "BYHOUR=") {
        proof {
            assert(frag.subrange(7, frag.len() as int) =~= s@.subrange(fs as int + 7, fe as int));
        }
        match parse_u8_list(s, fs + 7, fe) {
            Some(l) => {
                if rec.by_hour.is_some() {
                    None
                } else {
                    Some(IcalRecur { by_hour: Some(l), ..rec })
                }
            },
            None => None,
        }
    } else if check_prefix(s, fs, fe, "BYDAY=") {
        proof {
            assert(frag.subrange(6, frag.len() as int) =~= s@.subrange(fs as int + 6, fe as int));
        }
        match parse_byday_list(s, fs + 6, fe) {
            Some(l) => {
                if rec.by_day.is_some() {
                    None
                } else {
                    Some(IcalRecur { by_day: Some(l), ..rec })
                }
            },
            None => None,
        }
    } else if check_prefix(s, fs, fe, "BYMONTHDAY=") {
        proof {
            assert(frag.subrange(11, frag.len() as int) =~= s@.subrange(
                fs as int + 11,
                fe as int,
            ));
        }
        match parse_i8_list(s, fs + 11, fe) {
            Some(l) => {
                if rec.by_month_day.is_some() {
                    None
                } else {
                    Some(IcalRecur { by_month_day: Some(l), ..rec })
                }
            },
            None => None,
        }
    } else if check_prefix(s, fs, fe, "BYYEARDAY=") {
        proof {
            assert(frag.subrange(10, frag.len() as int) =~= s@.subrange(
                fs as int + 10,
                fe as int,
            ));
        }
        match parse_i16_list(s, fs + 10, fe) {
            Some(l) => {
                if rec.by_year_day.is_some() {
                    None
                } else {
                    Some(IcalRecur { by_year_day: Some(l), ..rec })
                }
            },
            None => None,
        }
    } else if check_prefix(s, fs, fe, "BYWEEKNO=") {
        proof {
            assert(frag.subrange(9, frag.len() as int) =~= s@.subrange(fs as int + 9, fe as int));
        }
        match parse_i8_list(s, fs + 9, fe) {
            Some(l) => {
                if rec.by_week_no.is_some() {
                    None
                } else {
                    Some(IcalRecur { by_week_no: Some(l), ..rec })
                }
            },
            None => None,
        }
    } else if check_prefix(s, fs, fe, "BYMONTH=") {
        proof {
            assert(frag.subrange(8, frag.len() as int) =~= s@.subrange(fs as int + 8, fe as int));
        }
        match parse_u8_list(s, fs + 8, fe) {
            Some(l) => {
                if rec.by_month.is_some() {
                    None
                } else {
                    Some(IcalRecur { by_month: Some(l), ..rec })
                }
            },
            None => None,
        }
    } else if check_prefix(s, fs, fe, "BYSETPOS=") {
        proof {
            assert(frag.subrange(9, frag.len() as int) =~= s@.subrange(fs as int + 9, fe as int));
        }
        match parse_i16_list(s, fs + 9, fe) {
            Some(l) => {
                if rec.by_set_pos.is_some() {
                    None
                } else {
                    Some(IcalRecur { by_set_pos: Some(l), ..rec })
                }
            },
            None => None,
        }
    } else if check_prefix(s, fs, fe, "WKST=") {
        proof {
            assert(frag.subrange(5, frag.len() as int) =~= s@.subrange(fs as int + 5, fe as int));
        }
        match parse_weekday(s, fs + 5, fe) {
            Some(d) => {
                if rec.wkst.is_some() {
                    None
                } else {
                    Some(IcalRecur { wkst: Some(d), ..rec })
                }
            },
            None => None,
        }
    } else {
        None
    }
}


/// One step of the fragment fold: with the fragment boundaries of `s[p..len]`
/// known, `sp_fold` unfolds to a fragment parse, a conflict check, and the
/// fold of the remainder.
proof fn lemma_fold_step(s: Seq<char>, p: int, k2: int, len: int, acc: RecurFields)
    requires
        0 <= p < len == s.len(),
        s[p] == ';',
        p < k2 <= len,
        forall|x: int| p + 1 <= x < k2 ==> (#[trigger] s[x]) != ';',
        k2 < len ==> s[k2] == ';',
    ensures
        sp_fold(s.subrange(p, len), acc) == (match sp_fragment(s.subrange(p + 1, k2)) {
            Some(b) => {
                if fields_conflict(acc, b) {
                    None
                } else {
                    sp_fold(s.subrange(k2, len), fields_merge(acc, b))
                }
            },
            None => None,
        }),
{
    let t = s.subrange(p, len);
    let rest = t.subrange(1, t.len() as int);
    assert(rest =~= s.subrange(p + 1, len));
    assert forall|x: int| 0 <= x < k2 - p - 1 implies (#[trigger] rest[x]) != ';' by {
        assert(rest[x] == s[p + 1 + x]);
    }
    if k2 < len {
        assert(rest[k2 - p - 1] == s[k2]);
    }
    lemma_char_idx_is(rest, ';', k2 - p - 1);
    assert(rest.subrange(0, k2 - p - 1) =~= s.subrange(p + 1, k2));
    assert(rest.subrange(k2 - p - 1, rest.len() as int) =~= s.subrange(k2, len));
}

impl IcalRecur {
    #[verifier::rlimit(100)]
    pub fn try_from(property: &Property) -> (r: Result<IcalRecur, Error>)
        ensures
            match r {
                Ok(rec) => recur_decode_ok(*property) && (match property.value {
                    Some(s) => sp_recur_fields(s@) == Some((rec.frequency, fields_of(rec))),
                    None => false,
                }),
                Err(e) => !recur_decode_ok(*property) && e == Error::TypeDecode(ICalTypes::Recur),
            },
    {
        proof {
            reveal_strlit("FREQ=");
            reveal_strlit("SECONDLY");
            reveal_strlit("MINUTELY");
            reveal_strlit("HOURLY");
            reveal_strlit("DAILY");
            reveal_strlit("WEEKLY");
            reveal_strlit("MONTHLY");
            reveal_strlit("YEARLY");
            assert("FREQ="@ =~= seq!['F', 'R', 'E', 'Q', '=']);
            assert("SECONDLY"@ =~= seq!['S', 'E', 'C', 'O', 'N', 'D', 'L', 'Y']);
            assert("MINUTELY"@ =~= seq!['M', 'I', 'N', 'U', 'T', 'E', 'L', 'Y']);
            assert("HOURLY"@ =~= seq!['H', 'O', 'U', 'R', 'L', 'Y']);
            assert("DAILY"@ =~= seq!['D', 'A', 'I', 'L', 'Y']);
            assert("WEEKLY"@ =~= seq!['W', 'E', 'E', 'K', 'L', 'Y']);
            assert("MONTHLY"@ =~= seq!['M', 'O', 'N', 'T', 'H', 'L', 'Y']);
            assert("YEARLY"@ =~= seq!['Y', 'E', 'A', 'R', 'L', 'Y']);
        }
        let v = match &property.value {
            Some(v) => v,
            None => {
                return Err(Error::TypeDecode(ICalTypes::Recur));
            },
        };
        let s = v.as_str();
        let len = s.unicode_len();
        let k = find_char(s, 0, len, ';');
        proof {
            lemma_char_idx_is(s@, ';', k as int);
        }
        let ghost head = s@.subrange(0, k as int);
        if !check_prefix(s, 0, k, "FREQ=") {
            return Err(Error::TypeDecode(ICalTypes::Recur));
        }
        let tok = s.substring_char(5, k);
        proof {
            assert(tok@ =~= head.subrange(5, head.len() as int));
        }
        let frequency = if str_eq(tok, "SECONDLY") {
            ICalRecurFrequency::Secondly
        } else if str_eq(tok, "MINUTELY") {
            ICalRecurFrequency::Minutely
        } else if str_eq(tok, "HOURLY") {
            ICalRecurFrequency::Hourly
        } else if str_eq(tok, "DAILY") {
            ICalRecurFrequency::Daily
        } else if str_eq(tok, "WEEKLY") {
            ICalRecurFrequency::Weekly
        } else if str_eq(tok, "MONTHLY") {
            ICalRecurFrequency::Monthly
        } else if str_eq(tok, "YEARLY") {
            ICalRecurFrequency::Yearly
        } else {
            proof {
                assert(freq_of(head.subrange(5, head.len() as int)) is None);
            }
            return Err(Error::TypeDecode(ICalTypes::Recur));
        };
        proof {
            assert(freq_of(head.subrange(5, head.len() as int)) == Some(frequency));
        }
        let mut rec = IcalRecur {
            frequency,
            limit: None,
            interval: None,
            by_second: None,
            by_minute: None,
            by_hour: None,
            by_day: None,
            by_month_day: None,
            by_year_day: None,
            by_week_no: None,
            by_month: None,
            by_set_pos: None,
            wkst: None,
        };
        proof {
            assert(fields_of(rec) =~= empty_fields());
        }
        proof {
            assert(sp_recur_fields(s@) == (match sp_fold(
                s@.subrange(k as int, len as int),
                empty_fields(),
            ) {
                Some(b) => Some((frequency, b)),
                None => None,
            }));
        }
        let mut p = k;
        while p < len
            invariant
                property.value == Some(*v),
                s@ == v@,
                k <= p <= len,
                len == s@.len(),
                p < len ==> s@[p as int] == ';',
                rec.frequency == frequency,
                sp_recur_fields(s@) == (match sp_fold(
                    s@.subrange(k as int, len as int),
                    empty_fields(),
                ) {
                    Some(b) => Some((frequency, b)),
                    None => None,
                }),
                sp_fold(s@.subrange(k as int, len as int), empty_fields()) == sp_fold(
                    s@.subrange(p as int, len as int),
                    fields_of(rec),
                ),
            decreases len - p,
        {
            let k2 = find_char(s, p + 1, len, ';');
            proof {
                lemma_fold_step(s@, p as int, k2 as int, len as int, fields_of(rec));
            }
            match apply_fragment(s, p + 1, k2, rec) {
                Some(rec2) => {
                    rec = rec2;
                    p = k2;
                },
                None => {
                    return Err(Error::TypeDecode(ICalTypes::Recur));
                },
            }
        }
        proof {
            assert(s@.subrange(len as int, len as int) =~= Seq::<char>::empty());
            assert(sp_fold(s@.subrange(len as int, len as int), fields_of(rec)) == Some(
                fields_of(rec),
            ));
        }
        Ok(rec)
    }
}

} // verus!
