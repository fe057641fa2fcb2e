use ical_values::event::{EventTimeRange, RawTiming};
use ical_values::property::Property;
use ical_values::recur::{IcalRecur, IcalRecurLimit, ICalRecurFrequency};
use ical_values::timezone::{Timezone, TimezoneBlock, TimezoneMap, TransitionBlock};
use ical_values::{Error, ICalTypes};

fn named(name: &str, value: &str) -> Property {
    Property { name: name.to_string(), value: Some(value.to_string()), params: None }
}

fn named_tz(name: &str, value: &str, tzid: &str) -> Property {
    Property {
        name: name.to_string(),
        value: Some(value.to_string()),
        params: Some(vec![("TZID".to_string(), vec![tzid.to_string()])]),
    }
}

fn recur(text: &str) -> Result<IcalRecur, Error> {
    IcalRecur::try_from(&named("RRULE", text))
}

#[test]
fn recur_basic_fields() {
    let r = recur("FREQ=DAILY;COUNT=5").unwrap();
    assert!(matches!(r.frequency, ICalRecurFrequency::Daily));
    assert!(matches!(r.limit, Some(IcalRecurLimit::Count(5))));
    let r = recur("FREQ=YEARLY;BYMONTH=3;BYDAY=-1SU").unwrap();
    assert!(matches!(r.frequency, ICalRecurFrequency::Yearly));
    assert_eq!(r.by_month.as_ref().unwrap(), &vec![3u8]);
    let byday = r.by_day.as_ref().unwrap();
    assert_eq!(byday.len(), 1);
    assert_eq!(byday[0].nth_of_month, Some(-1));
    let r = recur("FREQ=WEEKLY;INTERVAL=2;WKST=MO;BYSETPOS=-1,2").unwrap();
    assert_eq!(r.interval, Some(2));
    assert_eq!(r.by_set_pos.as_ref().unwrap(), &vec![-1i16, 2]);
}

#[test]
fn recur_duplicate_fields_conflict() {
    assert!(matches!(
        recur("FREQ=DAILY;COUNT=5;COUNT=3"),
        Err(Error::TypeDecode(ICalTypes::Recur))
    ));
    assert!(matches!(
        recur("FREQ=DAILY;UNTIL=20240101;COUNT=5"),
        Err(Error::TypeDecode(ICalTypes::Recur))
    ));
    assert!(matches!(
        recur("FREQ=DAILY;BYMONTH=1;BYMONTH=2"),
        Err(Error::TypeDecode(ICalTypes::Recur))
    ));
}

#[test]
fn recur_until_forms() {
    let r = recur("FREQ=DAILY;UNTIL=20240101").unwrap();
    assert!(matches!(r.limit, Some(IcalRecurLimit::Until(_))));
    let r = recur("FREQ=DAILY;UNTIL=20240101T120000Z").unwrap();
    assert!(matches!(r.limit, Some(IcalRecurLimit::Until(_))));
    assert!(matches!(
        recur("FREQ=DAILY;UNTIL=20240101T120000"),
        Err(Error::TypeDecode(ICalTypes::Recur))
    ));
}

#[test]
fn recur_rejects_malformed() {
    for bad in ["COUNT=5", "FREQ=SOMETIMES", "FREQ=DAILY;NOPE=1", "FREQ=DAILY;COUNT=",
        "FREQ=DAILY;BYSECOND=123", "FREQ=DAILY;INTERVAL=0", "FREQ=DAILY;BYDAY=XX"] {
        assert!(matches!(recur(bad), Err(Error::TypeDecode(ICalTypes::Recur))));
    }
}

fn simple_zone() -> Timezone {
    // two non-recurring transitions: +1h from 2024-01-01, +2h from 2024-06-01
    let block = TimezoneBlock {
        properties: vec![named("TZID", "Test/Zone")],
        transitions: vec![
            TransitionBlock {
                properties: vec![
                    named("DTSTART", "20240101T000000"),
                    named("TZOFFSETTO", "+0100"),
                ],
            },
            TransitionBlock {
                properties: vec![
                    named("DTSTART", "20240601T000000"),
                    named("TZOFFSETTO", "+0200"),
                ],
            },
        ],
    };
    Timezone::try_from(&block).unwrap()
}

#[test]
fn resolution_picks_latest_applicable_transition() {
    let tz = simple_zone();
    // 2024-03-15T00:00 local: after the first transition, before the second
    assert_eq!(tz.resolve_offset(1710460800), Ok(3600));
    // after the second transition
    assert_eq!(tz.resolve_offset(1720000000), Ok(7200));
    // 2023-12-01T00:00 local precedes every transition
    assert_eq!(tz.resolve_offset(1701388800), Err(Error::InvalidTimezone));
}

#[test]
fn to_utc_subtracts_offset() {
    let tz = simple_zone();
    assert_eq!(tz.to_utc(1710460800), Ok(1710460800 - 3600));
    assert_eq!(tz.offset_time(1710460800), Ok(1710460800 - 3600));
}

#[test]
fn resolution_expands_recurring_transitions() {
    // yearly daylight/standard rules anchored in 2020; resolving a 2024
    // instant must follow the recurrence expansion, not the 2020 anchors
    let block = TimezoneBlock {
        properties: vec![named("TZID", "Test/Recurring")],
        transitions: vec![
            TransitionBlock {
                properties: vec![
                    named("DTSTART", "20201025T030000"),
                    named("TZOFFSETTO", "+0100"),
                    named("RRULE", "FREQ=YEARLY;BYMONTH=10;BYDAY=-1SU"),
                ],
            },
            TransitionBlock {
                properties: vec![
                    named("DTSTART", "20200329T020000"),
                    named("TZOFFSETTO", "+0200"),
                    named("RRULE", "FREQ=YEARLY;BYMONTH=3;BYDAY=-1SU"),
                ],
            },
        ],
    };
    let tz = Timezone::try_from(&block).unwrap();
    // 2024-04-15T00:00 local (1713139200): the most recent anchor is the
    // daylight rule's 2024-03-31 occurrence, not the standard rule's 2020
    // anchor
    assert_eq!(tz.resolve_offset(1713139200), Ok(7200));
    // 2024-12-01T00:00 local (1733011200): the standard rule's 2024-10-27
    // occurrence is the latest
    assert_eq!(tz.resolve_offset(1733011200), Ok(3600));
}

#[test]
fn timezone_construction_failures() {
    // missing TZID
    let block = TimezoneBlock { properties: vec![], transitions: vec![] };
    assert!(matches!(Timezone::try_from(&block), Err(Error::InvalidTimezone)));
    // transition lacking an offset
    let block = TimezoneBlock {
        properties: vec![named("TZID", "T")],
        transitions: vec![TransitionBlock {
            properties: vec![named("DTSTART", "20240101T000000")],
        }],
    };
    assert!(matches!(Timezone::try_from(&block), Err(Error::InvalidTimezone)));
    // a UTC anchor is not a floating local time
    let block = TimezoneBlock {
        properties: vec![named("TZID", "T")],
        transitions: vec![TransitionBlock {
            properties: vec![
                named("DTSTART", "20240101T000000Z"),
                named("TZOFFSETTO", "+0100"),
            ],
        }],
    };
    assert!(matches!(Timezone::try_from(&block), Err(Error::InvalidTimezone)));
}

fn map_with(tz: Timezone) -> TimezoneMap {
    let mut map = TimezoneMap::new();
    map.insert(tz);
    map
}

#[test]
fn range_date_alone_spans_one_day() {
    let timing = RawTiming { start: named("DTSTART", "20240101"), end: None, duration: None };
    let map = TimezoneMap::new();
    match timing.get_time_range(&map).unwrap() {
        EventTimeRange::Date { start, end } => {
            assert_eq!((start.year, start.month, start.day), (2024, 1, 1));
            assert_eq!((end.year, end.month, end.day), (2024, 1, 2));
        },
        _ => panic!("expected date range"),
    }
}

#[test]
fn range_utc_start_with_duration() {
    let timing = RawTiming {
        start: named("DTSTART", "20240101T090000Z"),
        end: None,
        duration: Some(named("DURATION", "PT1H")),
    };
    let map = TimezoneMap::new();
    assert_eq!(
        timing.get_time_range(&map),
        Ok(EventTimeRange::DateTime { start: 1704099600, end: 1704103200 })
    );
}

#[test]
fn range_mismatched_kinds_fail() {
    let timing = RawTiming {
        start: named("DTSTART", "20240101T090000Z"),
        end: Some(named("DTEND", "20240102")),
        duration: None,
    };
    let map = TimezoneMap::new();
    assert_eq!(timing.get_time_range(&map), Err(Error::InvalidTimeRange));
    let timing = RawTiming {
        start: named("DTSTART", "20240101T090000Z"),
        end: Some(named("DTEND", "20240102T090000")),
        duration: None,
    };
    assert_eq!(timing.get_time_range(&map), Err(Error::InvalidDateTime));
}

#[test]
fn range_both_end_and_duration_fail() {
    let timing = RawTiming {
        start: named("DTSTART", "20240101T090000Z"),
        end: Some(named("DTEND", "20240101T100000Z")),
        duration: Some(named("DURATION", "PT1H")),
    };
    let map = TimezoneMap::new();
    assert_eq!(timing.get_time_range(&map), Err(Error::InvalidTimeRange));
}

#[test]
fn range_utc_pair() {
    let timing = RawTiming {
        start: named("DTSTART", "20240101T090000Z"),
        end: Some(named("DTEND", "20240101T100000Z")),
        duration: None,
    };
    let map = TimezoneMap::new();
    assert_eq!(
        timing.get_time_range(&map),
        Ok(EventTimeRange::DateTime { start: 1704099600, end: 1704103200 })
    );
}

#[test]
fn range_floating_alone_spans_24h() {
    let timing = RawTiming {
        start: named("DTSTART", "20240101T090000"),
        end: None,
        duration: None,
    };
    let map = TimezoneMap::new();
    assert_eq!(
        timing.get_time_range(&map),
        Ok(EventTimeRange::FloatingDateTime { start: 1704099600, end: 1704099600 + 86400 })
    );
}

#[test]
fn range_zoned_alone_ends_at_local_end_of_day() {
    let timing = RawTiming {
        start: named_tz("DTSTART", "20240701T090000", "Test/Zone"),
        end: None,
        duration: None,
    };
    let map = map_with(simple_zone());
    // 2024-07-01T09:00 local, +2h offset; end is 2024-07-02T00:00 local
    // minus one second, converted at the same offset
    let start_local: i64 = 1719824400;
    let end_local: i64 = 1719878400 - 1;
    assert_eq!(
        timing.get_time_range(&map),
        Ok(EventTimeRange::DateTime { start: start_local - 7200, end: end_local - 7200 })
    );
}

#[test]
fn range_unknown_timezone_fails() {
    let timing = RawTiming {
        start: named_tz("DTSTART", "20240701T090000", "No/Such"),
        end: None,
        duration: None,
    };
    let map = map_with(simple_zone());
    assert_eq!(timing.get_time_range(&map), Err(Error::InvalidTimezone));
}

#[test]
fn resolution_is_idempotent() {
    let timing = RawTiming {
        start: named_tz("DTSTART", "20240701T090000", "Test/Zone"),
        end: Some(named_tz("DTEND", "20240701T100000", "Test/Zone")),
        duration: None,
    };
    let map = map_with(simple_zone());
    let first = timing.get_time_range(&map);
    let second = timing.get_time_range(&map);
    assert_eq!(first, second);
    assert!(first.is_ok());
}

#[test]
fn range_start_decode_error_propagates() {
    let timing = RawTiming { start: named("DTSTART", "bogus"), end: None, duration: None };
    let map = TimezoneMap::new();
    assert_eq!(timing.get_time_range(&map), Err(Error::TypeDecode(ICalTypes::DateTime)));
    let timing = RawTiming {
        start: named("DTSTART", "20240101T090000Z"),
        end: None,
        duration: Some(named("DURATION", "bogus")),
    };
    assert_eq!(timing.get_time_range(&map), Err(Error::TypeDecode(ICalTypes::Duration)));
}

#[test]
fn transition_rule_until_must_be_utc() {
    // an UNTIL inside a transition RRULE without the UTC marker would be read
    // in the machine's timezone by the recurrence engine; the library rejects
    // it deterministically instead
    let block = TimezoneBlock {
        properties: vec![named("TZID", "T")],
        transitions: vec![TransitionBlock {
            properties: vec![
                named("DTSTART", "20200329T020000"),
                named("TZOFFSETTO", "+0200"),
                named("RRULE", "FREQ=YEARLY;BYMONTH=3;BYDAY=-1SU;UNTIL=20250309T023000"),
            ],
        }],
    };
    assert!(matches!(Timezone::try_from(&block), Err(Error::InvalidTimezone)));
    // with the UTC marker the same rule is accepted
    let block = TimezoneBlock {
        properties: vec![named("TZID", "T")],
        transitions: vec![TransitionBlock {
            properties: vec![
                named("DTSTART", "20200329T020000"),
                named("TZOFFSETTO", "+0200"),
                named("RRULE", "FREQ=YEARLY;BYMONTH=3;BYDAY=-1SU;UNTIL=20250309T023000Z"),
            ],
        }],
    };
    assert!(Timezone::try_from(&block).is_ok());
}

#[test]
fn resolution_uses_declared_rdates() {
    // an explicit RDATE generates a further anchor for the same offset
    let block = TimezoneBlock {
        properties: vec![named("TZID", "Test/Rdate")],
        transitions: vec![
            TransitionBlock {
                properties: vec![
                    named("DTSTART", "20240101T000000"),
                    named("TZOFFSETTO", "+0100"),
                    named("RDATE", "20240701T000000"),
                ],
            },
            TransitionBlock {
                properties: vec![
                    named("DTSTART", "20240301T000000"),
                    named("TZOFFSETTO", "+0200"),
                ],
            },
        ],
    };
    let tz = Timezone::try_from(&block).unwrap();
    // 2024-08-01T00:00 local (1722470400): the first transition's RDATE
    // anchor 2024-07-01 is later than the second transition's 2024-03-01
    assert_eq!(tz.resolve_offset(1722470400), Ok(3600));
    // 2024-04-01T00:00 local (1711929600): between the two declared anchors
    assert_eq!(tz.resolve_offset(1711929600), Ok(7200));
}
