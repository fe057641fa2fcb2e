use ical_values::add;
use ical_values::duration::ICalDuration;
use ical_values::property::{get_tzid, Property};
use ical_values::types::{ICalBinary, ICalBoolean, ICalCalAddress, ICalTime, IcalDate,
    IcalDateTime, IcalInteger, IcalPeriod, IcalText, IcalURI, IcalUTCOffset};
use ical_values::{Error, ICalTypes};

fn prop(value: &str) -> Property {
    Property { name: "X".to_string(), value: Some(value.to_string()), params: None }
}

fn prop_tz(value: &str, tzid: &str) -> Property {
    Property {
        name: "X".to_string(),
        value: Some(value.to_string()),
        params: Some(vec![("TZID".to_string(), vec![tzid.to_string()])]),
    }
}

#[test]
fn it_works() {
    let result = add(2, 2);
    assert_eq!(result, 4);
}

#[test]
fn date_parses_real_dates() {
    let d = IcalDate::try_from(&prop("20240229")).unwrap();
    assert_eq!(d.date.year, 2024);
    assert_eq!(d.date.month, 2);
    assert_eq!(d.date.day, 29);
    let d = IcalDate::try_from(&prop("00010101")).unwrap();
    assert_eq!(d.date.year, 1);
}

#[test]
fn date_rejects_bad_dates() {
    for bad in ["20230229", "20241301", "20240132", "2024010", "202401011", "2024010a", ""] {
        assert_eq!(IcalDate::try_from(&prop(bad)), Err(Error::TypeDecode(ICalTypes::Date)));
    }
    assert_eq!(
        IcalDate::try_from(&Property { name: "X".to_string(), value: None, params: None }),
        Err(Error::TypeDecode(ICalTypes::Date))
    );
}

#[test]
fn time_variants() {
    match ICalTime::try_from(&prop("123456Z")).unwrap() {
        ICalTime::Utc { time } => {
            assert_eq!((time.hour, time.minute, time.second), (12, 34, 56));
        },
        _ => panic!("expected utc"),
    }
    match ICalTime::try_from(&prop("123456")).unwrap() {
        ICalTime::Floating { .. } => {},
        _ => panic!("expected floating"),
    }
    match ICalTime::try_from(&prop_tz("123456", "Europe/Paris")).unwrap() {
        ICalTime::Local { tzid, .. } => assert_eq!(tzid, "Europe/Paris"),
        _ => panic!("expected local"),
    }
    assert!(matches!(
        ICalTime::try_from(&prop_tz("123456Z", "Europe/Paris")),
        Err(Error::TypeDecode(ICalTypes::Time))
    ));
    assert!(matches!(
        ICalTime::try_from(&prop("246060")),
        Err(Error::TypeDecode(ICalTypes::Time))
    ));
}

#[test]
fn datetime_variant_preservation() {
    match IcalDateTime::try_from(&prop("20240101T120000Z")).unwrap() {
        IcalDateTime::Utc { date_time } => {
            assert_eq!(date_time.date.year, 2024);
            assert_eq!(date_time.time.hour, 12);
        },
        _ => panic!("expected utc"),
    }
    match IcalDateTime::try_from(&prop("20240101T120000")).unwrap() {
        IcalDateTime::Floating { .. } => {},
        _ => panic!("expected floating"),
    }
    match IcalDateTime::try_from(&prop_tz("20240101T120000", "America/New_York")).unwrap() {
        IcalDateTime::TimeZone { tzid, .. } => assert_eq!(tzid, "America/New_York"),
        _ => panic!("expected timezone"),
    }
    assert!(matches!(
        IcalDateTime::try_from(&prop_tz("20240101T120000Z", "America/New_York")),
        Err(Error::TypeDecode(ICalTypes::DateTime))
    ));
}

#[test]
fn duration_values() {
    assert_eq!(ICalDuration::try_from(&prop("PT1H")).unwrap().seconds, 3600);
    assert_eq!(ICalDuration::try_from(&prop("-PT1H")).unwrap().seconds, -3600);
    assert_eq!(ICalDuration::try_from(&prop("P1W")).unwrap().seconds, 604800);
    assert_eq!(ICalDuration::try_from(&prop("P1DT2H3M4S")).unwrap().seconds, 93784);
    assert_eq!(ICalDuration::try_from(&prop("PT15M")).unwrap().seconds, 900);
    assert_eq!(ICalDuration::try_from(&prop("+P2D")).unwrap().seconds, 172800);
}

#[test]
fn duration_rejects_malformed() {
    for bad in ["P", "PT", "P1W2D", "P1DT", "PT1H2S", "1D", "P1D2H", "PT1H1M1S1S",
        "P99999999999999999999999999D"] {
        assert_eq!(
            ICalDuration::try_from(&prop(bad)),
            Err(Error::TypeDecode(ICalTypes::Duration))
        );
    }
}

#[test]
fn duration_round_trip() {
    for text in ["-P1DT2H3M4S", "P7W", "PT5S", "P3D", "PT0S", "P1DT23H59M59S", "-PT1M"] {
        let d = ICalDuration::try_from(&prop(text)).unwrap();
        let formatted = d.format();
        let again = ICalDuration::try_from(&prop(&formatted)).unwrap();
        assert_eq!(d.seconds, again.seconds);
    }
}

#[test]
fn duration_format_canonical() {
    assert_eq!(ICalDuration { seconds: -93784 }.format(), "-P1DT2H3M4S");
    assert_eq!(ICalDuration { seconds: 0 }.format(), "PT0H0M0S");
    assert_eq!(ICalDuration { seconds: 604800 }.format(), "P7D");
    assert_eq!(ICalDuration { seconds: 3600 }.format(), "PT1H0M0S");
}

#[test]
fn utc_offset_values() {
    assert_eq!(IcalUTCOffset::try_from(&prop("+0130")).unwrap().offset, 5400);
    assert_eq!(IcalUTCOffset::try_from(&prop("-0500")).unwrap().offset, -18000);
    assert_eq!(IcalUTCOffset::try_from(&prop("+013015")).unwrap().offset, 5415);
    assert_eq!(
        IcalUTCOffset::try_from(&prop("0130")),
        Err(Error::TypeDecode(ICalTypes::UTCOffset))
    );
    assert_eq!(
        IcalUTCOffset::try_from(&prop("+01301")),
        Err(Error::TypeDecode(ICalTypes::UTCOffset))
    );
}

#[test]
fn period_forms() {
    match IcalPeriod::try_from(&prop("20240101T000000Z/20240101T010000Z")).unwrap() {
        IcalPeriod::StartEnd { .. } => {},
        _ => panic!("expected start/end"),
    }
    match IcalPeriod::try_from(&prop("20240101T000000Z/PT1H")).unwrap() {
        IcalPeriod::StartDuration { duration, .. } => assert_eq!(duration.seconds, 3600),
        _ => panic!("expected start/duration"),
    }
    assert!(matches!(
        IcalPeriod::try_from(&prop("20240101T000000Z")),
        Err(Error::TypeDecode(ICalTypes::Period))
    ));
    assert!(matches!(
        IcalPeriod::try_from(&prop("a/b/c")),
        Err(Error::TypeDecode(ICalTypes::Period))
    ));
    assert!(matches!(
        IcalPeriod::try_from(&prop("bogus/PT1H")),
        Err(Error::TypeDecode(ICalTypes::DateTime))
    ));
    assert!(matches!(
        IcalPeriod::try_from(&prop("20240101T000000Z/bogus")),
        Err(Error::TypeDecode(ICalTypes::Duration))
    ));
}

#[test]
fn boolean_literals() {
    assert!(ICalBoolean::try_from(&prop("TRUE")).unwrap().value);
    assert!(!ICalBoolean::try_from(&prop("FALSE")).unwrap().value);
    assert_eq!(
        ICalBoolean::try_from(&prop("true")),
        Err(Error::TypeDecode(ICalTypes::Boolean))
    );
}

#[test]
fn integer_values() {
    assert_eq!(IcalInteger::try_from(&prop("42")).unwrap().value, 42);
    assert_eq!(IcalInteger::try_from(&prop("-7")).unwrap().value, -7);
    assert_eq!(IcalInteger::try_from(&prop("+0")).unwrap().value, 0);
    assert_eq!(IcalInteger::try_from(&prop("-2147483648")).unwrap().value, -2147483648);
    assert_eq!(
        IcalInteger::try_from(&prop("2147483648")),
        Err(Error::TypeDecode(ICalTypes::Integer))
    );
    assert_eq!(IcalInteger::try_from(&prop("")), Err(Error::TypeDecode(ICalTypes::Integer)));
    assert_eq!(IcalInteger::try_from(&prop("4e2")), Err(Error::TypeDecode(ICalTypes::Integer)));
}

#[test]
fn text_passthrough() {
    assert_eq!(IcalText::try_from(&prop("hello, world")).unwrap().value, "hello, world");
}

#[test]
fn binary_decodes_base64() {
    assert_eq!(ICalBinary::try_from(&prop("AQID")).unwrap().data, vec![1u8, 2, 3]);
    assert_eq!(ICalBinary::try_from(&prop("")).unwrap().data, Vec::<u8>::new());
    assert!(matches!(
        ICalBinary::try_from(&prop("!!!")),
        Err(Error::TypeDecode(ICalTypes::Binary))
    ));
}

#[test]
fn uris_validate() {
    assert!(ICalCalAddress::try_from(&prop("mailto:someone@example.com")).is_ok());
    assert!(IcalURI::try_from(&prop("https://example.com/a?b=c")).is_ok());
    assert!(matches!(
        IcalURI::try_from(&prop("http://[")),
        Err(Error::TypeDecode(ICalTypes::URI))
    ));
    assert!(matches!(
        ICalCalAddress::try_from(&prop("http://[")),
        Err(Error::TypeDecode(ICalTypes::CalAddress))
    ));
}

#[test]
fn tzid_parameter_lookup() {
    assert_eq!(get_tzid(&prop_tz("x", "Asia/Tokyo")), Some("Asia/Tokyo".to_string()));
    assert_eq!(get_tzid(&prop("x")), None);
    let p = Property {
        name: "X".to_string(),
        value: None,
        params: Some(vec![("LANG".to_string(), vec!["en".to_string()])]),
    };
    assert_eq!(get_tzid(&p), None);
}
