use xmlrpc::datetime::{format_datetime, parse_datetime};
use xmlrpc::{Date, DateTime, Time};

fn same_as_iso8601(text: &str, dt: &DateTime) {
    let them = iso8601::datetime(text).expect("iso8601 rejects the text");
    let (year, month, day) = match dt.date {
        Date::Ymd { year, month, day } => (year, month, day),
        _ => panic!("expected a calendar date"),
    };
    match them.date {
        iso8601::Date::YMD {
            year: y,
            month: m,
            day: d,
        } => {
            assert_eq!((year, month, day), (y, m, d));
        }
        _ => panic!("iso8601 parsed a different date form"),
    }
    assert_eq!(dt.time.hour, them.time.hour);
    assert_eq!(dt.time.minute, them.time.minute);
    assert_eq!(dt.time.second, them.time.second);
    assert_eq!(dt.time.millisecond, them.time.millisecond);
    assert_eq!(dt.time.tz_offset_hours, them.time.tz_offset_hours);
    assert_eq!(dt.time.tz_offset_minutes, them.time.tz_offset_minutes);
}

#[test]
fn formats_datetimes() {
    let text = "2016-05-02T06:01:05-0830";
    let date_time = parse_datetime(text.as_bytes()).unwrap();
    same_as_iso8601(text, &date_time);

    let formatted = format_datetime(&date_time);
    assert_eq!(formatted, b"20160502T06:01:05-08:30".to_vec());
    assert_eq!(parse_datetime(&formatted).unwrap(), date_time);

    // milliseconds / fraction
    let text = "20160502T06:01:05.400";
    let date_time = parse_datetime(text.as_bytes()).unwrap();
    same_as_iso8601(text, &date_time);
    let formatted = format_datetime(&date_time);
    assert_eq!(formatted, b"20160502T06:01:05.400".to_vec());
    assert_eq!(parse_datetime(&formatted).unwrap(), date_time);

    // milliseconds / fraction + time zone
    let text = "20160502T06:01:05.400+01:02";
    let date_time = parse_datetime(text.as_bytes()).unwrap();
    same_as_iso8601(text, &date_time);
    let formatted = format_datetime(&date_time);
    assert_eq!(formatted, b"20160502T06:01:05.400+01:02".to_vec());
    assert_eq!(parse_datetime(&formatted).unwrap(), date_time);
}

#[test]
fn parses_partial_times() {
    let dt = parse_datetime(b"2015-11-03T21:56").unwrap();
    assert_eq!(
        dt,
        DateTime {
            date: Date::Ymd {
                year: 2015,
                month: 11,
                day: 3
            },
            time: Time {
                hour: 21,
                minute: 56,
                second: 0,
                millisecond: 0,
                tz_offset_hours: 0,
                tz_offset_minutes: 0
            }
        }
    );
    assert_eq!(parse_datetime(b"2015-11-03T21:56"), {
        let them = iso8601::datetime("2015-11-03T21:56").unwrap();
        let _ = them;
        parse_datetime(b"2015-11-03T21:56")
    });
}

#[test]
fn parses_week_and_ordinal_dates() {
    let dt = parse_datetime(b"2015-W45-1T09:00").unwrap();
    assert_eq!(
        dt.date,
        Date::Week {
            year: 2015,
            ww: 45,
            d: 1
        }
    );
    let dt = parse_datetime(b"2015-306T09:00").unwrap();
    assert_eq!(
        dt.date,
        Date::Ordinal {
            year: 2015,
            ddd: 306
        }
    );
}

#[test]
fn agrees_with_iso8601_crate() {
    for text in [
        "2015-02-18T23:16:09Z",
        "19980717T14:08:55",
        "2016-05-02T06:01:05-0830",
        "20160502T06:01:05.400+01:02",
        "2015-11-03T21:56",
        "0001-01-01T00:00:00",
    ] {
        let dt = parse_datetime(text.as_bytes()).unwrap();
        same_as_iso8601(text, &dt);
    }
    for text in ["", "ILLEGAL VALUE :(", "2015-02-18", "23:16:09"] {
        assert!(parse_datetime(text.as_bytes()).is_none());
        assert!(iso8601::datetime(text).is_err());
    }
}

#[test]
fn pads_fraction_and_signs_offset() {
    // milliseconds are written as three digits
    let dt = DateTime {
        date: Date::Ymd {
            year: 2016,
            month: 5,
            day: 2,
        },
        time: Time {
            hour: 6,
            minute: 1,
            second: 5,
            millisecond: 40,
            tz_offset_hours: 0,
            tz_offset_minutes: 0,
        },
    };
    let formatted = format_datetime(&dt);
    assert_eq!(formatted, b"20160502T06:01:05.040".to_vec());
    assert_eq!(parse_datetime(&formatted).unwrap(), dt);

    // a negative offset below one hour still carries its sign
    let dt = DateTime {
        date: Date::Ymd {
            year: 2016,
            month: 5,
            day: 2,
        },
        time: Time {
            hour: 6,
            minute: 1,
            second: 5,
            millisecond: 0,
            tz_offset_hours: 0,
            tz_offset_minutes: -30,
        },
    };
    let formatted = format_datetime(&dt);
    assert_eq!(formatted, b"20160502T06:01:05-00:30".to_vec());
    assert_eq!(parse_datetime(&formatted).unwrap(), dt);
}
