use std::cmp::Ordering;

use chrono::{Datelike, NaiveDate, Utc};

use tikv::calendar::{shift_seconds, CivilTime};
use tikv::parse::parse_datetime_format;
use tikv::time::Time;
use tikv::types::{DATE, DATETIME, MAX_FSP, TIMESTAMP, UN_SPECIFIED_FSP};

const MIN_OFFSET: i32 = -60 * 24 + 1;
const MAX_OFFSET: i32 = 60 * 24;

fn dec_text(t: &Time) -> String {
    String::from_utf8(t.to_decimal()).unwrap()
}

#[test]
fn test_parse_datetime() {
    let ok_tables = vec![
        ("2012-12-31 11:30:45", UN_SPECIFIED_FSP, "2012-12-31 11:30:45"),
        ("0000-00-00 00:00:00", UN_SPECIFIED_FSP, "0000-00-00 00:00:00"),
        ("0001-01-01 00:00:00", UN_SPECIFIED_FSP, "0001-01-01 00:00:00"),
        ("00-12-31 11:30:45", UN_SPECIFIED_FSP, "2000-12-31 11:30:45"),
        ("12-12-31 11:30:45", UN_SPECIFIED_FSP, "2012-12-31 11:30:45"),
        ("2012-12-31", UN_SPECIFIED_FSP, "2012-12-31 00:00:00"),
        ("20121231", UN_SPECIFIED_FSP, "2012-12-31 00:00:00"),
        ("121231", UN_SPECIFIED_FSP, "2012-12-31 00:00:00"),
        ("2012^12^31 11+30+45", UN_SPECIFIED_FSP, "2012-12-31 11:30:45"),
        ("2012^12^31T11+30+45", UN_SPECIFIED_FSP, "2012-12-31 11:30:45"),
        ("2012-2-1 11:30:45", UN_SPECIFIED_FSP, "2012-02-01 11:30:45"),
        ("12-2-1 11:30:45", UN_SPECIFIED_FSP, "2012-02-01 11:30:45"),
        ("20121231113045", UN_SPECIFIED_FSP, "2012-12-31 11:30:45"),
        ("121231113045", UN_SPECIFIED_FSP, "2012-12-31 11:30:45"),
        ("2012-02-29", UN_SPECIFIED_FSP, "2012-02-29 00:00:00"),
        ("121231113045.123345", 6, "2012-12-31 11:30:45.123345"),
        ("20121231113045.123345", 6, "2012-12-31 11:30:45.123345"),
        ("121231113045.9999999", 6, "2012-12-31 11:30:46.000000"),
        ("121231113045.999999", 6, "2012-12-31 11:30:45.999999"),
        ("121231113045.999999", 5, "2012-12-31 11:30:46.00000"),
    ];

    for (input, fsp, exp) in ok_tables {
        let utc_t = Time::parse_utc_datetime(input, fsp).unwrap();
        assert_eq!(utc_t.to_string(), exp);

        for mut offset in MIN_OFFSET..MAX_OFFSET {
            offset *= 60;
            let t = Time::parse_datetime(input, fsp, offset).unwrap();
            if utc_t.is_zero() {
                assert!(t.eq(&utc_t));
            } else {
                let exp_t = Time::new(
                    shift_seconds(utc_t.local, -(offset as i64)),
                    0,
                    utc_t.tp,
                    utc_t.fsp as i8,
                )
                .unwrap();
                assert!(exp_t.eq(&t), "{:?} {:?}", exp_t, t);
            }
        }
    }

    let fail_tbl = vec![
        "1000-00-00 00:00:00",
        "1000-01-01 00:00:70",
        "1000-13-00 00:00:00",
        "10000-01-01 00:00:00",
        "1000-09-31 00:00:00",
        "1001-02-29 00:00:00",
    ];

    for t in fail_tbl {
        assert!(Time::parse_datetime(t, 0, 0).is_err(), "{}", t);
    }
}

#[test]
fn test_codec() {
    let cases = vec![
        ("2010-10-10 10:11:11", 0),
        ("0001-01-01 00:00:00", 0),
        ("0001-01-01 00:00:00", UN_SPECIFIED_FSP),
        ("2000-01-01 00:00:00.000000", MAX_FSP),
        ("2000-01-01 00:00:00.123456", MAX_FSP),
        ("0001-01-01 00:00:00.123456", MAX_FSP),
        ("2000-06-01 00:00:00.999999", MAX_FSP),
    ];
    for (s, fsp) in cases {
        for mut offset in MIN_OFFSET..MAX_OFFSET {
            offset *= 60;
            let t = Time::parse_datetime(s, fsp, offset).unwrap();
            let packed = t.to_packed_u64();
            let reverted_datetime = Time::from_packed_u64(packed, DATETIME, fsp, offset).unwrap();
            assert!(reverted_datetime.eq(&t));
            assert_eq!(reverted_datetime.to_packed_u64(), packed);

            let reverted_timestamp = Time::from_packed_u64(packed, TIMESTAMP, fsp, offset).unwrap();
            assert_eq!(
                reverted_timestamp.to_instant(),
                shift_seconds(reverted_datetime.to_instant(), offset as i64)
            );
            assert_eq!(reverted_timestamp.to_packed_u64(), packed);
        }
    }
}

#[test]
fn test_to_dec() {
    let cases = vec![
        ("12-12-31 11:30:45", 0, "20121231113045", "20121231"),
        ("12-12-31 11:30:45", 6, "20121231113045.000000", "20121231"),
        ("12-12-31 11:30:45.123", 6, "20121231113045.123000", "20121231"),
        ("12-12-31 11:30:45.123345", 0, "20121231113045", "20121231"),
        ("12-12-31 11:30:45.123345", 3, "20121231113045.123", "20121231"),
        ("12-12-31 11:30:45.123345", 5, "20121231113045.12335", "20121231"),
        ("12-12-31 11:30:45.123345", 6, "20121231113045.123345", "20121231"),
        ("12-12-31 11:30:45.1233457", 6, "20121231113045.123346", "20121231"),
        ("12-12-31 11:30:45.823345", 0, "20121231113046", "20121231"),
    ];

    for (t_str, fsp, datetime_dec, date_dec) in cases {
        for mut offset in MIN_OFFSET..MAX_OFFSET {
            offset *= 60;
            let mut t = Time::parse_datetime(t_str, fsp, offset).unwrap();
            let mut res = dec_text(&t);
            assert_eq!(res, datetime_dec);

            t = Time::parse_datetime(t_str, 0, offset).unwrap();
            t.tp = DATE;
            res = dec_text(&t);
            assert_eq!(res, date_dec);
        }
    }
}

#[test]
fn test_compare() {
    let cases = vec![
        ("2011-10-10 11:11:11", "2011-10-10 11:11:11", Ordering::Equal),
        ("2011-10-10 11:11:11.123456", "2011-10-10 11:11:11.1", Ordering::Greater),
        ("2011-10-10 11:11:11", "2011-10-10 11:11:11.123", Ordering::Less),
        ("0000-00-00 00:00:00", "2011-10-10 11:11:11", Ordering::Less),
        ("0000-00-00 00:00:00", "0000-00-00 00:00:00", Ordering::Equal),
    ];

    for (l, r, exp) in cases {
        for mut offset in MIN_OFFSET..MAX_OFFSET {
            offset *= 60;
            let l_t = Time::parse_datetime(l, MAX_FSP, offset).unwrap();
            let r_t = Time::parse_datetime(r, MAX_FSP, offset).unwrap();
            assert_eq!(exp, l_t.cmp(&r_t));
        }
    }
}

#[test]
fn test_parse_datetime_format() {
    let cases: Vec<(&str, Vec<&str>)> = vec![
        ("2011-11-11 10:10:10.123456", vec!["2011", "11", "11", "10", "10", "10", "123456"]),
        ("  2011-11-11 10:10:10.123456  ", vec!["2011", "11", "11", "10", "10", "10", "123456"]),
        ("2011-11-11 10", vec!["2011", "11", "11", "10"]),
        ("2011-11-11T10:10:10.123456", vec!["2011", "11", "11", "10", "10", "10", "123456"]),
        ("2011:11:11T10:10:10.123456", vec!["2011", "11", "11", "10", "10", "10", "123456"]),
        ("xx2011-11-11 10:10:10", vec![]),
        ("T10:10:10", vec![]),
        ("2011-11-11x", vec![]),
        ("2011-11-11  10:10:10", vec![]),
        ("xxx 10:10:10", vec![]),
    ];

    for (s, exp) in cases {
        let res = parse_datetime_format(s.as_bytes());
        let exp: Vec<Vec<u8>> = exp.iter().map(|p| p.as_bytes().to_vec()).collect();
        assert_eq!(res, exp);
    }
}

#[test]
fn test_round_frac() {
    let ok_tables = vec![
        ("2012-12-31 11:30:45", UN_SPECIFIED_FSP, "2012-12-31 11:30:45"),
        ("0000-00-00 00:00:00", UN_SPECIFIED_FSP, "0000-00-00 00:00:00"),
        ("0001-01-01 00:00:00", UN_SPECIFIED_FSP, "0001-01-01 00:00:00"),
        ("00-12-31 11:30:45", UN_SPECIFIED_FSP, "2000-12-31 11:30:45"),
        ("12-12-31 11:30:45", UN_SPECIFIED_FSP, "2012-12-31 11:30:45"),
        ("2012-12-31", UN_SPECIFIED_FSP, "2012-12-31 00:00:00"),
        ("20121231", UN_SPECIFIED_FSP, "2012-12-31 00:00:00"),
        ("121231", UN_SPECIFIED_FSP, "2012-12-31 00:00:00"),
        ("2012^12^31 11+30+45", UN_SPECIFIED_FSP, "2012-12-31 11:30:45"),
        ("2012^12^31T11+30+45", UN_SPECIFIED_FSP, "2012-12-31 11:30:45"),
        ("2012-2-1 11:30:45", UN_SPECIFIED_FSP, "2012-02-01 11:30:45"),
        ("12-2-1 11:30:45", UN_SPECIFIED_FSP, "2012-02-01 11:30:45"),
        ("20121231113045", UN_SPECIFIED_FSP, "2012-12-31 11:30:45"),
        ("121231113045", UN_SPECIFIED_FSP, "2012-12-31 11:30:45"),
        ("2012-02-29", UN_SPECIFIED_FSP, "2012-02-29 00:00:00"),
        ("121231113045.123345", 6, "2012-12-31 11:30:45.123345"),
        ("20121231113045.123345", 6, "2012-12-31 11:30:45.123345"),
        ("121231113045.9999999", 6, "2012-12-31 11:30:46.000000"),
        ("121231113045.999999", 6, "2012-12-31 11:30:45.999999"),
        ("121231113045.999999", 5, "2012-12-31 11:30:46.00000"),
        ("2012-12-31 11:30:45.123456", 4, "2012-12-31 11:30:45.1235"),
        ("2012-12-31 11:30:45.123456", 6, "2012-12-31 11:30:45.123456"),
        ("2012-12-31 11:30:45.123456", 0, "2012-12-31 11:30:45"),
        ("2012-12-31 11:30:45.123456", 1, "2012-12-31 11:30:45.1"),
        ("2012-12-31 11:30:45.999999", 4, "2012-12-31 11:30:46.0000"),
        ("2012-12-31 11:30:45.999999", 0, "2012-12-31 11:30:46"),
        ("2012-12-31 23:59:59.999999", 0, "2013-01-01 00:00:00"),
        ("2012-12-31 23:59:59.999999", 3, "2013-01-01 00:00:00.000"),
    ];

    for (input, fsp, exp) in ok_tables {
        let mut utc_t = Time::parse_utc_datetime(input, UN_SPECIFIED_FSP).unwrap();
        utc_t.round_frac(fsp).unwrap();
        let expect = Time::parse_utc_datetime(exp, UN_SPECIFIED_FSP).unwrap();
        assert!(
            utc_t.eq(&expect),
            "input:{:?}, exp:{:?}, utc_t:{:?}, expect:{:?}",
            input,
            exp,
            utc_t,
            expect
        );

        for mut offset in MIN_OFFSET..MAX_OFFSET {
            offset *= 60;
            let mut t = Time::parse_datetime(input, UN_SPECIFIED_FSP, offset).unwrap();
            t.round_frac(fsp).unwrap();
            let expect = Time::parse_datetime(exp, UN_SPECIFIED_FSP, offset).unwrap();
            assert!(
                t.eq(&expect),
                "tz:{:?},input:{:?}, exp:{:?}, utc_t:{:?}, expect:{:?}",
                offset,
                input,
                exp,
                t,
                expect
            );
        }
    }
}

#[test]
fn test_set_tp() {
    let cases = vec![
        ("2011-11-11 10:10:10.123456", "2011-11-11"),
        ("  2011-11-11 23:59:59", "2011-11-11"),
    ];

    for (s, exp) in cases {
        let mut res = Time::parse_utc_datetime(s, UN_SPECIFIED_FSP).unwrap();
        res.set_tp(DATE).unwrap();
        res.set_tp(DATETIME).unwrap();
        let ep = Time::parse_utc_datetime(exp, UN_SPECIFIED_FSP).unwrap();
        assert!(res.eq(&ep));
        let res = res.set_tp(TIMESTAMP);
        assert!(res.is_err());
    }
}

#[test]
fn two_digit_years_split_at_seventy() {
    let cases = vec![
        ("69-01-01", 2069),
        ("70-01-01", 1970),
        ("99-01-01", 1999),
        ("00-01-01", 2000),
        ("690101", 2069),
        ("700101123000", 1970),
    ];
    for (s, year) in cases {
        let t = Time::parse_utc_datetime(s, 0).unwrap();
        assert_eq!(t.local.year, year, "{}", s);
    }
}

#[test]
fn fraction_overflow_carries_into_seconds() {
    let t = Time::parse_utc_datetime("121231113045.9999999", 6).unwrap();
    assert_eq!(t.to_string(), "2012-12-31 11:30:46.000000");
}

#[test]
fn rounding_rolls_over_the_year() {
    let mut t = Time::parse_utc_datetime("2012-12-31 23:59:59.999999", 6).unwrap();
    t.round_frac(0).unwrap();
    assert_eq!(t.to_string(), "2013-01-01 00:00:00");
    assert_eq!(t.fsp, 0);
}

#[test]
fn rounding_to_own_precision_changes_nothing() {
    let mut t = Time::parse_utc_datetime("2012-12-31 11:30:45.123456", 6).unwrap();
    let before = t;
    t.round_frac(6).unwrap();
    assert_eq!(t.local, before.local);
    assert_eq!(t.fsp, before.fsp);
}

#[test]
fn rounding_past_year_9999_overflows() {
    let mut t = Time::parse_utc_datetime("9999-12-31 23:59:59.999999", 6).unwrap();
    assert!(t.round_frac(0).is_err());
    assert_eq!(t.to_string(), "9999-12-31 23:59:59.999999");
}

#[test]
fn zero_time_is_earliest() {
    for s in ["0000-00-00", "0000-00-00 00:00:00", "00000000000000", "00000000", "00-00-00", "000000", "000000000000"] {
        let z = Time::parse_datetime(s, 6, 3600).unwrap();
        assert!(z.is_zero(), "{}", s);
        let real = Time::parse_datetime("0000-01-01 00:00:00", 6, -3600).unwrap();
        assert_eq!(z.cmp(&real), Ordering::Less);
        assert_eq!(real.cmp(&z), Ordering::Greater);
    }
    let z = Time::parse_utc_datetime("0000-00-00", 0).unwrap();
    assert_eq!(z.to_string(), "0000-00-00 00:00:00");
    assert_eq!(z.to_packed_u64(), 0);
    assert_eq!(dec_text(&z), "0");
}

#[test]
fn packed_round_trip_keeps_instant() {
    let t = Time::parse_datetime("2000-06-01 00:00:00.999999", 6, 8 * 3600).unwrap();
    let u = t.to_packed_u64();
    let dt = Time::from_packed_u64(u, DATETIME, 6, 8 * 3600).unwrap();
    assert!(dt.eq(&t));
    assert_eq!(dt.local, t.local);
    let ts = Time::from_packed_u64(u, TIMESTAMP, 6, 8 * 3600).unwrap();
    assert_eq!(ts.to_instant(), shift_seconds(t.to_instant(), 8 * 3600));
    let expect: u64 = ((((2000u64 * 13 + 6) << 5 | 1) << 17) << 24) | 999999;
    assert_eq!(u, expect);
}

#[test]
fn packed_value_with_bad_fields_is_refused() {
    // month 13
    let u: u64 = (((2000u64 * 13 + 12) << 5 | 1) << 17) << 24;
    assert!(Time::from_packed_u64(u + ((1u64 << 5) << 41), DATETIME, 0, 0).is_err());
    // hour 24
    let bad_hour: u64 = ((((2000u64 * 13 + 6) << 5 | 1) << 17) | (24 << 12)) << 24;
    assert!(Time::from_packed_u64(bad_hour, DATETIME, 0, 0).is_err());
    assert!(Time::from_packed_u64(0, DATETIME, 7, 0).is_err());
}

#[test]
fn parse_rejects_bad_input() {
    for s in ["", "   ", "2012-12", "2012-12-31 11:30", "12345", "2012-12-31 11:30:45:1:2", "20121231.5"] {
        assert!(Time::parse_utc_datetime(s, 0).is_err(), "{:?}", s);
    }
    assert!(Time::parse_utc_datetime("2012-12-31", 7).is_err());
    assert!(Time::parse_utc_datetime("2012-12-31", -2).is_err());
}

#[test]
fn render_parse_round_trip() {
    for s in ["2012-12-31 11:30:45.123456", "0001-02-03 04:05:06.7", "1999-09-09 09:09:09"] {
        let t = Time::parse_utc_datetime(s, 6).unwrap();
        let again = Time::parse_utc_datetime(&t.to_string(), 6).unwrap();
        assert!(again.eq(&t));
        assert_eq!(again.local, t.local);
        assert_eq!((again.tp, again.fsp, again.tz), (t.tp, t.fsp, t.tz));
        assert_eq!(again.to_string(), t.to_string());
    }
}

#[test]
fn date_renders_without_time() {
    let mut t = Time::parse_utc_datetime("2011-11-11 10:10:10", 0).unwrap();
    t.set_tp(DATE).unwrap();
    assert_eq!(t.to_string(), "2011-11-11");
    assert_eq!(t.local, CivilTime { year: 2011, month: 11, day: 11, hour: 0, minute: 0, second: 0, nanos: 0 });
}

fn nanos_of(h: i64, m: i64, s: i64, frac_nanos: i64) -> i64 {
    ((h * 3600 + m * 60 + s) * 1_000_000_000) + frac_nanos
}

#[test]
fn test_from_duration() {
    let cases = vec![nanos_of(11, 30, 45, 123_456_000), -nanos_of(35, 30, 46, 0)];
    for n in cases {
        let d = tikv::datum::Duration::from_nanos(n, MAX_FSP).unwrap();
        let get = Time::from_duration(0, DATETIME, &d).unwrap();
        let l = get.local;
        let dt = NaiveDate::from_ymd_opt(l.year, l.month, l.day)
            .unwrap()
            .and_hms_nano_opt(l.hour, l.minute, l.second, l.nanos)
            .unwrap();
        let get_today = dt.checked_sub_signed(chrono::Duration::nanoseconds(d.to_nanos())).unwrap();
        let now = Utc::now();
        assert_eq!(get_today.year(), now.year());
        assert_eq!(get_today.month(), now.month());
        assert_eq!(get_today.day(), now.day());
        assert_eq!(chrono::Timelike::hour(&get_today), 0);
        assert_eq!(chrono::Timelike::minute(&get_today), 0);
        assert_eq!(chrono::Timelike::second(&get_today), 0);
    }
}

#[test]
fn from_duration_on_a_given_day() {
    let d = tikv::datum::Duration::from_nanos(-nanos_of(35, 30, 46, 0), 6).unwrap();
    let t = Time::from_duration_on(2012, 3, 1, 0, DATETIME, &d).unwrap();
    assert_eq!(t.to_string(), "2012-02-28 12:29:14.000000");
    let t = Time::from_duration_on(2012, 3, 1, 0, DATE, &d).unwrap();
    assert_eq!(t.to_string(), "2012-02-28");
    let d = tikv::datum::Duration::from_nanos(nanos_of(24, 0, 0, 1), 0).unwrap();
    let t = Time::from_duration_on(2012, 12, 31, 0, DATETIME, &d).unwrap();
    assert_eq!(t.to_string(), "2013-01-01 00:00:00");
    assert!(Time::from_duration_on(999, 12, 31, 0, DATETIME, &tikv::datum::Duration::zero()).is_err());
}

#[test]
fn test_convert_to_duration() {
    let cases = vec![
        ("2012-12-31 11:30:45.123456", 4, "11:30:45.1235"),
        ("2012-12-31 11:30:45.123456", 6, "11:30:45.123456"),
        ("2012-12-31 11:30:45.123456", 0, "11:30:45"),
        ("2012-12-31 11:30:45.999999", 0, "11:30:46"),
        ("2017-01-05 08:40:59.575601", 0, "08:41:00"),
        ("2017-01-05 23:59:59.575601", 0, "00:00:00"),
        ("0000-00-00 00:00:00", 6, "00:00:00"),
    ];
    for (s, fsp, expect) in cases {
        let t = Time::parse_utc_datetime(s, fsp).unwrap();
        let du = t.to_duration().unwrap();
        let get = du.to_string();
        assert_eq!(get, expect);
    }
}

#[test]
fn duration_text_forms() {
    let d = tikv::datum::Duration::from_nanos(-nanos_of(135, 2, 3, 450_000_000), 2).unwrap();
    assert_eq!(d.to_string(), "-135:02:03.45");
    assert!(tikv::datum::Duration::from_nanos(0, 9).is_err());
}

#[test]
fn decimal_text_has_no_leading_zeros() {
    let t = Time::parse_utc_datetime("0012-01-02 03:04:05.5", 1).unwrap();
    assert_eq!(dec_text(&t), "120102030405.5");
    let mut d = Time::parse_utc_datetime("0000-01-01", 0).unwrap();
    d.set_tp(DATE).unwrap();
    assert_eq!(dec_text(&d), "101");
}
