use utime::Utime;

#[test]
fn epoch_is_zero() {
    let t = Utime::new();
    assert!(t.is_zero());
    assert_eq!(t.as_micros(), 0);
    assert_eq!(t.as_milis(), 0);
    assert_eq!(t.as_seconds(), 0);
    assert_eq!(t.as_iso_8601_datetime(), "1970-01-01T00:00:00.000Z");
    assert_eq!(t.as_iso_8601_date(), "1970-01-01");
}

#[test]
fn now_is_after_epoch() {
    let t = Utime::now();
    assert!(!t.is_zero());
}

#[test]
fn unit_conversions_truncate() {
    let t = Utime::from_date_time(1970, 1, 1, 0, 0, 1, 999999).unwrap();
    assert_eq!(t.as_micros(), 1999999);
    assert_eq!(t.as_milis(), 1999);
    assert_eq!(t.as_seconds(), 1);
}

#[test]
fn rejects_pre_epoch_year() {
    assert!(Utime::from_date_time(1969, 12, 31, 23, 59, 59, 0).is_err());
}

#[test]
fn rejects_month_bounds() {
    assert!(Utime::from_date_time(2020, 0, 1, 0, 0, 0, 0).is_err());
    assert!(Utime::from_date_time(2020, 13, 1, 0, 0, 0, 0).is_err());
}

#[test]
fn rejects_time_bounds() {
    assert!(Utime::from_date_time(2020, 1, 1, 24, 0, 0, 0).is_err());
    assert!(Utime::from_date_time(2020, 1, 1, 0, 60, 0, 0).is_err());
    assert!(Utime::from_date_time(2020, 1, 1, 0, 0, 60, 0).is_err());
    assert!(Utime::from_date_time(2020, 1, 1, 0, 0, 0, 1000000).is_err());
}

#[test]
fn rejects_day_bounds() {
    assert!(Utime::from_date_time(2020, 1, 0, 0, 0, 0, 0).is_err());
    assert!(Utime::from_date_time(2020, 1, 32, 0, 0, 0, 0).is_err());
    assert!(Utime::from_date_time(2021, 4, 31, 0, 0, 0, 0).is_err());
}

#[test]
fn feb_29_only_in_leap_years() {
    assert!(Utime::from_date_time(2020, 2, 29, 0, 0, 0, 0).is_ok());
    assert!(Utime::from_date_time(2000, 2, 29, 0, 0, 0, 0).is_ok());
    assert!(Utime::from_date_time(2021, 2, 29, 0, 0, 0, 0).is_err());
    assert!(Utime::from_date_time(2100, 2, 29, 0, 0, 0, 0).is_err());
    assert!(Utime::from_date_time(2020, 2, 30, 0, 0, 0, 0).is_err());
}

#[test]
fn century_2100_is_not_leap() {
    let t = Utime::from_date_time(2100, 1, 1, 0, 0, 0, 0).unwrap();
    assert_eq!(t.as_seconds(), 4102444800);
    let u = Utime::from_date_time(2101, 1, 1, 0, 0, 0, 0).unwrap();
    assert_eq!(u.as_seconds(), 4102444800 + 365 * 86400);
}

#[test]
fn civil_round_trip_samples() {
    let cases = [
        (1970, 1, 1, 0, 0, 0, 0),
        (1971, 12, 31, 23, 59, 59, 999999),
        (1972, 12, 31, 0, 0, 0, 0),
        (1972, 1, 1, 0, 0, 0, 0),
        (1971, 2, 28, 12, 30, 15, 123456),
        (1971, 12, 3, 1, 2, 3, 4),
        (2000, 2, 29, 23, 0, 0, 1),
        (2023, 7, 31, 23, 59, 59, 999999),
        (2100, 3, 1, 6, 7, 8, 9),
        (9999, 12, 31, 23, 59, 59, 999999),
    ];
    for &(y, mo, d, h, mi, s, us) in cases.iter() {
        let t = Utime::from_date_time(y, mo, d, h, mi, s, us).unwrap();
        assert_eq!(t.to_components(), (y, mo, d, h, mi, s, us));
    }
}

#[test]
fn increasing_fields_increases_timestamp() {
    let base = Utime::from_date_time(2020, 6, 15, 10, 30, 30, 500000).unwrap();
    let next_day = Utime::from_date_time(2020, 6, 16, 10, 30, 30, 500000).unwrap();
    let next_month = Utime::from_date_time(2020, 7, 15, 10, 30, 30, 500000).unwrap();
    let next_year = Utime::from_date_time(2021, 6, 15, 10, 30, 30, 500000).unwrap();
    assert!(base.as_micros() < next_day.as_micros());
    assert!(next_day.as_micros() < next_month.as_micros());
    assert!(next_month.as_micros() < next_year.as_micros());
}

#[test]
fn text_round_trip_truncates_to_milliseconds() {
    let t = Utime::from_date_time(2023, 7, 31, 23, 59, 59, 123456).unwrap();
    let s = t.as_iso_8601_datetime();
    assert_eq!(s, "2023-07-31T23:59:59.123Z");
    let u = Utime::from_iso_3601_datetime(s).unwrap();
    assert_eq!(u.as_micros(), (t.as_micros() / 1000) * 1000);
    assert_eq!(u.to_components(), (2023, 7, 31, 23, 59, 59, 123000));
}

#[test]
fn parse_accepts_plain_fields() {
    let t = Utime::from_iso_3601_datetime(String::from("1970-1-1T0:0:0Z")).unwrap();
    assert!(t.is_zero());
    let u = Utime::from_iso_3601_datetime(String::from("2150-02-02T03:01:05.030Z")).unwrap();
    assert_eq!(u.to_components(), (2150, 2, 2, 3, 1, 5, 30000));
    let v = Utime::from_iso_3601_datetime(String::from("2150-02-02T03:01:05.Z")).unwrap();
    assert_eq!(v.to_components(), (2150, 2, 2, 3, 1, 5, 0));
    let w = Utime::from_iso_3601_datetime(String::from("2150-02-02T03:01:05.0301239Z")).unwrap();
    assert_eq!(w.to_components(), (2150, 2, 2, 3, 1, 5, 30123));
}

#[test]
fn parse_rejects_malformed_text() {
    let bad = [
        "",
        "2150-02-02",
        "2150-02-02 03:01:05.030Z",
        "2150-02-02T03:01:05.030",
        "2150/02/02T03:01:05.030Z",
        "2150-02T03:01:05.030Z",
        "2150-02-02-03T03:01:05.030Z",
        "2150-02-02T03:01Z",
        "2150-02-02T03:01:05:06.030Z",
        "2150-xx-02T03:01:05.030Z",
        "2150-02-02T03:01:05.03.0Z",
        "2150-02-02T03:01:Z",
        "-02-02T03:01:05.030Z",
        "2150-02-02T03:01:05.a30Z",
        "99999999999999999999-02-02T03:01:05.030Z",
    ];
    for s in bad.iter() {
        assert!(Utime::from_iso_3601_datetime(String::from(*s)).is_err());
    }
}

#[test]
fn parse_rejects_out_of_range_fields() {
    assert!(Utime::from_iso_3601_datetime(String::from("1969-02-02T03:01:05.030Z")).is_err());
    assert!(Utime::from_iso_3601_datetime(String::from("2150-13-02T03:01:05.030Z")).is_err());
    assert!(Utime::from_iso_3601_datetime(String::from("2150-02-30T03:01:05.030Z")).is_err());
    assert!(Utime::from_iso_3601_datetime(String::from("2150-02-02T24:01:05.030Z")).is_err());
    assert!(Utime::from_iso_3601_datetime(String::from("2150-02-02T03:60:05.030Z")).is_err());
    assert!(Utime::from_iso_3601_datetime(String::from("2150-02-02T03:01:60.030Z")).is_err());
}

#[test]
fn far_future_dates_overflow() {
    // the microsecond scale ends a little under six hundred thousand years on
    assert!(Utime::from_date_time(586000, 1, 1, 0, 0, 0, 0).is_ok());
    assert!(Utime::from_date_time(599999, 1, 1, 0, 0, 0, 0).is_err());
    assert!(Utime::from_date_time(600000, 1, 1, 0, 0, 0, 0).is_err());
    assert!(Utime::from_date_time(u64::MAX, 1, 1, 0, 0, 0, 0).is_err());
}

#[test]
fn date_only_format_pads_fields() {
    let t = Utime::from_date_time(1999, 3, 7, 4, 5, 6, 7).unwrap();
    assert_eq!(t.as_iso_8601_date(), "1999-03-07");
    assert_eq!(t.as_iso_8601_datetime(), "1999-03-07T04:05:06.000Z");
}
