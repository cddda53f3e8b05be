use utime::calendar::leap_year;
use utime::Utime;

#[test]
fn test_leap_year_macro() {
    assert!(!leap_year(1970));
    assert!(leap_year(1972));
    assert!(leap_year(1992));
    assert!(!leap_year(1994));
    assert!(leap_year(2000));
    assert!(leap_year(2088));
    assert!(!leap_year(2100))
}

#[test]
fn test_timestamp_from_date_1() {
    let t = Utime::from_date_time(1970, 1, 1, 0, 0, 0, 0).unwrap();
    assert!(t.as_seconds() == 0);
}

#[test]
fn test_timestamp_from_date_2() {
    let t = Utime::from_date_time(1971, 1, 1, 0, 0, 0, 0).unwrap();
    assert!(t.as_seconds() == 31536000);
}

#[test]
fn test_timestamp_from_date_3() {
    let t = Utime::from_date_time(1972, 1, 1, 0, 0, 0, 0).unwrap();
    assert!(t.as_seconds() == 63072000);
}

#[test]
fn test_timestamp_from_date_4() {
    let t = Utime::from_date_time(1973, 1, 1, 0, 0, 0, 0).unwrap();
    assert!(t.as_seconds() == 94694400);
}

#[test]
fn test_timestamp_from_date_5() {
    let t = Utime::from_date_time(1974, 1, 1, 0, 0, 0, 0).unwrap();
    assert!(t.as_seconds() == 126230400);
}

#[test]
fn test_timestamp_from_date_6() {
    let t = Utime::from_date_time(1976, 1, 1, 0, 0, 0, 0).unwrap();
    assert!(t.as_seconds() == 189302400);
}

#[test]
fn test_timestamp_from_date_century() {
    let t = Utime::from_date_time(2000, 1, 1, 0, 0, 0, 0).unwrap();
    assert!(t.as_seconds() == 946684800);
}

#[test]
fn test_timestamp_from_date_century_1() {
    let t = Utime::from_date_time(2002, 1, 1, 0, 0, 0, 0).unwrap();
    assert!(t.as_seconds() == 1009843200);
}

#[test]
fn test_timestamp_from_date_century_2() {
    let t = Utime::from_date_time(2150, 1, 1, 0, 0, 0, 0).unwrap();
    assert!(t.as_seconds() == 5680281600);
}

#[test]
fn test_timestamp_from_date_time() {
    let t = Utime::from_date_time(2150, 2, 2, 23, 11, 30, 0).unwrap();
    assert!(t.as_seconds() == 5683129890);
}

#[test]
fn test_get_components() {
    let t = Utime::from_date_time(2150, 2, 2, 23, 11, 30, 0).unwrap();
    let (year, month, day, hour, minute, second, microsecond) = t.to_components();
    assert!(year == 2150);
    assert!(month == 2);
    assert!(day == 2);
    assert!(hour == 23);
    assert!(minute == 11);
    assert!(second == 30);
    assert!(microsecond == 0);
}

#[test]
fn test_get_components_1() {
    let t = Utime::from_date_time(1971, 1, 1, 0, 11, 30, 0).unwrap();
    let (year, month, day, hour, minute, second, microsecond) = t.to_components();
    assert!(year == 1971);
    assert!(month == 1);
    assert!(day == 1);
    assert!(hour == 0);
    assert!(minute == 11);
    assert!(second == 30);
    assert!(microsecond == 0);
}

#[test]
fn test_iso_8601_datetime() {
    let t = Utime::from_date_time(2150, 2, 2, 3, 1, 5, 30000).unwrap();
    let tstr = t.as_iso_8601_datetime();
    assert!(tstr == "2150-02-02T03:01:05.030Z")
}

#[test]
fn test_iso_8601_date() {
    let t = Utime::from_date_time(2150, 2, 2, 3, 1, 5, 30000).unwrap();
    let tstr = t.as_iso_8601_date();
    assert!(tstr == "2150-02-02")
}

#[test]
fn test_parse_iso_8601_datetime() {
    let t = Utime::from_date_time(2150, 2, 2, 3, 1, 5, 30000).unwrap();
    let tstr = t.as_iso_8601_datetime();
    assert!(tstr == "2150-02-02T03:01:05.030Z");
    let t1 = Utime::from_iso_3601_datetime(tstr).unwrap();
    let (year, month, day, hour, minute, second, microsecond) = t1.to_components();
    assert!(year == 2150);
    assert!(month == 2);
    assert!(day == 2);
    assert!(hour == 3);
    assert!(minute == 1);
    assert!(second == 5);
    assert!(microsecond == 30000);
}
