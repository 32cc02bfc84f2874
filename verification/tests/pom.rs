use lib::parse::{parse_i32, parse_i64, split3_exec};
use lib::pom::{
    apply_date, apply_time, break_down, current_fields, epoch_days, isleap, moon_time, pom_time, timestamp_of,
    MoonTime, TmFields,
};

#[test]
fn leap_years() {
    assert!(isleap(2000));
    assert!(!isleap(1900));
    assert!(isleap(2024));
    assert!(!isleap(2023));
    assert!(isleap(-4));
    assert!(!isleap(-100));
}

#[test]
fn breaking_down_timestamps() {
    let b = break_down(0);
    assert_eq!((b.year, b.yday, b.hour, b.min, b.sec), (1970, 0, 0, 0, 0));
    let b = break_down(86400 * 365);
    assert_eq!((b.year, b.yday), (1971, 0));
    let b = break_down(951782400 + 3723);
    assert_eq!((b.year, b.yday, b.hour, b.min, b.sec), (2000, 59, 1, 2, 3));
    let b = break_down(-1);
    assert_eq!((b.year, b.yday, b.hour, b.min, b.sec), (1970, 0, 0, 0, -1));
}

fn fields(year: i32, mon: i32, mday: i32, hour: i64, min: i64, sec: i64) -> TmFields {
    TmFields { year, mon, mday, hour, min, sec }
}

#[test]
fn timestamps_from_fields() {
    assert_eq!(timestamp_of(fields(100, 1, 29, 0, 0, 0)), Some(951782400));
    assert_eq!(timestamp_of(fields(70, 0, 1, 0, 0, 0)), Some(0));
    assert_eq!(timestamp_of(fields(60, 0, 1, 0, 0, 0)), Some(0));
    assert_eq!(timestamp_of(fields(100, 12, 1, 0, 0, 0)), Some(951782400 - 59 * 86400 + 366 * 86400));
    assert_eq!(timestamp_of(fields(100, 13, 1, 0, 0, 0)), None);
    assert_eq!(timestamp_of(fields(100, -1, 1, 0, 0, 0)), None);
    assert_eq!(timestamp_of(fields(100, 0, i32::MIN, 0, 0, 0)), None);
    assert_eq!(timestamp_of(fields(100, 0, 1, i64::MAX, 0, 0)), None);
}

#[test]
fn defaults_take_the_day_of_the_year_as_the_day() {
    let f = current_fields(86400 * 40 + 3661);
    assert_eq!(f, Some(fields(70, 12, 41, 1, 1, 1)));
    let f = current_fields(86400 * 10);
    assert_eq!(f, Some(fields(70, 0, 11, 0, 0, 0)));
    let f = current_fields(-86400 * 2);
    assert_eq!(f, Some(fields(70, 0, -1, 0, 0, 0)));
}

#[test]
fn applying_dates_and_times() {
    let f = fields(70, 0, 1, 5, 6, 7);
    assert_eq!(apply_date(f, b"2000.2.29"), Some(fields(100, 1, 29, 5, 6, 7)));
    assert_eq!(apply_date(f, b"2000.x.29"), Some(fields(100, -1, 29, 5, 6, 7)));
    assert_eq!(apply_date(f, b"2000.2"), Some(f));
    assert_eq!(apply_date(f, b"1.2.3.4"), Some(f));
    assert_eq!(apply_date(f, b"-2147483648.1.1"), None);
    assert_eq!(apply_time(f, b"12:30:00"), fields(70, 0, 1, 12, 30, 0));
    assert_eq!(apply_time(f, b"12:30"), f);
    assert_eq!(apply_time(f, b"a:b:c"), f);
}

#[test]
fn moment_for_the_phase() {
    let t = pom_time(0, Some(b"2000.2.29"), Some(b"12:00:00"));
    assert_eq!(t, Some(MoonTime { year: 100, yday: 59, hour: 12, min: 0, sec: 0 }));
    assert_eq!(pom_time(951782400, None, None), moon_time(951782400));
    assert_eq!(moon_time(0), Some(MoonTime { year: 70, yday: 0, hour: 0, min: 0, sec: 0 }));
    assert_eq!(pom_time(0, Some(b"2000.13.1"), None), Some(MoonTime { year: 101, yday: 0, hour: 0, min: 0, sec: 0 }));
    assert_eq!(pom_time(0, Some(b"2000.14.1"), None), None);
}

#[test]
fn round_trip_of_a_date() {
    let t = timestamp_of(fields(124, 6, 4, 23, 59, 58)).unwrap();
    let b = break_down(t);
    assert_eq!((b.year, b.yday, b.hour, b.min, b.sec), (2024, 31 + 29 + 31 + 30 + 31 + 30 + 3, 23, 59, 58));
}

#[test]
fn reading_integers() {
    assert_eq!(parse_i32(b"+5"), Some(5));
    assert_eq!(parse_i32(b"-0"), Some(0));
    assert_eq!(parse_i32(b"007"), Some(7));
    assert_eq!(parse_i32(b""), None);
    assert_eq!(parse_i32(b"-"), None);
    assert_eq!(parse_i32(b" 5"), None);
    assert_eq!(parse_i32(b"2147483647"), Some(i32::MAX));
    assert_eq!(parse_i32(b"2147483648"), None);
    assert_eq!(parse_i32(b"-2147483648"), Some(i32::MIN));
    assert_eq!(parse_i64(b"-9223372036854775808"), Some(i64::MIN));
    assert_eq!(parse_i64(b"99999999999999999999999"), None);
    for s in ["12", "-3", "+44", "x", "1.5", "00000000000000000000000000001"] {
        assert_eq!(parse_i32(s.as_bytes()), s.parse::<i32>().ok());
        assert_eq!(parse_i64(s.as_bytes()), s.parse::<i64>().ok());
    }
}

#[test]
fn splitting_three_fields() {
    assert_eq!(split3_exec(b"a.b.c", b'.'), Some((b"a".to_vec(), b"b".to_vec(), b"c".to_vec())));
    assert_eq!(split3_exec(b"..", b'.'), Some((vec![], vec![], vec![])));
    assert_eq!(split3_exec(b"a.b", b'.'), None);
    assert_eq!(split3_exec(b"a.b.c.d", b'.'), None);
}

#[test]
fn leap_years_repeat_every_four_hundred_years() {
    for y in [-2000, -1, 0, 1600, 1900, 2023, i32::MAX - 400] {
        assert_eq!(isleap(y + 400), isleap(y));
        assert_eq!((y..y + 400).filter(|&k| isleap(k)).count(), 97);
    }
}

#[test]
fn whole_days_since_the_epoch_year() {
    assert_eq!(epoch_days(85), 0);
    assert_eq!(epoch_days(60), 0);
    assert_eq!(epoch_days(86), 365);
    assert_eq!(epoch_days(89), 365 + 365 + 365 + 366);
    let expected: i64 = (1985..2024).map(|y| if isleap(y) { 366 } else { 365 }).sum();
    assert_eq!(epoch_days(124), expected);
}
