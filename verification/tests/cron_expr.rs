use chrono::{Datelike, TimeZone, Utc};
use metronome::cron::CronExpr;
use metronome::error::ParseError;
use metronome::schedule::{Timestamp, MAX_TIMESTAMP, MIN_TIMESTAMP};

fn dt(y: i32, mo: u32, d: u32, h: u32, mi: u32) -> Timestamp {
    let t = Utc.with_ymd_and_hms(y, mo, d, h, mi, 0).unwrap();
    Timestamp { secs: t.timestamp(), nanos: 0, offset: 0 }
}

fn weekday_of(t: &Timestamp) -> u32 {
    chrono::DateTime::from_timestamp(t.secs + t.offset as i64, 0)
        .unwrap()
        .weekday()
        .num_days_from_sunday()
}

#[test]
fn every_15_minutes_from_07() {
    let e = CronExpr::parse("*/15 * * * *").unwrap();
    let from = dt(2026, 1, 1, 0, 7);
    let next = e.next_after(&from).unwrap();
    assert_eq!(next, dt(2026, 1, 1, 0, 15));
}

#[test]
fn daily_midnight() {
    let e = CronExpr::parse("0 0 * * *").unwrap();
    let from = dt(2026, 1, 1, 13, 45);
    let next = e.next_after(&from).unwrap();
    assert_eq!(next, dt(2026, 1, 2, 0, 0));
}

#[test]
fn daily_midnight_exactly_at_midnight() {
    let e = CronExpr::parse("0 0 * * *").unwrap();
    let from = dt(2026, 1, 1, 0, 0);
    let next = e.next_after(&from).unwrap();
    assert_eq!(next, dt(2026, 1, 2, 0, 0));
}

#[test]
fn weekly_monday_9am() {
    // 2026-01-01 is a Thursday.
    let e = CronExpr::parse("0 9 * * 1").unwrap();
    let from = dt(2026, 1, 1, 10, 0);
    let next = e.next_after(&from).unwrap();
    assert_eq!(next, dt(2026, 1, 5, 9, 0));
    assert_eq!(weekday_of(&next), 1);
}

#[test]
fn range_with_step() {
    let e = CronExpr::parse("1-30/2 * * * *").unwrap();
    let from = dt(2026, 1, 1, 0, 0);
    let next = e.next_after(&from).unwrap();
    assert_eq!(next, dt(2026, 1, 1, 0, 1));
    let next2 = e.next_after(&next).unwrap();
    assert_eq!(next2, dt(2026, 1, 1, 0, 3));
}

#[test]
fn list_values() {
    let e = CronExpr::parse("0,15,45 * * * *").unwrap();
    let from = dt(2026, 1, 1, 0, 16);
    let next = e.next_after(&from).unwrap();
    assert_eq!(next, dt(2026, 1, 1, 0, 45));
}

#[test]
fn dom_or_dow_semantics_both_restricted() {
    // "1st of month OR Friday": matches if either is satisfied.
    let e = CronExpr::parse("0 0 1 * 5").unwrap();
    // 2026-01-02 is a Friday.
    let from = dt(2026, 1, 1, 0, 0);
    let next = e.next_after(&from).unwrap();
    assert_eq!(next, dt(2026, 1, 2, 0, 0));
}

#[test]
fn dom_restricted_dow_any() {
    let e = CronExpr::parse("0 0 15 * *").unwrap();
    let from = dt(2026, 1, 1, 0, 0);
    let next = e.next_after(&from).unwrap();
    assert_eq!(next, dt(2026, 1, 15, 0, 0));
}

#[test]
fn month_restriction() {
    let e = CronExpr::parse("0 0 1 6 *").unwrap();
    let from = dt(2026, 1, 1, 0, 0);
    let next = e.next_after(&from).unwrap();
    assert_eq!(next, dt(2026, 6, 1, 0, 0));
}

#[test]
fn dow_7_is_sunday() {
    let a = CronExpr::parse("0 0 * * 7").unwrap();
    let b = CronExpr::parse("0 0 * * 0").unwrap();
    assert_eq!(a, b);
}

#[test]
fn next_n_returns_multiple() {
    let e = CronExpr::parse("*/15 * * * *").unwrap();
    let from = dt(2026, 1, 1, 0, 0);
    let times = e.next_n(&from, 3);
    assert_eq!(
        times,
        vec![dt(2026, 1, 1, 0, 15), dt(2026, 1, 1, 0, 30), dt(2026, 1, 1, 0, 45)]
    );
}

#[test]
fn wrong_field_count_rejected() {
    assert!(matches!(
        CronExpr::parse("* * * *"),
        Err(ParseError::WrongFieldCount(4))
    ));
}

#[test]
fn out_of_range_rejected() {
    assert!(CronExpr::parse("60 * * * *").is_err());
    assert!(CronExpr::parse("* 24 * * *").is_err());
    assert!(CronExpr::parse("* * 32 * *").is_err());
    assert!(CronExpr::parse("* * * 13 *").is_err());
    assert!(CronExpr::parse("* * * * 8").is_err());
}

#[test]
fn bad_range_rejected() {
    assert!(CronExpr::parse("5-1 * * * *").is_err());
}

#[test]
fn zero_step_rejected() {
    assert!(CronExpr::parse("*/0 * * * *").is_err());
}

#[test]
fn garbage_rejected() {
    assert!(CronExpr::parse("abc * * * *").is_err());
}
