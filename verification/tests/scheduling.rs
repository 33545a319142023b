use chrono::{Datelike, TimeZone, Timelike, Utc};
use metronome::cron::CronExpr;
use metronome::jobsfile::{next_due, parse_jobs};
use metronome::schedule::{Timestamp, MAX_TIMESTAMP, MIN_TIMESTAMP};

fn dt(y: i32, mo: u32, d: u32, h: u32, mi: u32) -> Timestamp {
    let t = Utc.with_ymd_and_hms(y, mo, d, h, mi, 0).unwrap();
    Timestamp { secs: t.timestamp(), nanos: 0, offset: 0 }
}

#[test]
fn chrono_range_limits() {
    assert!(chrono::DateTime::from_timestamp(MAX_TIMESTAMP, 0).is_some());
    assert!(chrono::DateTime::from_timestamp(MAX_TIMESTAMP + 1, 0).is_none());
    assert!(chrono::DateTime::from_timestamp(MIN_TIMESTAMP, 0).is_some());
    assert!(chrono::DateTime::from_timestamp(MIN_TIMESTAMP - 1, 0).is_none());
}

#[test]
fn sub_second_start_is_truncated() {
    let e = CronExpr::parse("* * * * *").unwrap();
    let mut from = dt(2026, 3, 4, 5, 6);
    from.secs += 59;
    from.nanos = 999_999_999;
    assert_eq!(e.next_after(&from), Some(dt(2026, 3, 4, 5, 7)));
}

#[test]
fn offset_fields_are_wall_clock() {
    // 09:00 at UTC+02:00 is 07:00 UTC
    let e = CronExpr::parse("0 9 * * *").unwrap();
    let from = Timestamp { secs: dt(2026, 1, 1, 0, 0).secs, nanos: 0, offset: 7200 };
    let next = e.next_after(&from).unwrap();
    assert_eq!(next.offset, 7200);
    assert_eq!(next.secs, dt(2026, 1, 1, 7, 0).secs);
}

#[test]
fn before_the_epoch() {
    let e = CronExpr::parse("30 12 * * *").unwrap();
    let from = dt(1960, 2, 29, 13, 0);
    assert_eq!(e.next_after(&from), Some(dt(1960, 3, 1, 12, 30)));
}

#[test]
fn leap_day_found() {
    let e = CronExpr::parse("0 0 29 2 *").unwrap();
    let from = dt(2026, 1, 1, 0, 0);
    let next = e.next_after(&from).unwrap();
    assert_eq!(next, dt(2028, 2, 29, 0, 0));
}

#[test]
fn never_firing_expression() {
    let f = CronExpr::parse("0 0 31 2 *").unwrap();
    assert_eq!(f.next_after(&dt(2026, 1, 1, 0, 0)), None);
    assert!(f.next_n(&dt(2026, 1, 1, 0, 0), 3).is_empty());
}

#[test]
fn both_day_fields_listed_use_or() {
    // 2026-01-02 is a Friday; day-of-month 1-31 is a restriction, so Saturday
    // the 3rd fires through it
    let e = CronExpr::parse("0 0 1-31 * 5").unwrap();
    assert_eq!(e.next_after(&dt(2026, 1, 2, 0, 0)), Some(dt(2026, 1, 3, 0, 0)));
}

#[test]
fn calendar_fields_agree_with_chrono() {
    let mut secs: i64 = -9_000_000_000;
    while secs < 9_000_000_000 {
        let t = chrono::DateTime::from_timestamp(secs - secs.rem_euclid(60), 0).unwrap();
        let at = Timestamp { secs: t.timestamp(), nanos: 0, offset: 0 };
        let before = Timestamp { secs: at.secs - 60, nanos: 0, offset: 0 };
        let by_date = format!("{} {} {} {} *", t.minute(), t.hour(), t.day(), t.month());
        let by_weekday =
            format!("{} {} * * {}", t.minute(), t.hour(), t.weekday().num_days_from_sunday());
        assert_eq!(CronExpr::parse(&by_date).unwrap().next_after(&before), Some(at));
        assert_eq!(CronExpr::parse(&by_weekday).unwrap().next_after(&before), Some(at));
        secs += 7_654_321;
    }
    let far = chrono::DateTime::from_timestamp(MAX_TIMESTAMP - 200_000_000, 0).unwrap();
    let at = Timestamp { secs: far.timestamp() - far.timestamp().rem_euclid(60), nanos: 0, offset: 0 };
    let d = chrono::DateTime::from_timestamp(at.secs, 0).unwrap();
    let e = CronExpr::parse(&format!("{} {} {} {} *", d.minute(), d.hour(), d.day(), d.month())).unwrap();
    assert_eq!(e.next_after(&Timestamp { secs: at.secs - 60, nanos: 0, offset: 0 }), Some(at));
}

#[test]
fn result_fires_and_nothing_earlier() {
    let e = CronExpr::parse("7 3 * * 2").unwrap();
    let from = dt(2026, 5, 5, 17, 1);
    let next = e.next_after(&from).unwrap();
    let d = chrono::DateTime::from_timestamp(next.secs, 0).unwrap();
    assert_eq!((d.minute(), d.hour(), d.weekday().num_days_from_sunday()), (7, 3, 2));
    let mut t = from;
    t.secs = (from.secs / 60 + 1) * 60;
    while t.secs < next.secs {
        let d = chrono::DateTime::from_timestamp(t.secs, 0).unwrap();
        assert!(!e.matches(
            d.minute(),
            d.hour(),
            d.day(),
            d.month(),
            d.weekday().num_days_from_sunday()
        ));
        t.secs += 60;
    }
}

#[test]
fn same_result_until_it_fires() {
    let e = CronExpr::parse("0 12 * * *").unwrap();
    let from = dt(2026, 1, 1, 0, 0);
    let next = e.next_after(&from).unwrap();
    let later = Timestamp { secs: next.secs - 1, nanos: 5, offset: 0 };
    assert_eq!(e.next_after(&later), Some(next));
}

#[test]
fn next_n_chains() {
    let e = CronExpr::parse("0 0 1,15 * *").unwrap();
    let from = dt(2026, 1, 20, 0, 0);
    let times = e.next_n(&from, 4);
    assert_eq!(
        times,
        vec![dt(2026, 2, 1, 0, 0), dt(2026, 2, 15, 0, 0), dt(2026, 3, 1, 0, 0), dt(2026, 3, 15, 0, 0)]
    );
    for w in times.windows(2) {
        assert_eq!(e.next_after(&w[0]), Some(w[1]));
    }
    assert!(e.next_n(&from, 0).is_empty());
}

#[test]
fn day_matching_or_semantics() {
    let both = CronExpr::parse("* * 1 * 5").unwrap();
    assert!(both.day_matches(1, 2));
    assert!(both.day_matches(9, 5));
    assert!(!both.day_matches(9, 2));
    let dom_only = CronExpr::parse("* * 1 * *").unwrap();
    assert!(dom_only.day_matches(1, 3));
    assert!(!dom_only.day_matches(2, 5));
    let dow_only = CronExpr::parse("* * * * 5").unwrap();
    assert!(dow_only.day_matches(2, 5));
    assert!(!dow_only.day_matches(1, 4));
    let neither = CronExpr::parse("* * * * *").unwrap();
    assert!(neither.day_matches(17, 6));
}

#[test]
fn matches_checks_every_field() {
    let e = CronExpr::parse("5 6 * 7 *").unwrap();
    assert!(e.matches(5, 6, 10, 7, 1));
    assert!(!e.matches(4, 6, 10, 7, 1));
    assert!(!e.matches(5, 7, 10, 7, 1));
    assert!(!e.matches(5, 6, 10, 8, 1));
}

#[test]
fn next_due_lists_every_job_due_first() {
    let jobs = parse_jobs("0 12 * * * a\n30 * * * * b\n30 0 * * * c\n").unwrap();
    let now = dt(2026, 1, 1, 0, 10);
    assert_eq!(next_due(&jobs, &now, &Vec::new()), Some((dt(2026, 1, 1, 0, 30), vec![1, 2])));
    let later = dt(2026, 1, 1, 0, 30);
    assert_eq!(next_due(&jobs, &later, &Vec::new()), Some((dt(2026, 1, 1, 1, 30), vec![1])));
    let same = parse_jobs("* * * * * a\n* * * * * b\n").unwrap();
    assert_eq!(next_due(&same, &now, &Vec::new()), Some((dt(2026, 1, 1, 0, 11), vec![0, 1])));
    let none = parse_jobs("0 0 31 2 * x\n").unwrap();
    assert_eq!(next_due(&none, &now, &Vec::new()), None);
    assert_eq!(next_due(&Vec::new(), &now, &Vec::new()), None);
}

#[test]
fn next_n_checked_against_range() {
    let e = CronExpr::parse("* * * * *").unwrap();
    let from = dt(2026, 1, 1, 0, 0);
    assert_eq!(e.try_next_n(&from, 2), Some(vec![dt(2026, 1, 1, 0, 1), dt(2026, 1, 1, 0, 2)]));
    let end = Timestamp { secs: MAX_TIMESTAMP - 100, nanos: 0, offset: 0 };
    assert_eq!(e.try_next_n(&end, 1), None);
    assert_eq!(e.try_next_n(&end, 0), Some(vec![]));
    let many = e.try_next_n(&from, 70_000).unwrap();
    assert_eq!(many.len(), 70_000);
    assert_eq!(many[69_999].secs, from.secs + 70_000 * 60);
}

#[test]
fn offset_changes_are_followed() {
    // 09:00 local every day; the offset moves from UTC+1 to UTC+2 at
    // 2026-03-29 01:00 UTC
    let e = CronExpr::parse("0 9 * * *").unwrap();
    let change = dt(2026, 3, 29, 1, 0).secs;
    let changes = vec![(change, 7200)];
    let from = Timestamp { secs: dt(2026, 3, 28, 12, 0).secs, nanos: 0, offset: 3600 };
    let next = e.next_after_in(&from, &changes).unwrap();
    assert_eq!(next, Timestamp { secs: dt(2026, 3, 29, 7, 0).secs, nanos: 0, offset: 7200 });
    // with no changes the zoned search is the fixed-offset one
    assert_eq!(e.next_after_in(&from, &Vec::new()), e.next_after(&from));
    let times = e.try_next_n_in(&from, &changes, 2).unwrap();
    assert_eq!(times[0], next);
    assert_eq!(times[1].secs, next.secs + 86_400);
    let jobs = parse_jobs("0 9 * * * a\n").unwrap();
    assert_eq!(next_due(&jobs, &from, &changes), Some((next, vec![0])));
}

#[test]
fn day_rule_examples() {
    let dom_only = CronExpr::parse("0 0 15 * *").unwrap();
    let dow_only = CronExpr::parse("0 9 * * 1").unwrap();
    let neither = CronExpr::parse("0 0 * * *").unwrap();
    for d in 1..=31 {
        for w in 0..=6 {
            assert_eq!(dom_only.day_matches(d, w), d == 15);
            assert_eq!(dow_only.day_matches(d, w), w == 1);
            assert!(neither.day_matches(d, w));
        }
    }
}
