use metronome::cron::CronExpr;
use metronome::error::ParseError;
use metronome::jobsfile::{parse_jobs, JobsFileError};

#[test]
fn each_error_variant() {
    assert_eq!(CronExpr::parse("* * * * * *"), Err(ParseError::WrongFieldCount(6)));
    assert_eq!(CronExpr::parse("abc * * * *"), Err(ParseError::BadValue("abc".to_string())));
    assert_eq!(CronExpr::parse("1,,2 * * * *"), Err(ParseError::BadValue("1,,2".to_string())));
    assert_eq!(CronExpr::parse("5-1 * * * *"), Err(ParseError::BadRange("5-1".to_string())));
    assert_eq!(CronExpr::parse("x-3 * * * *"), Err(ParseError::BadRange("x-3".to_string())));
    assert_eq!(CronExpr::parse("*/0 * * * *"), Err(ParseError::BadStep("*/0".to_string())));
    assert_eq!(CronExpr::parse("*/x * * * *"), Err(ParseError::BadStep("*/x".to_string())));
    assert_eq!(CronExpr::parse("60 * * * *"), Err(ParseError::OutOfBounds("60".to_string())));
    assert_eq!(CronExpr::parse("* * 0 * *"), Err(ParseError::OutOfBounds("0".to_string())));
}

#[test]
fn first_failing_field_decides() {
    assert_eq!(CronExpr::parse("60 24 * * *"), Err(ParseError::OutOfBounds("60".to_string())));
    assert_eq!(CronExpr::parse("1 24 x * *"), Err(ParseError::OutOfBounds("24".to_string())));
}

#[test]
fn dow_seven_is_sunday_per_value() {
    assert_eq!(CronExpr::parse("* * * * 1-7"), CronExpr::parse("* * * * 0-6"));
    assert_eq!(CronExpr::parse("* * * * 0-7"), CronExpr::parse("* * * * 0-6"));
    assert_eq!(CronExpr::parse("* * * * 5-7"), CronExpr::parse("* * * * 0,5,6"));
    assert_eq!(CronExpr::parse("* * * * */7"), CronExpr::parse("* * * * 0"));
    assert_eq!(CronExpr::parse("* * * * 17"), Err(ParseError::OutOfBounds("17".to_string())));
    assert!(CronExpr::parse("* * * * 7-1").is_err());
}

#[test]
fn plus_sign_and_whitespace_accepted() {
    assert_eq!(CronExpr::parse("+5 * * * *"), CronExpr::parse("5 * * * *"));
    assert_eq!(CronExpr::parse("  5\t*  * *\n*  "), CronExpr::parse("5 * * * *"));
    assert!(CronExpr::parse("-5 * * * *").is_err());
    assert!(CronExpr::parse("4294967296 * * * *").is_err());
}

#[test]
fn full_range_lists() {
    // a minute, hour or month list that names its whole range is `*`
    assert_eq!(CronExpr::parse("0-59 * * * *"), CronExpr::parse("* * * * *"));
    assert_eq!(CronExpr::parse("*/1 * * * *"), CronExpr::parse("* * * * *"));
    assert_eq!(CronExpr::parse("* 0-23 * 1-12 *"), CronExpr::parse("* * * * *"));
    assert_eq!(CronExpr::parse("0-29,30-59 * * * *"), CronExpr::parse("* * * * *"));
    assert_ne!(CronExpr::parse("0-58 * * * *"), CronExpr::parse("* * * * *"));
    // a day field is restricted unless written `*`
    assert_ne!(CronExpr::parse("* * 1-31 * *"), CronExpr::parse("* * * * *"));
    assert_ne!(CronExpr::parse("* * * * 0-6"), CronExpr::parse("* * * * *"));
    assert_eq!(CronExpr::parse("5,1,3,3 * * * *"), CronExpr::parse("1,3,5 * * * *"));
    let listed = CronExpr::parse("* * 1-31 * 5").unwrap();
    assert!(listed.day_matches(3, 6));
    let star = CronExpr::parse("* * * * 5").unwrap();
    assert!(!star.day_matches(3, 6));
}

#[test]
fn large_steps_expand_without_overflow() {
    assert_eq!(CronExpr::parse("1/4294967295 * * * *"), CronExpr::parse("1 * * * *"));
    assert_eq!(CronExpr::parse("59/4294967295 * * * *"), CronExpr::parse("59 * * * *"));
    assert_eq!(CronExpr::parse("*/4294967295 * * * *"), CronExpr::parse("0 * * * *"));
    assert!(parse_jobs("59/4294967295 * * * * echo\n").is_ok());
}

#[test]
fn stepped_start_out_of_bounds_rejected() {
    assert_eq!(CronExpr::parse("70/5 * * * *"), Err(ParseError::OutOfBounds("70/5".to_string())));
    assert_eq!(CronExpr::parse("* * 0/2 * *"), Err(ParseError::OutOfBounds("0/2".to_string())));
    assert_eq!(CronExpr::parse("55/10 * * * *"), CronExpr::parse("55 * * * *"));
}

#[test]
fn error_messages() {
    assert_eq!(ParseError::WrongFieldCount(4).message(), "expected 5 fields, got 4");
    assert_eq!(ParseError::WrongFieldCount(12).message(), "expected 5 fields, got 12");
    assert_eq!(ParseError::BadValue("x".to_string()).message(), "bad value: x");
    assert_eq!(ParseError::BadRange("5-1".to_string()).message(), "bad range: 5-1");
    assert_eq!(ParseError::BadStep("*/0".to_string()).message(), "bad step: */0");
    assert_eq!(ParseError::OutOfBounds("60".to_string()).message(), "value out of bounds: 60");
    assert_eq!(
        JobsFileError::MissingCommand { line: 7 }.message(),
        "line 7: missing command after cron expression"
    );
    assert_eq!(
        JobsFileError::Parse { line: 30, source: ParseError::BadStep("*/0".to_string()) }.message(),
        "line 30: bad step: */0"
    );
}

#[test]
fn jobs_lines_and_commands() {
    let jobs = parse_jobs("0 0 * * *\t  run   this \r\n\r\n  # c\n*/5 * * * * b").unwrap();
    assert_eq!(jobs.len(), 2);
    assert_eq!(jobs[0].command, "run   this");
    assert_eq!(jobs[0].line, 1);
    assert_eq!(jobs[1].command, "b");
    assert_eq!(jobs[1].line, 4);
    assert_eq!(jobs[1].expr, CronExpr::parse("*/5 * * * *").unwrap());
}

#[test]
fn jobs_field_splitting() {
    // the expression is the first five whitespace-separated fields, however
    // much whitespace separates them
    let jobs = parse_jobs("0  9 * * 1 echo hi\n").unwrap();
    assert_eq!(jobs.len(), 1);
    assert_eq!(jobs[0].expr, CronExpr::parse("0 9 * * 1").unwrap());
    assert_eq!(jobs[0].command, "echo hi");
    assert_eq!(jobs[0].line, 1);
    let tabs = parse_jobs("\t*/5\t\t* * *   *\t run  it \n").unwrap();
    assert_eq!(tabs[0].command, "run  it");
    match parse_jobs("\n\n* * *\n") {
        Err(JobsFileError::Parse { line: 3, source }) => {
            assert_eq!(source, ParseError::WrongFieldCount(3))
        }
        _ => panic!("expected a parse error"),
    }
    match parse_jobs("x * * * * cmd\n") {
        Err(JobsFileError::Parse { line: 1, source }) => {
            assert_eq!(source, ParseError::BadValue("x".to_string()))
        }
        _ => panic!("expected a parse error"),
    }
}

#[test]
fn jobs_count_and_first_refused_line() {
    let jobs = parse_jobs("# c\n\n* * * * * a\n   \n0 0 * * * b\n").unwrap();
    assert_eq!(jobs.len(), 2);
    assert_eq!(jobs[0].line, 3);
    assert_eq!(jobs[1].line, 5);
    match parse_jobs("* * * * * a\n0 0 * * *\n60 * * * * c\n") {
        Err(JobsFileError::MissingCommand { line: 2 }) => {}
        _ => panic!("expected the missing command on line 2"),
    }
    match parse_jobs("* * * * * a\n60 * * * * c\n0 0 * * *\n") {
        Err(JobsFileError::Parse { line: 2, source }) => {
            assert_eq!(source, ParseError::OutOfBounds("60".to_string()))
        }
        _ => panic!("expected the parse error on line 2"),
    }
}
