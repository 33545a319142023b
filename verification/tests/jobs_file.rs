use metronome::jobsfile::{parse_jobs, JobsFileError};

#[test]
fn parses_valid_file() {
    let content = "\
# comment
*/15 * * * *  echo hi

0 9 * * 1 echo monday
";
    let jobs = parse_jobs(content).unwrap();
    assert_eq!(jobs.len(), 2);
    assert_eq!(jobs[0].command, "echo hi");
    assert_eq!(jobs[1].command, "echo monday");
    assert_eq!(jobs[1].line, 4);
}

#[test]
fn rejects_missing_command() {
    let err = parse_jobs("* * * * *\n").unwrap_err();
    assert!(matches!(err, JobsFileError::MissingCommand { line: 1 }));
}

#[test]
fn rejects_bad_cron_expr() {
    let err = parse_jobs("60 * * * * echo hi\n").unwrap_err();
    assert!(matches!(err, JobsFileError::Parse { line: 1, .. }));
}

#[test]
fn ignores_comments_and_blank_lines() {
    let jobs = parse_jobs("\n# nothing here\n\n").unwrap();
    assert!(jobs.is_empty());
}
