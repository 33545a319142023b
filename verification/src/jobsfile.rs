//! Jobs files: one `<cron expr> <shell command>` per line, and the choice of
//! the job that is due next.
use vstd::prelude::*;

use crate::cron::{parse_tokens_spec, CronExpr, CronView};
use crate::schedule::{search_in_range, Timestamp};
use crate::zone::next_in_zone_spec;
use crate::error::{
    decimal, decimal_chars, parse_error_message, push_all, ParseError, ParseErrorView,
};
use crate::text::{
    chars_to_string, leading_fields, pieces, split_chars, split_leading_fields, split_on, str_chars,
    trim, trim_chars,
};

verus! {

/// A scheduled job: its expression, its shell command and the line it was
/// read from (counted from 1).
#[derive(Debug, Clone, PartialEq, Eq)]
pub struct Job {
    pub expr: CronExpr,
    pub command: String,
    pub line: usize,
}

/// The content of a `Job`.
pub struct JobView {
    pub expr: CronView,
    pub command: Seq<char>,
    pub line: nat,
}

impl View for Job {
    type V = JobView;

    open spec fn view(&self) -> JobView {
        JobView { expr: self.expr@, command: self.command@, line: self.line as nat }
    }
}

/// Why a jobs file was refused, with the line (counted from 1).
#[derive(Debug)]
pub enum JobsFileError {
    Parse { line: usize, source: ParseError },
    MissingCommand { line: usize },
}

/// The content of a `JobsFileError`.
pub enum JobsFileErrorView {
    Parse { line: nat, source: ParseErrorView },
    MissingCommand { line: nat },
}

impl View for JobsFileError {
    type V = JobsFileErrorView;

    open spec fn view(&self) -> JobsFileErrorView {
        match self {
            JobsFileError::Parse { line, source } => JobsFileErrorView::Parse {
                line: *line as nat,
                source: source@,
            },
            JobsFileError::MissingCommand { line } => JobsFileErrorView::MissingCommand {
                line: *line as nat,
            },
        }
    }
}

/// The lines of a text: the pieces between newlines, without the empty piece
/// after a final newline. `str::lines` also drops a `\r` before each newline;
/// here it stays on its line, and the trimming that every line goes through
/// before it is read removes it either way.
pub open spec fn text_lines(s: Seq<char>) -> Seq<Seq<char>> {
    let p = split_on(s, '\n');
    if p.last().len() == 0 {
        p.drop_last()
    } else {
        p
    }
}

/// What one line of a jobs file comes to.
pub enum LineOutcome {
    Skip,
    Job(JobView),
    Error(JobsFileErrorView),
}

/// One line, numbered `n`: blank lines and `#` comments are skipped; otherwise
/// the first five whitespace-separated fields are the expression, and the rest
/// of the line, trimmed, is the command, which may not be empty.
#[verifier::opaque]
pub open spec fn line_spec(raw: Seq<char>, n: nat) -> LineOutcome {
    let line = trim(raw);
    if line.len() == 0 || line[0] == '#' {
        LineOutcome::Skip
    } else {
        let split = leading_fields(line, 5);
        if split.0.len() < 5 {
            LineOutcome::Error(
                JobsFileErrorView::Parse {
                    line: n,
                    source: ParseErrorView::WrongFieldCount(split.0.len()),
                },
            )
        } else {
            match parse_tokens_spec(split.0) {
                Err(e) => LineOutcome::Error(JobsFileErrorView::Parse { line: n, source: e }),
                Ok(expr) => {
                    let command = trim(split.1);
                    if command.len() == 0 {
                        LineOutcome::Error(JobsFileErrorView::MissingCommand { line: n })
                    } else {
                        LineOutcome::Job(JobView { expr, command, line: n })
                    }
                },
            }
        }
    }
}

/// What a whole jobs file comes to.
pub enum JobsOutcome {
    Jobs(Seq<JobView>),
    Error(JobsFileErrorView),
}

/// The first `n` lines read in order: the jobs so far, or the first error.
pub open spec fn jobs_upto(lines: Seq<Seq<char>>, n: nat) -> JobsOutcome
    decreases n,
{
    if n == 0 {
        JobsOutcome::Jobs(Seq::empty())
    } else {
        match jobs_upto(lines, (n - 1) as nat) {
            JobsOutcome::Jobs(js) => match line_spec(lines[n - 1], n) {
                LineOutcome::Skip => JobsOutcome::Jobs(js),
                LineOutcome::Job(j) => JobsOutcome::Jobs(js.push(j)),
                LineOutcome::Error(e) => JobsOutcome::Error(e),
            },
            other => other,
        }
    }
}

/// What the jobs file `content` comes to.
pub open spec fn parse_jobs_spec(content: Seq<char>) -> JobsOutcome {
    jobs_upto(text_lines(content), text_lines(content).len())
}

/// The views of some jobs.
pub open spec fn job_views(js: Seq<Job>) -> Seq<JobView> {
    js.map_values(|j: Job| j@)
}

/// A line is skipped exactly when, trimmed, it is empty or starts with `#`:
/// every line whose first non-blank character is `#` is a comment, whatever
/// follows it.
pub proof fn lemma_skipped_lines(raw: Seq<char>, n: nat)
    ensures
        line_spec(raw, n) is Skip <==> (trim(raw).len() == 0 || trim(raw)[0] == '#'),
        trim(raw).len() > 0 && trim(raw)[0] == '#' ==> line_spec(raw, n) is Skip,
{
    reveal(line_spec);
}

/// A line that is neither blank nor a comment is read as follows: fewer than
/// five fields is a field-count error; otherwise the first five fields are the
/// expression, whose parse error is reported with the line number; a parsed
/// expression with nothing after it is a missing command; else the line is a
/// job with that expression, the rest of the line trimmed as its command, and
/// its line number.
pub proof fn lemma_line_read(raw: Seq<char>, n: nat)
    ensures
        ({
            let line = trim(raw);
            let split = leading_fields(line, 5);
            !(line.len() == 0 || line[0] == '#') ==> {
                &&& split.0.len() < 5 ==> line_spec(raw, n) == LineOutcome::Error(
                    JobsFileErrorView::Parse {
                        line: n,
                        source: ParseErrorView::WrongFieldCount(split.0.len()),
                    },
                )
                &&& split.0.len() >= 5 ==> match parse_tokens_spec(split.0) {
                    Err(e) => line_spec(raw, n) == LineOutcome::Error(
                        JobsFileErrorView::Parse { line: n, source: e },
                    ),
                    Ok(expr) => line_spec(raw, n) == if trim(split.1).len() == 0 {
                        LineOutcome::Error(JobsFileErrorView::MissingCommand { line: n })
                    } else {
                        LineOutcome::Job(JobView { expr, command: trim(split.1), line: n })
                    },
                }
            }
        }),
{
    reveal(line_spec);
}

/// The executable result of reading one line.
enum LineResult {
    Skip,
    Found(Job),
    Invalid(JobsFileError),
}

spec fn line_result_view(r: LineResult) -> LineOutcome {
    match r {
        LineResult::Skip => LineOutcome::Skip,
        LineResult::Found(j) => LineOutcome::Job(j@),
        LineResult::Invalid(e) => LineOutcome::Error(e@),
    }
}

/// Reads the line `raw`, numbered `n`.
fn parse_line(raw: &Vec<char>, n: usize) -> (r: LineResult)
    ensures
        line_result_view(r) == line_spec(raw@, n as nat),
{
    reveal(line_spec);
    let line = trim_chars(raw);
    if line.len() == 0 || line[0] == '#' {
        return LineResult::Skip;
    }
    let (fields, rest) = split_leading_fields(&line, 5);
    if fields.len() < 5 {
        return LineResult::Invalid(
            JobsFileError::Parse { line: n, source: ParseError::WrongFieldCount(fields.len()) },
        );
    }
    let expr = match CronExpr::parse_tokens(&fields) {
        Ok(e) => e,
        Err(e) => {
            return LineResult::Invalid(JobsFileError::Parse { line: n, source: e });
        },
    };
    let command = trim_chars(&rest);
    if command.len() == 0 {
        return LineResult::Invalid(JobsFileError::MissingCommand { line: n });
    }
    LineResult::Found(Job { expr, command: chars_to_string(&command), line: n })
}

/// The view of an executable jobs file result.
pub open spec fn jobs_result(r: Result<Vec<Job>, JobsFileError>) -> JobsOutcome {
    match r {
        Ok(js) => JobsOutcome::Jobs(job_views(js@)),
        Err(e) => JobsOutcome::Error(e@),
    }
}

/// Reads a jobs file: one `<cron expr> <shell command>` per line, blank lines
/// and `#` comments skipped.
pub fn parse_jobs(content: &str) -> (r: Result<Vec<Job>, JobsFileError>)
    ensures
        jobs_result(r) == parse_jobs_spec(content@),
{
    let chars = str_chars(content);
    let lines = split_chars(&chars, '\n');
    let ghost ls = text_lines(content@);
    let count = if lines[lines.len() - 1].len() == 0 {
        lines.len() - 1
    } else {
        lines.len()
    };
    assert(ls =~= pieces(lines@).take(count as int));
    let mut jobs: Vec<Job> = Vec::new();
    let mut i: usize = 0;
    assert(job_views(jobs@) =~= Seq::<JobView>::empty());
    while i < count
        invariant
            i <= count <= lines.len(),
            ls == pieces(lines@).take(count as int),
            ls == text_lines(content@),
            jobs_upto(ls, i as nat) == JobsOutcome::Jobs(job_views(jobs@)),
        decreases count - i,
    {
        assert(ls[i as int] == lines@[i as int]@);
        match parse_line(&lines[i], i + 1) {
            LineResult::Skip => {},
            LineResult::Found(j) => {
                let ghost before = jobs@;
                jobs.push(j);
                assert(job_views(jobs@) =~= job_views(before).push(j@));
            },
            LineResult::Invalid(e) => {
                proof {
                    lemma_jobs_stop(ls, (i + 1) as nat);
                }
                return Err(e);
            },
        }
        i = i + 1;
    }
    Ok(jobs)
}

proof fn lemma_jobs_stop(lines: Seq<Seq<char>>, n: nat)
    requires
        n <= lines.len(),
        jobs_upto(lines, n) is Error,
    ensures
        jobs_upto(lines, lines.len()) == jobs_upto(lines, n),
    decreases lines.len() - n,
{
    if n < lines.len() {
        lemma_jobs_stop(lines, n + 1);
    }
}

/// Whether line `k` (counted from 0) is refused.
pub open spec fn line_refused(lines: Seq<Seq<char>>, k: int) -> bool {
    line_spec(lines[k], (k + 1) as nat) is Error
}

proof fn lemma_jobs_upto_errors(lines: Seq<Seq<char>>, n: nat)
    requires
        n <= lines.len(),
    ensures
        jobs_upto(lines, n) is Jobs <==> forall|k: int| 0 <= k < n ==> !#[trigger] line_refused(lines, k),
        jobs_upto(lines, n) matches JobsOutcome::Error(e) ==> exists|k: int|
            {
                &&& 0 <= k < n
                &&& line_spec(lines[k], (k + 1) as nat) == LineOutcome::Error(e)
                &&& forall|j: int| 0 <= j < k ==> !#[trigger] line_refused(lines, j)
            },
    decreases n,
{
    if n > 0 {
        let m = (n - 1) as nat;
        lemma_jobs_upto_errors(lines, m);
        if jobs_upto(lines, m) is Jobs {
            if line_refused(lines, m as int) {
                let e = line_spec(lines[m as int], n)->Error_0;
                assert(jobs_upto(lines, n) == JobsOutcome::Error(e));
                assert(line_spec(lines[m as int], (m + 1) as nat) == LineOutcome::Error(e));
            } else {
                assert forall|k: int| 0 <= k < n implies !#[trigger] line_refused(lines, k) by {
                    if k < m {
                        assert(!line_refused(lines, k));
                    }
                }
            }
        } else {
            assert(jobs_upto(lines, n) == jobs_upto(lines, m));
        }
    }
}

/// The first refused line decides the outcome of a jobs file: the file is
/// read without error exactly when no line is refused, and otherwise the
/// error is that of the first refused line.
pub proof fn lemma_first_refused_line_decides(content: Seq<char>)
    ensures
        parse_jobs_spec(content) is Jobs <==> forall|k: int|
            0 <= k < text_lines(content).len() ==> !#[trigger] line_refused(text_lines(content), k),
        parse_jobs_spec(content) matches JobsOutcome::Error(e) ==> exists|k: int|
            {
                &&& 0 <= k < text_lines(content).len()
                &&& line_spec(text_lines(content)[k], (k + 1) as nat) == LineOutcome::Error(e)
                &&& forall|j: int| 0 <= j < k ==> !#[trigger] line_refused(text_lines(content), j)
            },
{
    let ls = text_lines(content);
    lemma_jobs_upto_errors(ls, ls.len());
}

/// Whether the instant `a` comes before the instant `b`.
pub open spec fn instant_before(a: Timestamp, b: Timestamp) -> bool {
    a.secs < b.secs || (a.secs == b.secs && a.nanos < b.nanos)
}

/// Among the first `n` jobs, the earliest next fire time after `now` in the
/// zone whose offset follows `changes`, and the indices, ascending, of the
/// jobs that fire then.
pub open spec fn next_due_upto(
    jobs: Seq<JobView>,
    now: Timestamp,
    changes: Seq<(i64, i32)>,
    n: nat,
) -> Option<
    (Timestamp, Seq<int>),
>
    decreases n,
{
    if n == 0 {
        None
    } else {
        let prev = next_due_upto(jobs, now, changes, (n - 1) as nat);
        match next_in_zone_spec(jobs[n - 1].expr, now, changes) {
            None => prev,
            Some(t) => match prev {
                None => Some((t, seq![n - 1])),
                Some((pt, due)) => if instant_before(t, pt) {
                    Some((t, seq![n - 1]))
                } else if t == pt {
                    Some((pt, due.push(n - 1)))
                } else {
                    prev
                },
            },
        }
    }
}

/// The indices of some jobs as integers.
pub open spec fn index_view(v: Seq<usize>) -> Seq<int> {
    v.map_values(|i: usize| i as int)
}

/// The jobs to run next: the earliest next fire time after `now` over all
/// jobs, in the zone whose offset follows `changes` (`now.offset` before the
/// first change), with the indices of every job that fires then, or `None`
/// when no job fires within the search window.
pub fn next_due(jobs: &Vec<Job>, now: &Timestamp, changes: &Vec<(i64, i32)>) -> (r: Option<
    (Timestamp, Vec<usize>),
>)
    requires
        search_in_range(*now),
    ensures
        match r {
            None => next_due_upto(job_views(jobs@), *now, changes@, jobs.len() as nat) is None,
            Some((t, due)) => next_due_upto(job_views(jobs@), *now, changes@, jobs.len() as nat)
                == Some(
                (t, index_view(due@)),
            ),
        },
{
    let ghost js = job_views(jobs@);
    let mut best: Option<(Timestamp, Vec<usize>)> = None;
    let mut i: usize = 0;
    while i < jobs.len()
        invariant
            i <= jobs.len(),
            js == job_views(jobs@),
            search_in_range(*now),
            match best {
                None => next_due_upto(js, *now, changes@, i as nat) is None,
                Some((t, due)) => next_due_upto(js, *now, changes@, i as nat) == Some(
                    (t, index_view(due@)),
                ),
            },
        decreases jobs.len() - i,
    {
        assert(js[i as int].expr == jobs@[i as int].expr@);
        match jobs[i].expr.next_after_in(now, changes) {
            None => {},
            Some(t) => {
                match best {
                    None => {
                        let mut due: Vec<usize> = Vec::new();
                        due.push(i);
                        assert(index_view(due@) =~= seq![i as int]);
                        best = Some((t, due));
                    },
                    Some((bt, mut due)) => {
                        if t.secs < bt.secs || (t.secs == bt.secs && t.nanos < bt.nanos) {
                            let mut fresh: Vec<usize> = Vec::new();
                            fresh.push(i);
                            assert(index_view(fresh@) =~= seq![i as int]);
                            best = Some((t, fresh));
                        } else if t == bt {
                            let ghost before = due@;
                            due.push(i);
                            assert(index_view(due@) =~= index_view(before).push(i as int));
                            best = Some((bt, due));
                        } else {
                            best = Some((bt, due));
                        }
                    },
                }
            },
        }
        i = i + 1;
    }
    best
}

/// The jobs chosen by `next_due` are exactly those that fire first: no job's
/// next fire time comes before the time chosen, and a job is listed exactly
/// when its next fire time is that time; the list is ascending and not empty.
pub proof fn lemma_next_due_earliest(
    jobs: Seq<JobView>,
    now: Timestamp,
    changes: Seq<(i64, i32)>,
    n: nat,
)
    requires
        n <= jobs.len(),
    ensures
        next_due_upto(jobs, now, changes, n) matches Some((t, due)) ==> {
            &&& due.len() > 0
            &&& forall|a: int, b: int| 0 <= a < b < due.len() ==> due[a] < due[b]
            &&& forall|k: int| 0 <= k < due.len() ==> 0 <= #[trigger] due[k] < n
            &&& forall|j: int|
                0 <= j < n && #[trigger] next_in_zone_spec(jobs[j].expr, now, changes) is Some
                    ==> !instant_before(next_in_zone_spec(jobs[j].expr, now, changes)->0, t)
            &&& forall|j: int|
                0 <= j < n ==> (#[trigger] next_in_zone_spec(jobs[j].expr, now, changes) == Some(t)
                    <==> due.contains(j))
        },
        next_due_upto(jobs, now, changes, n) is None ==> forall|j: int|
            0 <= j < n ==> #[trigger] next_in_zone_spec(jobs[j].expr, now, changes) is None,
    decreases n,
{
    if n > 0 {
        let m = (n - 1) as nat;
        lemma_next_due_earliest(jobs, now, changes, m);
        if let Some((t, due)) = next_due_upto(jobs, now, changes, n) {
            assert forall|j: int| 0 <= j < n implies (#[trigger] next_in_zone_spec(
                jobs[j].expr,
                now,
                changes,
            ) == Some(t) <==> due.contains(j)) by {
                if due.contains(j) {
                    let k = choose|k: int| 0 <= k < due.len() && due[k] == j;
                    if let Some((pt, pdue)) = next_due_upto(jobs, now, changes, m) {
                        if k < pdue.len() && due =~= pdue.push(m as int) {
                            assert(pdue[k] == j);
                        }
                    }
                }
                if next_in_zone_spec(jobs[j].expr, now, changes) == Some(t) {
                    if j == m {
                        assert(due.last() == m);
                    } else if let Some((pt, pdue)) = next_due_upto(jobs, now, changes, m) {
                        if due == pdue || due == pdue.push(m as int) {
                            let k = choose|k: int| 0 <= k < pdue.len() && pdue[k] == j;
                            assert(due[k] == j);
                        }
                    }
                }
            }
        }
    }
}

/// The text that describes a jobs file error.
pub open spec fn jobs_error_message(e: JobsFileErrorView) -> Seq<char> {
    match e {
        JobsFileErrorView::Parse { line, source } => "line "@ + decimal(line) + ": "@
            + parse_error_message(source),
        JobsFileErrorView::MissingCommand { line } => "line "@ + decimal(line)
            + ": missing command after cron expression"@,
    }
}

impl JobsFileError {
    /// The text that describes the error, as its `Display` shows it.
    pub fn message(&self) -> (r: String)
        ensures
            r@ == jobs_error_message(self@),
    {
        let mut out = str_chars("line ");
        match self {
            JobsFileError::Parse { line, source } => {
                push_all(&mut out, &decimal_chars(*line));
                push_all(&mut out, &str_chars(": "));
                push_all(&mut out, &source.message_chars());
            },
            JobsFileError::MissingCommand { line } => {
                push_all(&mut out, &decimal_chars(*line));
                push_all(&mut out, &str_chars(": missing command after cron expression"));
            },
        }
        assert(out@ =~= jobs_error_message(self@));
        chars_to_string(&out)
    }
}


/// How many of the first `n` lines are not skipped.
pub open spec fn unskipped_lines(lines: Seq<Seq<char>>, n: nat) -> nat
    decreases n,
{
    if n == 0 {
        0
    } else {
        unskipped_lines(lines, (n - 1) as nat) + if line_spec(lines[n - 1], n) is Skip {
            0nat
        } else {
            1nat
        }
    }
}

/// The jobs read from a file correspond to its lines: there is one job per
/// line that is not skipped, each job is what its line reads as, every line
/// that holds no job is skipped (blank or a comment), each command is
/// non-empty, and the jobs keep the order of their lines.
pub proof fn lemma_jobs_from_lines(content: Seq<char>)
    ensures
        parse_jobs_spec(content) matches JobsOutcome::Jobs(js) ==> {
            &&& js.len() == unskipped_lines(text_lines(content), text_lines(content).len())
            &&& forall|i: int|
                0 <= i < js.len() ==> 1 <= #[trigger] js[i].line <= text_lines(content).len()
            &&& forall|i: int|
                0 <= i < js.len() ==> line_spec(text_lines(content)[js[i].line - 1], js[i].line)
                    == LineOutcome::Job(#[trigger] js[i])
            &&& forall|k: int|
                0 <= k < text_lines(content).len() ==> (#[trigger] line_spec(
                    text_lines(content)[k],
                    (k + 1) as nat,
                ) is Skip || exists|i: int| 0 <= i < js.len() && js[i].line == k + 1)
            &&& forall|i: int| 0 <= i < js.len() ==> (#[trigger] js[i]).command.len() > 0
            &&& forall|i: int, j: int| 0 <= i < j < js.len() ==> js[i].line < js[j].line
        },
{
    let ls = text_lines(content);
    lemma_jobs_upto_lines(ls, ls.len());
}

proof fn lemma_line_job(raw: Seq<char>, n: nat)
    ensures
        line_spec(raw, n) matches LineOutcome::Job(j) ==> j.line == n && j.command.len() > 0,
{
    reveal(line_spec);
}

proof fn lemma_jobs_upto_lines(lines: Seq<Seq<char>>, n: nat)
    requires
        n <= lines.len(),
    ensures
        jobs_upto(lines, n) matches JobsOutcome::Jobs(js) ==> {
            &&& js.len() == unskipped_lines(lines, n)
            &&& forall|i: int| 0 <= i < js.len() ==> 1 <= #[trigger] js[i].line <= n
            &&& forall|i: int|
                0 <= i < js.len() ==> line_spec(lines[js[i].line - 1], js[i].line)
                    == LineOutcome::Job(#[trigger] js[i])
            &&& forall|k: int|
                0 <= k < n ==> (#[trigger] line_spec(lines[k], (k + 1) as nat) is Skip || exists|
                    i: int,
                | 0 <= i < js.len() && js[i].line == k + 1)
            &&& forall|i: int| 0 <= i < js.len() ==> (#[trigger] js[i]).command.len() > 0
            &&& forall|i: int, j: int| 0 <= i < j < js.len() ==> js[i].line < js[j].line
        },
    decreases n,
{
    if n > 0 {
        let m = (n - 1) as nat;
        lemma_jobs_upto_lines(lines, m);
        if let JobsOutcome::Jobs(js) = jobs_upto(lines, n) {
            if let JobsOutcome::Jobs(prev) = jobs_upto(lines, m) {
                lemma_line_job(lines[m as int], n);
                assert forall|k: int| 0 <= k < n implies (#[trigger] line_spec(
                    lines[k],
                    (k + 1) as nat,
                ) is Skip || exists|i: int| 0 <= i < js.len() && js[i].line == k + 1) by {
                    if k < m {
                        if !(line_spec(lines[k], (k + 1) as nat) is Skip) {
                            let i = choose|i: int| 0 <= i < prev.len() && prev[i].line == k + 1;
                            assert(js[i] == prev[i]);
                        }
                    } else if !(line_spec(lines[k], (k + 1) as nat) is Skip) {
                        assert(js.last().line == k + 1);
                    }
                }
            }
        }
    }
}

} // verus!
