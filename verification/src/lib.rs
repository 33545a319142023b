//! A cron expression parser and next-fire-time engine, verified with Verus.
//!
//! `cron` parses five-field expressions and matches calendar fields against
//! them, `schedule` and `zone` find the next fire times (in a fixed offset,
//! or one that changes), and `jobsfile` reads jobs files and picks the jobs
//! that are due next.
pub mod cron;
pub mod error;
pub mod field;
pub mod jobsfile;
pub mod schedule;
pub mod zone;
mod text;

pub use cron::CronExpr;
pub use error::ParseError;
pub use jobsfile::{parse_jobs, Job, JobsFileError};
pub use schedule::Timestamp;
