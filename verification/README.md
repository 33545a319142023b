# metronome

A cron expression parser and next-fire-time engine whose behaviour is stated
in Verus contracts and proved.

- `src/text.rs`: whitespace, splitting, trimming and decimal numbers over
  characters.
- `src/field.rs`, `src/cron.rs`: the five-field grammar, the values each field
  allows, and matching calendar fields (day-of-month and day-of-week combine
  with OR when both are restricted).
- `src/schedule.rs`: `Timestamp` (Unix seconds, nanoseconds, UTC offset),
  calendar fields, the search window, and the next fire times in a fixed
  offset with the laws they obey. Calendar fields come from chrono through
  one trusted wrapper, whose contract states them in the proleptic Gregorian
  calendar.
- `src/zone.rs`: the minute-by-minute search for the next fire time where the
  UTC offset may change (daylight saving), each candidate read in the offset
  in force at it; a fixed offset is the case with no changes.
- `src/jobsfile.rs`: jobs files and the choice of the jobs due next.
- `app/main.rs`: the command line (`next`, `check`, `run`): clock, local
  offset changes, files, sleeping and running shell commands.
