//! Timestamps, calendar fields and the search window, and the next fire
//! times in a fixed UTC offset with the laws they obey.
use vstd::prelude::*;

use crate::cron::{day_matches_spec, lemma_matches_fields, matches_spec, CronExpr, CronView};
use crate::field::field_allows;
use crate::zone::{
    first_zoned, lemma_first_zoned_bounds, lemma_first_zoned_skip, next_in_zone_spec,
    next_n_in_spec, searches_in_zone_in_range, zoned_candidate, zoned_fires,
};

verus! {

/// A point in time with a fixed UTC offset: `secs` whole seconds since the
/// Unix epoch (UTC), `nanos` nanoseconds past that second, and local time
/// `offset` seconds east of UTC.
#[derive(Debug, Clone, Copy, PartialEq, Eq, Structural)]
pub struct Timestamp {
    pub secs: i64,
    pub nanos: u32,
    pub offset: i32,
}

/// The earliest Unix time whose calendar date chrono can represent
/// (-262143-01-01T00:00:00).
pub const MIN_TIMESTAMP: i64 = -8_334_601_228_800;

/// The latest Unix time whose calendar date chrono can represent
/// (+262142-12-31T23:59:59).
pub const MAX_TIMESTAMP: i64 = 8_210_266_876_799;

/// How many minutes the search tries: four years of 366 days.
pub const SEARCH_MINUTES: i64 = 2_108_160;

/// The seconds that one search may advance past its starting point.
pub const SEARCH_SPAN: i64 = 126_489_660;

/// The calendar fields of the Unix time `secs` in the proleptic Gregorian
/// calendar, read as a wall-clock time: (minute, hour, day-of-month, month,
/// weekday counted from Sunday = 0). Days are counted from 1970-01-01, a
/// Thursday; day and month come from the day count by the usual conversion
/// through 400-year eras that start on 1 March.
#[verifier::opaque]
pub open spec fn civil_fields_of(secs: int) -> (u32, u32, u32, u32, u32) {
    let days = secs / 86_400;
    let sod = secs % 86_400;
    let z = days + 719_468;
    let era = z / 146_097;
    let doe = z - era * 146_097;
    let yoe = (doe - doe / 1460 + doe / 36_524 - doe / 146_096) / 365;
    let doy = doe - (365 * yoe + yoe / 4 - yoe / 100);
    let mp = (5 * doy + 2) / 153;
    let day = doy - (153 * mp + 2) / 5 + 1;
    let month = if mp < 10 {
        mp + 3
    } else {
        mp - 9
    };
    (
        (sod % 3600 / 60) as u32,
        (sod / 3600) as u32,
        day as u32,
        month as u32,
        ((days + 4) % 7) as u32,
    )
}

/// `chrono::DateTime::from_timestamp(secs, 0)` read through `minute`, `hour`,
/// `day`, `month` and `weekday().num_days_from_sunday()`: within chrono's date
/// range the proleptic Gregorian fields of `secs`, outside it `None`.
#[verifier::external_body]
pub(crate) fn civil_fields(secs: i64) -> (r: Option<(u32, u32, u32, u32, u32)>)
    ensures
        MIN_TIMESTAMP <= secs <= MAX_TIMESTAMP ==> r == Some(civil_fields_of(secs as int)),
        !(MIN_TIMESTAMP <= secs <= MAX_TIMESTAMP) ==> r is None,
{
    match chrono::DateTime::from_timestamp(secs, 0) {
        Some(d) => Some(
            (
                chrono::Timelike::minute(&d),
                chrono::Timelike::hour(&d),
                chrono::Datelike::day(&d),
                chrono::Datelike::month(&d),
                chrono::Datelike::weekday(&d).num_days_from_sunday(),
            ),
        ),
        None => None,
    }
}

/// The wall-clock seconds of `t`.
pub open spec fn local_secs(t: Timestamp) -> int {
    t.secs + t.offset
}

/// The first wall-clock minute strictly after `t`'s minute: `t` plus one
/// minute, with seconds and nanoseconds cleared.
pub open spec fn start_minute(t: Timestamp) -> int {
    local_secs(t) / 60 + 1
}

/// Whether the expression fires at the wall-clock seconds `local`.
pub open spec fn fires_at(e: CronView, local: int) -> bool {
    let (minute, hour, day, month, weekday) = civil_fields_of(local);
    MIN_TIMESTAMP <= local <= MAX_TIMESTAMP && matches_spec(e, minute, hour, day, month, weekday)
}

/// The next fire time after `from` in `from`'s own offset: the search in a
/// zone whose offset never changes.
pub open spec fn next_after_spec(e: CronView, from: Timestamp) -> Option<Timestamp> {
    next_in_zone_spec(e, from, Seq::empty())
}

/// `from` and every candidate after it lie within chrono's date range, both in
/// UTC and in wall-clock time.
pub open spec fn search_in_range(from: Timestamp) -> bool {
    &&& MIN_TIMESTAMP <= from.secs
    &&& MIN_TIMESTAMP <= local_secs(from)
    &&& from.secs + SEARCH_SPAN <= MAX_TIMESTAMP
    &&& local_secs(from) + SEARCH_SPAN <= MAX_TIMESTAMP
}

/// `x / 60` rounded toward minus infinity, for `x` in chrono's range.
pub(crate) fn floor_div_60(x: i64) -> (q: i64)
    requires
        MIN_TIMESTAMP - 86_400 <= x <= MAX_TIMESTAMP + 86_400,
    ensures
        q == x as int / 60,
{
    let shift: i64 = 8_400_000_000_000;
    let y = (x + shift) as u64;
    let q = (y / 60) as i64 - 140_000_000_000;
    assert(shift == 60 * 140_000_000_000);
    assert(q == x as int / 60) by {
        vstd::arithmetic::div_mod::lemma_fundamental_div_mod(y as int, 60);
        vstd::arithmetic::div_mod::lemma_fundamental_div_mod_converse(
            x as int,
            60,
            q as int,
            y as int % 60,
        );
    }
    q
}

impl CronExpr {
    /// The next fire time strictly after `from`, truncated to the minute, in
    /// `from`'s offset; `None` when no minute of the next four years fires.
    pub fn next_after(&self, from: &Timestamp) -> (r: Option<Timestamp>)
        requires
            search_in_range(*from),
        ensures
            r == next_after_spec(self@, *from),
    {
        let fixed: Vec<(i64, i32)> = Vec::new();
        self.next_after_in(from, &fixed)
    }
}

/// The next `count` fire times after `from` in `from`'s own offset, each
/// searched from the one before, stopping early at the first search that
/// finds none.
pub open spec fn next_n_spec(e: CronView, from: Timestamp, count: nat) -> Seq<Timestamp> {
    next_n_in_spec(e, from, Seq::empty(), count)
}

/// Each of the searches that listing `count` fire times from `from` makes,
/// from `from` and then from each fire time found, stays within chrono's date
/// range.
pub open spec fn searches_in_range(e: CronView, from: Timestamp, count: nat) -> bool {
    searches_in_zone_in_range(e, from, Seq::empty(), count)
}

/// A fire time found from `from` lies strictly after it and at most one
/// search window later, on a whole wall-clock minute, in `from`'s offset.
pub proof fn lemma_next_after_later(e: CronView, from: Timestamp)
    requires
        search_in_range(from),
    ensures
        next_after_spec(e, from) matches Some(t) ==> {
            &&& from.secs < t.secs <= from.secs + SEARCH_SPAN
            &&& local_secs(from) < local_secs(t) <= local_secs(from) + SEARCH_SPAN
            &&& t.nanos == 0
            &&& t.offset == from.offset
            &&& local_secs(t) % 60 == 0
        },
{
    lemma_first_zoned_bounds(e, from, Seq::empty(), 0);
    if let Some(k) = first_zoned(e, from, Seq::empty(), 0) {
        let l = local_secs(from);
        assert(l / 60 * 60 <= l < l / 60 * 60 + 60) by {
            vstd::arithmetic::div_mod::lemma_fundamental_div_mod(l, 60);
        }
        let t = zoned_candidate(from, Seq::empty(), k);
        assert(local_secs(t) == (start_minute(from) + k) * 60);
        assert(local_secs(t) % 60 == 0) by {
            vstd::arithmetic::div_mod::lemma_fundamental_div_mod_converse(
                local_secs(t),
                60,
                start_minute(from) + k,
                0,
            );
        }
    }
}

/// Whether one search from `t` stays within chrono's date range.
pub fn in_search_range(t: &Timestamp) -> (r: bool)
    ensures
        r == search_in_range(*t),
{
    let local = t.secs as i128 + t.offset as i128;
    let secs = t.secs as i128;
    MIN_TIMESTAMP as i128 <= secs && MIN_TIMESTAMP as i128 <= local && secs + SEARCH_SPAN as i128
        <= MAX_TIMESTAMP as i128 && local + SEARCH_SPAN as i128 <= MAX_TIMESTAMP as i128
}

impl CronExpr {
    /// The next `count` fire times after `from`, each searched from the one
    /// before, or `None` where one of those searches would run past chrono's
    /// date range.
    pub fn try_next_n(&self, from: &Timestamp, count: usize) -> (r: Option<Vec<Timestamp>>)
        ensures
            match r {
                None => !searches_in_range(self@, *from, count as nat),
                Some(v) => searches_in_range(self@, *from, count as nat) && v@ == next_n_spec(
                    self@,
                    *from,
                    count as nat,
                ),
            },
    {
        let fixed: Vec<(i64, i32)> = Vec::new();
        self.try_next_n_in(from, &fixed, count)
    }

    /// The next `count` fire times after `from`, each searched from the one
    /// before; fewer when a search finds none.
    pub fn next_n(&self, from: &Timestamp, count: usize) -> (r: Vec<Timestamp>)
        requires
            searches_in_range(self@, *from, count as nat),
        ensures
            r@ == next_n_spec(self@, *from, count as nat),
    {
        match self.try_next_n(from, count) {
            Some(v) => v,
            // the precondition rules this branch out
            None => Vec::new(),
        }
    }
}

/// The fire time found from `from` is the first wall-clock minute after
/// `from` at which the expression fires: it fires there and at no minute in
/// between. When none is found, no minute of the window fires.
pub proof fn lemma_next_after_first(e: CronView, from: Timestamp)
    requires
        search_in_range(from),
    ensures
        next_after_spec(e, from) matches Some(t) ==> {
            &&& fires_at(e, local_secs(t))
            &&& forall|m: int|
                local_secs(from) < m * 60 < local_secs(t) ==> !#[trigger] fires_at(e, m * 60)
        },
        next_after_spec(e, from) is None ==> forall|m: int|
            start_minute(from) <= m < start_minute(from) + SEARCH_MINUTES ==> !#[trigger] fires_at(
                e,
                m * 60,
            ),
{
    lemma_first_zoned_bounds(e, from, Seq::empty(), 0);
    let l = local_secs(from);
    let s = start_minute(from);
    assert(l / 60 * 60 <= l < l / 60 * 60 + 60) by {
        vstd::arithmetic::div_mod::lemma_fundamental_div_mod(l, 60);
    }
    match first_zoned(e, from, Seq::empty(), 0) {
        Some(k) => {
            let t = zoned_candidate(from, Seq::empty(), k);
            assert(local_secs(t) == (s + k) * 60);
            assert forall|m: int| l < m * 60 < local_secs(t) implies !#[trigger] fires_at(e, m * 60) by {
                assert(s <= m < s + k) by (nonlinear_arith)
                    requires
                        l < m * 60 < (s + k) * 60,
                        s == l / 60 + 1,
                        l / 60 * 60 <= l,
                ;
                assert(!zoned_fires(e, from, Seq::empty(), m - s));
            }
        },
        None => {
            assert forall|m: int| s <= m < s + SEARCH_MINUTES implies !#[trigger] fires_at(e, m * 60) by {
                assert(!zoned_fires(e, from, Seq::empty(), m - s));
            }
        },
    }
}

/// The fire time found from `from` has a minute, hour and month that their
/// own fields allow, and a day that passes the day rule.
pub proof fn lemma_next_after_fields(e: CronView, from: Timestamp)
    requires
        search_in_range(from),
    ensures
        next_after_spec(e, from) matches Some(t) ==> {
            let (minute, hour, day, month, weekday) = civil_fields_of(local_secs(t));
            &&& field_allows(e.minute, minute)
            &&& field_allows(e.hour, hour)
            &&& field_allows(e.month, month)
            &&& day_matches_spec(e, day, weekday)
        },
{
    lemma_next_after_first(e, from);
    if let Some(t) = next_after_spec(e, from) {
        let (minute, hour, day, month, weekday) = civil_fields_of(local_secs(t));
        lemma_matches_fields(e, minute, hour, day, month, weekday);
    }
}

/// Searching again from any time at or after `from` and before the fire time
/// found from `from`, in the same offset, finds that same fire time.
pub proof fn lemma_next_after_stable(e: CronView, from: Timestamp, later: Timestamp)
    requires
        search_in_range(from),
        search_in_range(later),
        later.offset == from.offset,
        local_secs(from) <= local_secs(later),
        next_after_spec(e, from) is Some,
        local_secs(later) < local_secs(next_after_spec(e, from)->0),
    ensures
        next_after_spec(e, later) == next_after_spec(e, from),
{
    lemma_first_zoned_bounds(e, from, Seq::empty(), 0);
    let k = first_zoned(e, from, Seq::empty(), 0)->0;
    let s1 = start_minute(from);
    let s2 = start_minute(later);
    let t = zoned_candidate(from, Seq::empty(), k);
    let l1 = local_secs(from);
    let l2 = local_secs(later);
    assert(l2 / 60 * 60 <= l2 < l2 / 60 * 60 + 60) by {
        vstd::arithmetic::div_mod::lemma_fundamental_div_mod(l2, 60);
    }
    assert(l1 / 60 <= l2 / 60) by {
        vstd::arithmetic::div_mod::lemma_div_is_ordered(l1, l2, 60);
    }
    assert(local_secs(t) == (s1 + k) * 60);
    assert(s2 <= s1 + k) by (nonlinear_arith)
        requires
            l2 < (s1 + k) * 60,
            s2 == l2 / 60 + 1,
            l2 / 60 * 60 <= l2,
    ;
    let k2 = s1 + k - s2;
    assert forall|j: int| 0 <= j < k2 implies !zoned_fires(e, later, Seq::empty(), j) by {
        assert(zoned_fires(e, later, Seq::empty(), j) == zoned_fires(e, from, Seq::empty(), s2 + j - s1));
    }
    assert(zoned_fires(e, later, Seq::empty(), k2) == zoned_fires(e, from, Seq::empty(), k));
    lemma_first_zoned_skip(e, later, Seq::empty(), k2);
    assert(zoned_candidate(later, Seq::empty(), k2) == t);
}

} // verus!
