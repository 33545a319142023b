//! The search for fire times, minute by minute over a window of about four
//! years, in a time zone whose UTC offset may change (daylight saving): each
//! candidate minute is read in the offset in force at that instant. A fixed
//! offset is the zone with no changes.
use vstd::prelude::*;

use crate::cron::{day_matches_spec, lemma_matches_fields, CronExpr, CronView};
use crate::field::field_allows;
use crate::schedule::{
    civil_fields, civil_fields_of, fires_at, floor_div_60, in_search_range, local_secs, search_in_range,
    start_minute, Timestamp, SEARCH_MINUTES, SEARCH_SPAN,
};

verus! {

/// The UTC offset in force at the Unix time `u`: the offset of the last
/// change in `changes` (pairs of the Unix time it starts and the offset) that
/// starts at or before `u`, or `base` when there is none.
pub open spec fn offset_at(changes: Seq<(i64, i32)>, base: i32, u: int) -> i32
    decreases changes.len(),
{
    if changes.len() == 0 {
        base
    } else if changes.last().0 <= u {
        changes.last().1
    } else {
        offset_at(changes.drop_last(), base, u)
    }
}

/// The offset in force at `u` is that of the last change in the list that
/// starts at or before `u`, and `base` when no change starts by then.
pub proof fn lemma_offset_in_force(changes: Seq<(i64, i32)>, base: i32, u: int)
    ensures
        forall|i: int|
            0 <= i < changes.len() && changes[i].0 <= u && (forall|j: int|
                i < j < changes.len() ==> #[trigger] changes[j].0 > u) ==> offset_at(changes, base, u)
                == #[trigger] changes[i].1,
        (forall|j: int| 0 <= j < changes.len() ==> #[trigger] changes[j].0 > u) ==> offset_at(
            changes,
            base,
            u,
        ) == base,
    decreases changes.len(),
{
    if changes.len() > 0 {
        let rest = changes.drop_last();
        lemma_offset_in_force(rest, base, u);
        let n = changes.len() - 1;
        assert forall|i: int|
            0 <= i < changes.len() && changes[i].0 <= u && (forall|j: int|
                i < j < changes.len() ==> #[trigger] changes[j].0 > u) implies offset_at(
            changes,
            base,
            u,
        ) == #[trigger] changes[i].1 by {
            if i < n {
                assert(changes[n].0 > u);
                assert(rest[i] == changes[i]);
                assert forall|j: int| i < j < rest.len() implies #[trigger] rest[j].0 > u by {
                    assert(rest[j] == changes[j]);
                }
            }
        }
        if forall|j: int| 0 <= j < changes.len() ==> #[trigger] changes[j].0 > u {
            assert(changes[n].0 > u);
            assert forall|j: int| 0 <= j < rest.len() implies #[trigger] rest[j].0 > u by {
                assert(rest[j] == changes[j]);
            }
        }
    }
}

/// The offset in force at `u`.
pub fn offset_in(changes: &Vec<(i64, i32)>, base: i32, u: i64) -> (r: i32)
    ensures
        r == offset_at(changes@, base, u as int),
{
    let mut i: usize = changes.len();
    assert(changes@.take(i as int) =~= changes@);
    while i > 0
        invariant
            i <= changes.len(),
            offset_at(changes@, base, u as int) == offset_at(changes@.take(i as int), base, u as int),
        decreases i,
    {
        let (start, off) = changes[i - 1];
        let ghost pre = changes@.take(i as int);
        assert(pre.last() == changes@[i - 1]);
        assert(pre.drop_last() =~= changes@.take(i - 1));
        if start <= u {
            return off;
        }
        i = i - 1;
    }
    base
}

/// The Unix time of the `k`-th candidate after `from`: `from` plus one minute,
/// its wall-clock seconds cleared, then `k` minutes on.
pub open spec fn zoned_utc(from: Timestamp, k: int) -> int {
    (start_minute(from) + k) * 60 - from.offset
}

/// The `k`-th candidate after `from`, in the offset in force then.
pub open spec fn zoned_candidate(from: Timestamp, changes: Seq<(i64, i32)>, k: int) -> Timestamp {
    let u = zoned_utc(from, k);
    Timestamp { secs: u as i64, nanos: 0, offset: offset_at(changes, from.offset, u) }
}

/// Whether the `k`-th candidate fires, read at its own wall-clock time.
pub open spec fn zoned_fires(e: CronView, from: Timestamp, changes: Seq<(i64, i32)>, k: int) -> bool {
    let u = zoned_utc(from, k);
    fires_at(e, u + offset_at(changes, from.offset, u))
}

/// The index of the first firing candidate among the `k`-th and later ones
/// inside the window.
pub open spec fn first_zoned(e: CronView, from: Timestamp, changes: Seq<(i64, i32)>, k: int) -> Option<int>
    decreases SEARCH_MINUTES - k,
{
    if k < 0 || k >= SEARCH_MINUTES {
        None
    } else if zoned_fires(e, from, changes, k) {
        Some(k)
    } else {
        first_zoned(e, from, changes, k + 1)
    }
}

/// The next fire time after `from` when the offset follows `changes`: the
/// first candidate minute within the window that fires at its wall-clock time.
pub open spec fn next_in_zone_spec(e: CronView, from: Timestamp, changes: Seq<(i64, i32)>) -> Option<
    Timestamp,
> {
    match first_zoned(e, from, changes, 0) {
        Some(k) => Some(zoned_candidate(from, changes, k)),
        None => None,
    }
}

pub(crate) proof fn lemma_first_zoned_skip(e: CronView, from: Timestamp, changes: Seq<(i64, i32)>, k: int)
    requires
        0 <= k <= SEARCH_MINUTES,
        forall|j: int| 0 <= j < k ==> !zoned_fires(e, from, changes, j),
    ensures
        first_zoned(e, from, changes, 0) == first_zoned(e, from, changes, k),
    decreases k,
{
    if k > 0 {
        lemma_first_zoned_skip(e, from, changes, k - 1);
        assert(!zoned_fires(e, from, changes, k - 1));
    }
}

pub(crate) proof fn lemma_first_zoned_bounds(e: CronView, from: Timestamp, changes: Seq<(i64, i32)>, k: int)
    ensures
        first_zoned(e, from, changes, k) matches Some(m) ==> {
            &&& 0 <= k <= m < SEARCH_MINUTES
            &&& zoned_fires(e, from, changes, m)
            &&& forall|j: int| k <= j < m ==> !zoned_fires(e, from, changes, j)
        },
        (first_zoned(e, from, changes, k) is None && 0 <= k) ==> forall|j: int|
            k <= j < SEARCH_MINUTES ==> !zoned_fires(e, from, changes, j),
    decreases SEARCH_MINUTES - k,
{
    if 0 <= k < SEARCH_MINUTES && !zoned_fires(e, from, changes, k) {
        lemma_first_zoned_bounds(e, from, changes, k + 1);
    }
}

/// The fire time found in a zone is the first candidate minute after `from`
/// that fires at its own wall-clock time, in the offset in force then; when
/// none is found, no candidate of the window fires.
pub proof fn lemma_next_in_zone_first(e: CronView, from: Timestamp, changes: Seq<(i64, i32)>)
    ensures
        next_in_zone_spec(e, from, changes) matches Some(t) ==> exists|k: int|
            0 <= k < SEARCH_MINUTES && t == zoned_candidate(from, changes, k) && zoned_fires(
                e,
                from,
                changes,
                k,
            ) && forall|j: int| 0 <= j < k ==> !#[trigger] zoned_fires(e, from, changes, j),
        next_in_zone_spec(e, from, changes) is None ==> forall|k: int|
            0 <= k < SEARCH_MINUTES ==> !#[trigger] zoned_fires(e, from, changes, k),
{
    lemma_first_zoned_bounds(e, from, changes, 0);
    if let Some(k) = first_zoned(e, from, changes, 0) {
        let t = zoned_candidate(from, changes, k);
        assert(0 <= k < SEARCH_MINUTES && t == zoned_candidate(from, changes, k));
    }
}

impl CronExpr {
    /// The next fire time strictly after `from`, truncated to the minute, each
    /// candidate minute read in the offset that `changes` puts in force at it
    /// (`from.offset` before the first change); `None` when no minute of the
    /// next four years fires.
    pub fn next_after_in(&self, from: &Timestamp, changes: &Vec<(i64, i32)>) -> (r: Option<Timestamp>)
        requires
            search_in_range(*from),
        ensures
            r == next_in_zone_spec(self@, *from, changes@),
    {
        let local: i64 = from.secs + from.offset as i64;
        let m0: i64 = floor_div_60(local) + 1;
        let mut k: i64 = 0;
        while k < SEARCH_MINUTES
            invariant
                0 <= k <= SEARCH_MINUTES,
                search_in_range(*from),
                m0 == start_minute(*from),
                forall|j: int| 0 <= j < k ==> !zoned_fires(self@, *from, changes@, j),
            decreases SEARCH_MINUTES - k,
        {
            let utc: i64 = (m0 + k) * 60 - from.offset as i64;
            let off = offset_in(changes, from.offset, utc);
            let at: i64 = utc + off as i64;
            let t = Timestamp { secs: utc, nanos: 0, offset: off };
            assert(t == zoned_candidate(*from, changes@, k as int));
            match civil_fields(at) {
                Some((minute, hour, day, month, weekday)) => {
                    if self.matches(minute, hour, day, month, weekday) {
                        proof {
                            lemma_first_zoned_skip(self@, *from, changes@, k as int);
                        }
                        return Some(t);
                    }
                },
                None => {},
            }
            k = k + 1;
        }
        proof {
            lemma_first_zoned_skip(self@, *from, changes@, SEARCH_MINUTES as int);
        }
        None
    }
}

/// The next `count` fire times after `from` in a zone, each searched from the
/// one before, stopping early at the first search that finds none.
pub open spec fn next_n_in_spec(e: CronView, from: Timestamp, changes: Seq<(i64, i32)>, count: nat) -> Seq<
    Timestamp,
>
    decreases count,
{
    if count == 0 {
        Seq::<Timestamp>::empty()
    } else {
        match next_in_zone_spec(e, from, changes) {
            None => Seq::<Timestamp>::empty(),
            Some(t) => seq![t] + next_n_in_spec(e, t, changes, (count - 1) as nat),
        }
    }
}

/// Each search that listing `count` fire times in a zone makes stays within
/// chrono's date range.
pub open spec fn searches_in_zone_in_range(
    e: CronView,
    from: Timestamp,
    changes: Seq<(i64, i32)>,
    count: nat,
) -> bool
    decreases count,
{
    count == 0 || (search_in_range(from) && match next_in_zone_spec(e, from, changes) {
        None => true,
        Some(t) => searches_in_zone_in_range(e, t, changes, (count - 1) as nat),
    })
}

impl CronExpr {
    /// The next `count` fire times after `from` in a zone, each searched from
    /// the one before, or `None` where one of those searches would run past
    /// chrono's date range.
    pub fn try_next_n_in(&self, from: &Timestamp, changes: &Vec<(i64, i32)>, count: usize) -> (r:
        Option<Vec<Timestamp>>)
        ensures
            match r {
                None => !searches_in_zone_in_range(self@, *from, changes@, count as nat),
                Some(v) => searches_in_zone_in_range(self@, *from, changes@, count as nat) && v@
                    == next_n_in_spec(self@, *from, changes@, count as nat),
            },
    {
        let mut out: Vec<Timestamp> = Vec::new();
        let mut cur: Timestamp = *from;
        let mut i: usize = 0;
        while i < count
            invariant
                i <= count,
                searches_in_zone_in_range(self@, *from, changes@, count as nat)
                    <==> searches_in_zone_in_range(self@, cur, changes@, (count - i) as nat),
                out@ + next_n_in_spec(self@, cur, changes@, (count - i) as nat) == next_n_in_spec(
                    self@,
                    *from,
                    changes@,
                    count as nat,
                ),
            decreases count - i,
        {
            if !in_search_range(&cur) {
                return None;
            }
            match self.next_after_in(&cur, changes) {
                Some(next) => {
                    let ghost before = out@;
                    out.push(next);
                    proof {
                        assert(next_n_in_spec(self@, cur, changes@, (count - i) as nat) == seq![next]
                            + next_n_in_spec(self@, next, changes@, (count - i - 1) as nat));
                        assert(out@ + next_n_in_spec(self@, next, changes@, (count - i - 1) as nat)
                            =~= before + next_n_in_spec(self@, cur, changes@, (count - i) as nat));
                    }
                    cur = next;
                },
                None => {
                    assert(out@ =~= out@ + next_n_in_spec(self@, cur, changes@, (count - i) as nat));
                    return Some(out);
                },
            }
            i = i + 1;
        }
        assert(out@ =~= out@ + next_n_in_spec(self@, cur, changes@, 0));
        Some(out)
    }
}

/// A fire time found in a zone lies strictly after `from` and at most one
/// search window later, at a whole second.
pub proof fn lemma_next_in_zone_later(e: CronView, from: Timestamp, changes: Seq<(i64, i32)>)
    requires
        search_in_range(from),
    ensures
        next_in_zone_spec(e, from, changes) matches Some(t) ==> {
            &&& from.secs < t.secs <= from.secs + SEARCH_SPAN
            &&& t.nanos == 0
        },
{
    lemma_first_zoned_bounds(e, from, changes, 0);
    if let Some(k) = first_zoned(e, from, changes, 0) {
        let l = local_secs(from);
        assert(l / 60 * 60 <= l < l / 60 * 60 + 60) by {
            vstd::arithmetic::div_mod::lemma_fundamental_div_mod(l, 60);
        }
        assert(from.secs < zoned_utc(from, k) <= from.secs + SEARCH_SPAN);
    }
}

/// The fire time found in a zone carries the offset in force at it, and read
/// at its own wall-clock time it has a minute, hour and month that their own
/// fields allow, and a day that passes the day rule.
pub proof fn lemma_next_in_zone_fields(e: CronView, from: Timestamp, changes: Seq<(i64, i32)>)
    requires
        search_in_range(from),
    ensures
        next_in_zone_spec(e, from, changes) matches Some(t) ==> {
            let (minute, hour, day, month, weekday) = civil_fields_of(local_secs(t));
            &&& t.offset == offset_at(changes, from.offset, t.secs as int)
            &&& field_allows(e.minute, minute)
            &&& field_allows(e.hour, hour)
            &&& field_allows(e.month, month)
            &&& day_matches_spec(e, day, weekday)
        },
{
    lemma_first_zoned_bounds(e, from, changes, 0);
    lemma_next_in_zone_later(e, from, changes);
    if let Some(k) = first_zoned(e, from, changes, 0) {
        let l = local_secs(from);
        assert(l / 60 * 60 <= l < l / 60 * 60 + 60) by {
            vstd::arithmetic::div_mod::lemma_fundamental_div_mod(l, 60);
        }
        let u = zoned_utc(from, k);
        let t = zoned_candidate(from, changes, k);
        assert(from.secs < u <= from.secs + SEARCH_SPAN);
        assert(t.secs as int == u);
        assert(local_secs(t) == u + offset_at(changes, from.offset, u));
        let (minute, hour, day, month, weekday) = civil_fields_of(local_secs(t));
        lemma_matches_fields(e, minute, hour, day, month, weekday);
    }
}

/// The fire times listed in a zone follow one another: the first is the fire
/// time found from `from`, each next one the fire time found from the one
/// before, each strictly later where the searches stay within chrono's date
/// range; the list stops short of `count` only where a search finds none.
pub proof fn lemma_next_n_in_chain(e: CronView, from: Timestamp, changes: Seq<(i64, i32)>, count: nat)
    ensures
        searches_in_zone_in_range(e, from, changes, count) ==> forall|i: int|
            0 <= i < next_n_in_spec(e, from, changes, count).len() - 1 ==> (
            #[trigger] next_n_in_spec(e, from, changes, count)[i]).secs < next_n_in_spec(
                e,
                from,
                changes,
                count,
            )[i + 1].secs,
        next_n_in_spec(e, from, changes, count).len() <= count,
        count > 0 && next_n_in_spec(e, from, changes, count).len() == 0 ==> next_in_zone_spec(
            e,
            from,
            changes,
        ) is None,
        next_n_in_spec(e, from, changes, count).len() > 0 ==> next_in_zone_spec(e, from, changes)
            == Some(next_n_in_spec(e, from, changes, count)[0]),
        forall|i: int|
            0 <= i < next_n_in_spec(e, from, changes, count).len() - 1 ==> next_in_zone_spec(
                e,
                #[trigger] next_n_in_spec(e, from, changes, count)[i],
                changes,
            ) == Some(next_n_in_spec(e, from, changes, count)[i + 1]),
        0 < next_n_in_spec(e, from, changes, count).len() < count ==> next_in_zone_spec(
            e,
            next_n_in_spec(e, from, changes, count).last(),
            changes,
        ) is None,
    decreases count,
{
    if count > 0 {
        if let Some(t) = next_in_zone_spec(e, from, changes) {
            let c = (count - 1) as nat;
            lemma_next_n_in_chain(e, t, changes, c);
            let rest = next_n_in_spec(e, t, changes, c);
            let all = next_n_in_spec(e, from, changes, count);
            assert(all == seq![t] + rest);
            assert forall|i: int| 0 <= i < all.len() - 1 implies next_in_zone_spec(
                e,
                #[trigger] all[i],
                changes,
            ) == Some(all[i + 1]) by {
                if i > 0 {
                    assert(all[i] == rest[i - 1]);
                    assert(all[i + 1] == rest[i]);
                } else {
                    assert(all[1] == rest[0]);
                }
            }
            if searches_in_zone_in_range(e, from, changes, count) {
                assert forall|i: int| 0 <= i < all.len() - 1 implies (#[trigger] all[i]).secs
                    < all[i + 1].secs by {
                    if i > 0 {
                        assert(all[i] == rest[i - 1]);
                        assert(all[i + 1] == rest[i]);
                    } else {
                        assert(all[1] == rest[0]);
                        assert(c > 0);
                        assert(searches_in_zone_in_range(e, t, changes, c));
                        lemma_next_in_zone_later(e, t, changes);
                    }
                }
            }
            if 0 < all.len() < count {
                if rest.len() == 0 {
                    assert(all.last() == t);
                } else {
                    assert(all.last() == rest.last());
                }
            }
        }
    }
}

/// Listing fewer fire times gives a prefix of listing more: the first `m`
/// of the fire times listed for `n >= m`, or all of them when there are fewer.
pub proof fn lemma_next_n_prefix(
    e: CronView,
    from: Timestamp,
    changes: Seq<(i64, i32)>,
    m: nat,
    n: nat,
)
    requires
        m <= n,
    ensures
        next_n_in_spec(e, from, changes, m) == (if next_n_in_spec(e, from, changes, n).len() >= m {
            next_n_in_spec(e, from, changes, n).take(m as int)
        } else {
            next_n_in_spec(e, from, changes, n)
        }),
        next_n_in_spec(e, from, changes, m).len() <= m,
    decreases m,
{
    if m == 0 {
        assert(next_n_in_spec(e, from, changes, n).take(0) =~= Seq::<Timestamp>::empty());
    } else if let Some(t) = next_in_zone_spec(e, from, changes) {
        lemma_next_n_prefix(e, t, changes, (m - 1) as nat, (n - 1) as nat);
        let big = next_n_in_spec(e, from, changes, n);
        let rest = next_n_in_spec(e, t, changes, (n - 1) as nat);
        assert(big == seq![t] + rest);
        if big.len() >= m {
            assert(seq![t] + rest.take(m - 1) =~= big.take(m as int));
        }
    }
}

} // verus!
