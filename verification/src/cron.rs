//! Cron expressions: parsing five fields and matching calendar fields.
use vstd::prelude::*;

use crate::error::{ParseError, ParseErrorView};
use crate::field::{
    field_allows, field_wf, fold_items, fold_sunday, lemma_parsed_field_allows, parse_field,
    parse_field_spec, Field, FieldView,
};
use crate::text::{pieces, split_on, split_whitespace, str_chars, ws_tokens};

verus! {

/// A parsed cron expression: minute, hour, day-of-month, month, day-of-week.
#[derive(Debug, PartialEq, Eq)]
pub struct CronExpr {
    minute: Field,
    hour: Field,
    dom: Field,
    month: Field,
    dow: Field,
}

/// The five fields of a `CronExpr`.
pub struct CronView {
    pub minute: FieldView,
    pub hour: FieldView,
    pub dom: FieldView,
    pub month: FieldView,
    pub dow: FieldView,
}

impl View for CronExpr {
    type V = CronView;

    closed spec fn view(&self) -> CronView {
        CronView {
            minute: self.minute@,
            hour: self.hour@,
            dom: self.dom@,
            month: self.month@,
            dow: self.dow@,
        }
    }
}

/// Each list field is non-empty and strictly increasing within its bounds: minute 0-59,
/// hour 0-23, day-of-month 1-31, month 1-12, day-of-week 0-6.
pub open spec fn cron_wf(e: CronView) -> bool {
    &&& field_wf(e.minute, 0, 59)
    &&& field_wf(e.hour, 0, 23)
    &&& field_wf(e.dom, 1, 31)
    &&& field_wf(e.month, 1, 12)
    &&& field_wf(e.dow, 0, 6)
}

/// Five fields, each parsed over its bounds: minute 0-59, hour 0-23,
/// day-of-month 1-31, month 1-12, day-of-week 0-7 (7 read as 0, both
/// Sunday). A minute, hour or month field that names its whole range is `*`;
/// a day field is unrestricted only when written `*`. The first failing
/// field decides the error.
pub open spec fn parse_tokens_spec(t: Seq<Seq<char>>) -> Result<CronView, ParseErrorView> {
    if t.len() != 5 {
        Err(ParseErrorView::WrongFieldCount(t.len()))
    } else {
        match parse_field_spec(t[0], 0, 59, false, true) {
            Err(e) => Err(e),
            Ok(minute) => match parse_field_spec(t[1], 0, 23, false, true) {
                Err(e) => Err(e),
                Ok(hour) => match parse_field_spec(t[2], 1, 31, false, false) {
                    Err(e) => Err(e),
                    Ok(dom) => match parse_field_spec(t[3], 1, 12, false, true) {
                        Err(e) => Err(e),
                        Ok(month) => match parse_field_spec(t[4], 0, 7, true, false) {
                            Err(e) => Err(e),
                            Ok(dow) => Ok(CronView { minute, hour, dom, month, dow }),
                        },
                    },
                },
            },
        }
    }
}

/// What parsing the text `s` as a cron expression comes to: its
/// whitespace-separated fields, parsed.
pub open spec fn parse_expr_spec(s: Seq<char>) -> Result<CronView, ParseErrorView> {
    parse_tokens_spec(ws_tokens(s))
}

/// The view of an executable expression parse result.
pub open spec fn expr_result(r: Result<CronExpr, ParseError>) -> Result<CronView, ParseErrorView> {
    match r {
        Ok(e) => Ok(e@),
        Err(e) => Err(e@),
    }
}

/// Whether the day with day-of-month `day` and weekday `weekday` (0 = Sunday)
/// is a firing day: with both day fields restricted either one suffices,
/// with one restricted only it counts, with neither every day fires.
pub open spec fn day_matches_spec(e: CronView, day: u32, weekday: u32) -> bool {
    match (e.dom is Any, e.dow is Any) {
        (true, true) => true,
        (true, false) => field_allows(e.dow, weekday),
        (false, true) => field_allows(e.dom, day),
        (false, false) => field_allows(e.dom, day) || field_allows(e.dow, weekday),
    }
}

/// Whether a time with these calendar fields fires.
pub open spec fn matches_spec(
    e: CronView,
    minute: u32,
    hour: u32,
    day: u32,
    month: u32,
    weekday: u32,
) -> bool {
    &&& field_allows(e.minute, minute)
    &&& field_allows(e.hour, hour)
    &&& field_allows(e.month, month)
    &&& day_matches_spec(e, day, weekday)
}

impl Clone for CronExpr {
    fn clone(&self) -> (r: Self)
        ensures
            r@ == self@,
    {
        proof {
            use_type_invariant(self);
        }
        CronExpr {
            minute: self.minute.clone(),
            hour: self.hour.clone(),
            dom: self.dom.clone(),
            month: self.month.clone(),
            dow: self.dow.clone(),
        }
    }
}

impl CronExpr {
    #[verifier::type_invariant]
    spec fn well_formed(self) -> bool {
        cron_wf(self@)
    }

    /// Parses the five fields of a cron expression.
    pub(crate) fn parse_tokens(t: &Vec<Vec<char>>) -> (r: Result<CronExpr, ParseError>)
        ensures
            expr_result(r) == parse_tokens_spec(pieces(t@)),
            r matches Ok(e) ==> cron_wf(e@),
    {
        let ghost tv = pieces(t@);
        if t.len() != 5 {
            return Err(ParseError::WrongFieldCount(t.len()));
        }
        assert(tv[0] == t@[0]@ && tv[1] == t@[1]@ && tv[2] == t@[2]@ && tv[3] == t@[3]@ && tv[4]
            == t@[4]@);
        let minute = match parse_field(&t[0], 0, 59, false, true) {
            Ok(f) => f,
            Err(e) => {
                return Err(e);
            },
        };
        let hour = match parse_field(&t[1], 0, 23, false, true) {
            Ok(f) => f,
            Err(e) => {
                return Err(e);
            },
        };
        let dom = match parse_field(&t[2], 1, 31, false, false) {
            Ok(f) => f,
            Err(e) => {
                return Err(e);
            },
        };
        let month = match parse_field(&t[3], 1, 12, false, true) {
            Ok(f) => f,
            Err(e) => {
                return Err(e);
            },
        };
        let dow = match parse_field(&t[4], 0, 7, true, false) {
            Ok(f) => f,
            Err(e) => {
                return Err(e);
            },
        };
        Ok(CronExpr { minute, hour, dom, month, dow })
    }

    /// Parses a cron expression: five whitespace-separated fields.
    pub fn parse(expr: &str) -> (r: Result<CronExpr, ParseError>)
        ensures
            expr_result(r) == parse_expr_spec(expr@),
            r matches Ok(e) ==> cron_wf(e@),
    {
        let s = str_chars(expr);
        let t = split_whitespace(&s);
        Self::parse_tokens(&t)
    }

    /// Whether a day fires, by day-of-month and weekday (0 = Sunday).
    pub fn day_matches(&self, day: u32, weekday: u32) -> (r: bool)
        ensures
            r == day_matches_spec(self@, day, weekday),
    {
        proof {
            use_type_invariant(self);
        }
        match (self.dom.is_any(), self.dow.is_any()) {
            (true, true) => true,
            (true, false) => self.dow.contains(weekday),
            (false, true) => self.dom.contains(day),
            (false, false) => self.dom.contains(day) || self.dow.contains(weekday),
        }
    }

    /// Whether a time with these calendar fields fires: minute, hour and
    /// month allowed, and the day firing.
    pub fn matches(&self, minute: u32, hour: u32, day: u32, month: u32, weekday: u32) -> (r: bool)
        ensures
            r == matches_spec(self@, minute, hour, day, month, weekday),
    {
        proof {
            use_type_invariant(self);
        }
        self.minute.contains(minute) && self.hour.contains(hour) && self.month.contains(month)
            && self.day_matches(day, weekday)
    }
}


/// A time fires exactly when its minute, hour and month are each allowed by
/// their own field, whatever the day fields say, and its day passes the day
/// rule.
pub proof fn lemma_matches_fields(
    e: CronView,
    minute: u32,
    hour: u32,
    day: u32,
    month: u32,
    weekday: u32,
)
    ensures
        matches_spec(e, minute, hour, day, month, weekday) ==> field_allows(e.minute, minute)
            && field_allows(e.hour, hour) && field_allows(e.month, month),
        matches_spec(e, minute, hour, day, month, weekday) <==> (field_allows(e.minute, minute)
            && field_allows(e.hour, hour) && field_allows(e.month, month) && day_matches_spec(
            e,
            day,
            weekday,
        )),
{
}

/// The day rule: a day field restricts the days only when it is not written
/// `*`. With both day fields written `*` every day fires; with one of them
/// written `*` only the other decides; with neither, a day fires when either
/// field allows it.
pub proof fn lemma_day_rule(t: Seq<Seq<char>>, day: u32, weekday: u32)
    ensures
        parse_tokens_spec(t) matches Ok(e) ==> {
            let dom_star = t[2] == seq!['*'];
            let dow_star = t[4] == seq!['*'];
            &&& dom_star && dow_star ==> day_matches_spec(e, day, weekday)
            &&& dom_star && !dow_star ==> (day_matches_spec(e, day, weekday) <==> field_allows(
                e.dow,
                weekday,
            ))
            &&& !dom_star && dow_star ==> (day_matches_spec(e, day, weekday) <==> field_allows(
                e.dom,
                day,
            ))
            &&& !dom_star && !dow_star ==> (day_matches_spec(e, day, weekday) <==> (field_allows(
                e.dom,
                day,
            ) || field_allows(e.dow, weekday)))
        },
{
    if t.len() == 5 {
        lemma_parsed_field_allows(t[2], 1, 31, false, false);
        lemma_parsed_field_allows(t[4], 0, 7, true, false);
    }
}

/// In the day-of-week field 7 and 0 both mean Sunday: a parsed day-of-week
/// list never holds 7, and holds 0 exactly when its items name 0 or 7.
pub proof fn lemma_dow_seven_is_sunday(t: Seq<Seq<char>>)
    ensures
        parse_tokens_spec(t) matches Ok(e) ==> e.dow is Values ==> {
            let named = fold_items(split_on(t[4], ','), t[4], 0, 7)->Ok_0;
            &&& !field_allows(e.dow, 7)
            &&& field_allows(e.dow, 0) <==> (named.contains(0) || named.contains(7))
        },
{
    if t.len() == 5 {
        lemma_parsed_field_allows(t[4], 0, 7, true, false);
    }
}

} // verus!
