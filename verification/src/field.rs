//! One field of a cron expression: its grammar, the set of values it allows,
//! and membership.
use vstd::prelude::*;

use crate::error::{ParseError, ParseErrorView};
use crate::text::{
    all_digits, chars_to_string, copy_range, digits_value, find_char, first_index, is_digit,
    lemma_first_index_at, lemma_split_on_nonempty, parse_u32, parse_u32_spec, pieces, split_chars,
    split_on,
};

verus! {

/// A parsed field: every value of its range, or an explicit list.
#[derive(Debug, PartialEq, Eq)]
pub enum Field {
    Any,
    Values(Vec<u32>),
}

/// The mathematical content of a `Field`.
pub enum FieldView {
    Any,
    Values(Seq<u32>),
}

impl View for Field {
    type V = FieldView;

    open spec fn view(&self) -> FieldView {
        match self {
            Field::Any => FieldView::Any,
            Field::Values(v) => FieldView::Values(v@),
        }
    }
}

impl Clone for Field {
    fn clone(&self) -> (r: Self)
        ensures
            r@ == self@,
    {
        match self {
            Field::Any => Field::Any,
            Field::Values(v) => {
                let mut w: Vec<u32> = Vec::new();
                let mut i: usize = 0;
                while i < v.len()
                    invariant
                        i <= v.len(),
                        w@ == v@.take(i as int),
                    decreases v.len() - i,
                {
                    w.push(v[i]);
                    i = i + 1;
                    assert(w@ =~= v@.take(i as int));
                }
                assert(v@.take(v.len() as int) =~= v@);
                Field::Values(w)
            },
        }
    }
}

/// Whether a field allows the value `v`.
pub open spec fn field_allows(f: FieldView, v: u32) -> bool {
    match f {
        FieldView::Any => true,
        FieldView::Values(s) => s.contains(v),
    }
}

/// A list field's values are not empty, strictly increasing, and lie in
/// `[min, max]`.
pub open spec fn field_wf(f: FieldView, min: u32, max: u32) -> bool {
    match f {
        FieldView::Any => true,
        FieldView::Values(s) => {
            &&& s.len() >= 1
            &&& forall|i: int, j: int| 0 <= i < j < s.len() ==> s[i] < s[j]
            &&& forall|i: int| 0 <= i < s.len() ==> min <= #[trigger] s[i] <= max
        },
    }
}

/// The bounds named by the part of an item before any `/`: `*` is the whole
/// range, `a-b` a range, and a single number `v` is `v..=v`, or `v..=max`
/// when a step follows.
pub open spec fn item_bounds(range_part: Seq<char>, part: Seq<char>, has_step: bool, min: u32, max: u32) -> Result<
    (u32, u32),
    ParseErrorView,
> {
    if range_part == seq!['*'] {
        Ok((min, max))
    } else if first_index(range_part, '-') >= 0 {
        let d = first_index(range_part, '-');
        match (parse_u32_spec(range_part.take(d)), parse_u32_spec(range_part.skip(d + 1))) {
            (Some(lo), Some(hi)) => if lo > hi {
                Err(ParseErrorView::BadRange(part))
            } else {
                Ok((lo, hi))
            },
            _ => Err(ParseErrorView::BadRange(part)),
        }
    } else {
        match parse_u32_spec(range_part) {
            None => Err(ParseErrorView::BadValue(part)),
            Some(v) => if has_step {
                Ok((v, max))
            } else {
                Ok((v, v))
            },
        }
    }
}

/// One comma-separated item of the field `raw`: its low bound, high bound and
/// step, or the error it is refused with.
pub open spec fn item_spec(part: Seq<char>, raw: Seq<char>, min: u32, max: u32) -> Result<
    (u32, u32, u32),
    ParseErrorView,
> {
    if part.len() == 0 {
        Err(ParseErrorView::BadValue(raw))
    } else {
        let slash = first_index(part, '/');
        let step = if slash >= 0 {
            parse_u32_spec(part.skip(slash + 1))
        } else {
            Some(1u32)
        };
        if slash >= 0 && (step is None || step == Some(0u32)) {
            Err(ParseErrorView::BadStep(part))
        } else {
            let range_part = if slash >= 0 {
                part.take(slash)
            } else {
                part
            };
            match item_bounds(range_part, part, slash >= 0, min, max) {
                Err(e) => Err(e),
                Ok((lo, hi)) => if lo < min || lo > max || hi > max {
                    Err(ParseErrorView::OutOfBounds(part))
                } else {
                    Ok((lo, hi, step->0))
                },
            }
        }
    }
}


/// The item `part` of the field `raw` checked against `[min, max]`.
fn parse_item(part: &Vec<char>, raw: &Vec<char>, min: u32, max: u32) -> (r: Result<
    (u32, u32, u32),
    ParseError,
>)
    ensures
        match r {
            Ok(t) => item_spec(part@, raw@, min, max) == Ok::<_, ParseErrorView>(t),
            Err(e) => item_spec(part@, raw@, min, max) == Err::<(u32, u32, u32), _>(e@),
        },
{
    if part.len() == 0 {
        return Err(ParseError::BadValue(chars_to_string(raw)));
    }
    let slash = find_char(part, '/');
    let (range_part, step) = match slash {
        Some(k) => {
            let step_text = copy_range(part, k + 1, part.len());
            assert(step_text@ =~= part@.skip(k + 1));
            match parse_u32(&step_text) {
                None => {
                    return Err(ParseError::BadStep(chars_to_string(part)));
                },
                Some(s) => {
                    if s == 0 {
                        return Err(ParseError::BadStep(chars_to_string(part)));
                    }
                    let r = copy_range(part, 0, k);
                    assert(r@ =~= part@.take(k as int));
                    (r, Some(s))
                },
            }
        },
        None => (copy_range(part, 0, part.len()), None),
    };
    assert(slash is None ==> range_part@ =~= part@);
    let has_step = step.is_some();
    let is_star = range_part.len() == 1 && range_part[0] == '*';
    assert(is_star <==> range_part@ == seq!['*']) by {
        if range_part@ == seq!['*'] {
            assert(range_part@[0] == '*');
        }
        if is_star {
            assert(range_part@ =~= seq!['*']);
        }
    }
    let (lo, hi) = if is_star {
        (min, max)
    } else {
        match find_char(&range_part, '-') {
            Some(d) => {
                let a = copy_range(&range_part, 0, d);
                let b = copy_range(&range_part, d + 1, range_part.len());
                assert(a@ =~= range_part@.take(d as int));
                assert(b@ =~= range_part@.skip(d + 1));
                let lo = match parse_u32(&a) {
                    Some(v) => v,
                    None => {
                        return Err(ParseError::BadRange(chars_to_string(part)));
                    },
                };
                let hi = match parse_u32(&b) {
                    Some(v) => v,
                    None => {
                        return Err(ParseError::BadRange(chars_to_string(part)));
                    },
                };
                if lo > hi {
                    return Err(ParseError::BadRange(chars_to_string(part)));
                }
                (lo, hi)
            },
            None => {
                let v = match parse_u32(&range_part) {
                    Some(v) => v,
                    None => {
                        return Err(ParseError::BadValue(chars_to_string(part)));
                    },
                };
                if has_step {
                    (v, max)
                } else {
                    (v, v)
                }
            },
        }
    };
    if lo < min || lo > max || hi > max {
        return Err(ParseError::OutOfBounds(chars_to_string(part)));
    }
    let step = match step {
        Some(s) => s,
        None => 1,
    };
    Ok((lo, hi, step))
}


/// The values that the item `lo-hi/step` names.
pub open spec fn item_values(lo: u32, hi: u32, step: u32) -> Set<u32> {
    Set::new(|v: u32| lo <= v <= hi && (v - lo) % (step as int) == 0)
}

/// The items of a field taken in order: the union of their values, or the
/// first error.
pub open spec fn fold_items(parts: Seq<Seq<char>>, raw: Seq<char>, min: u32, max: u32) -> Result<
    Set<u32>,
    ParseErrorView,
>
    decreases parts.len(),
{
    if parts.len() == 0 {
        Ok(Set::empty())
    } else {
        match fold_items(parts.drop_last(), raw, min, max) {
            Ok(acc) => match item_spec(parts.last(), raw, min, max) {
                Err(e) => Err(e),
                Ok((lo, hi, step)) => Ok(acc.union(item_values(lo, hi, step))),
            },
            Err(e) => Err(e),
        }
    }
}

/// The values a field stands for: with `sunday_alias` (the day-of-week field),
/// the value 7 stands for Sunday, 0.
pub open spec fn fold_sunday(set: Set<u32>, sunday_alias: bool) -> Set<u32> {
    if sunday_alias && set.contains(7) {
        set.insert(0)
    } else {
        set
    }
}

/// The last value a field lists: `max`, or 6 for the day-of-week field, whose
/// 7 is listed as 0.
pub open spec fn top_value(max: u32, sunday_alias: bool) -> u32 {
    if sunday_alias {
        (max - 1) as u32
    } else {
        max
    }
}

/// The members of `set` among `lo, lo + 1, ..., lo + n - 1`, ascending.
pub open spec fn ascending(set: Set<u32>, lo: u32, n: nat) -> Seq<u32>
    decreases n,
{
    if n == 0 {
        Seq::<u32>::empty()
    } else {
        let rest = ascending(set, lo, (n - 1) as nat);
        let v = lo + n - 1;
        if set.contains(v as u32) {
            rest.push(v as u32)
        } else {
            rest
        }
    }
}

/// Whether `set` holds every value of `[lo, hi]`.
pub open spec fn covers(set: Set<u32>, lo: u32, hi: u32) -> bool {
    forall|v: u32| lo <= v <= hi ==> #[trigger] set.contains(v)
}

/// A field as text over the range `[min, max]`: `Any` when it is written as
/// `*`, or, with `full_is_any`, when its items name every value of the range;
/// else the values its items name, ascending.
pub open spec fn parse_field_spec(
    raw: Seq<char>,
    min: u32,
    max: u32,
    sunday_alias: bool,
    full_is_any: bool,
) -> Result<FieldView, ParseErrorView> {
    match fold_items(split_on(raw, ','), raw, min, max) {
        Err(e) => Err(e),
        Ok(set) => {
            let named = fold_sunday(set, sunday_alias);
            let top = top_value(max, sunday_alias);
            if raw == seq!['*'] || (full_is_any && covers(named, min, top)) {
                Ok(FieldView::Any)
            } else {
                Ok(FieldView::Values(ascending(named, min, (top - min + 1) as nat)))
            }
        },
    }
}

/// The view of an executable field parse result.
pub open spec fn field_result(r: Result<Field, ParseError>) -> Result<FieldView, ParseErrorView> {
    match r {
        Ok(f) => Ok(f@),
        Err(e) => Err(e@),
    }
}

proof fn lemma_fold_stops(parts: Seq<Seq<char>>, raw: Seq<char>, min: u32, max: u32, n: int)
    requires
        0 <= n <= parts.len(),
        fold_items(parts.take(n), raw, min, max) is Err,
    ensures
        fold_items(parts, raw, min, max) == fold_items(parts.take(n), raw, min, max),
    decreases parts.len() - n,
{
    if n < parts.len() {
        assert(parts.drop_last().take(n) =~= parts.take(n));
        lemma_fold_stops(parts.drop_last(), raw, min, max, n);
    } else {
        assert(parts.take(n) =~= parts);
    }
}

proof fn lemma_ascending(set: Set<u32>, lo: u32, n: nat)
    requires
        lo + n <= u32::MAX + 1,
    ensures
        ascending(set, lo, n).len() <= n,
        ascending(set, lo, n).len() == n <==> (forall|v: u32|
            lo <= v < lo + n ==> #[trigger] set.contains(v)),
        forall|i: int, j: int|
            0 <= i < j < ascending(set, lo, n).len() ==> ascending(set, lo, n)[i] < ascending(
                set,
                lo,
                n,
            )[j],
        forall|i: int|
            0 <= i < ascending(set, lo, n).len() ==> lo <= #[trigger] ascending(set, lo, n)[i] < lo
                + n && set.contains(ascending(set, lo, n)[i]),
        forall|v: u32|
            lo <= v < lo + n ==> (#[trigger] ascending(set, lo, n).contains(v) <==> set.contains(v)),
    decreases n,
{
    if n > 0 {
        let m = (n - 1) as nat;
        lemma_ascending(set, lo, m);
        let rest = ascending(set, lo, m);
        let v = (lo + n - 1) as u32;
        let s = ascending(set, lo, n);
        if set.contains(v) {
            assert(s == rest.push(v));
            assert forall|w: u32| lo <= w < lo + n implies (#[trigger] s.contains(w) <==> set.contains(
                w,
            )) by {
                if w < lo + m {
                    if s.contains(w) {
                        let i = choose|i: int| 0 <= i < s.len() && s[i] == w;
                        if i < rest.len() {
                            assert(rest[i] == w);
                        }
                    }
                    if rest.contains(w) {
                        let i = choose|i: int| 0 <= i < rest.len() && rest[i] == w;
                        assert(s[i] == w);
                    }
                } else {
                    assert(s[s.len() - 1] == v);
                }
            }
            if s.len() == n {
                assert forall|w: u32| lo <= w < lo + n implies #[trigger] set.contains(w) by {
                    if w < lo + m {
                        assert(set.contains(w));
                    }
                }
            }
            if forall|w: u32| lo <= w < lo + n ==> #[trigger] set.contains(w) {
                assert forall|w: u32| lo <= w < lo + m implies #[trigger] set.contains(w) by {
                    assert(lo <= w < lo + n);
                }
            }
        } else {
            assert(s == rest);
            assert(!(forall|w: u32| lo <= w < lo + n ==> #[trigger] set.contains(w)));
            assert forall|w: u32| lo <= w < lo + n implies (#[trigger] s.contains(w) <==> set.contains(
                w,
            )) by {
                if w == v {
                    if s.contains(w) {
                        let i = choose|i: int| 0 <= i < s.len() && s[i] == w;
                        assert(rest[i] < lo + m);
                    }
                }
            }
        }
    }
}


proof fn lemma_step_members(lo: int, step: int, k: int)
    requires
        step > 0,
        k >= 0,
    ensures
        (k * step) % step == 0,
        forall|x: int| lo + k * step < x < lo + k * step + step ==> #[trigger] ((x - lo) % step) != 0,
{
    vstd::arithmetic::div_mod::lemma_fundamental_div_mod_converse(k * step, step, k, 0);
    assert forall|x: int| lo + k * step < x < lo + k * step + step implies #[trigger] ((x - lo)
        % step) != 0 by {
        vstd::arithmetic::div_mod::lemma_fundamental_div_mod_converse(
            x - lo,
            step,
            k,
            x - lo - k * step,
        );
    }
}

/// Marks in `seen` the values of the item `lo-hi/step`.
fn mark_item(seen: &mut Vec<bool>, lo: u32, hi: u32, step: u32)
    requires
        hi < old(seen)@.len() <= 64,
        step > 0,
    ensures
        final(seen)@.len() == old(seen)@.len(),
        forall|x: u32|
            x < old(seen)@.len() ==> (#[trigger] final(seen)@[x as int] <==> (old(seen)@[x as int]
                || item_values(lo, hi, step).contains(x))),
{
    let ghost orig = seen@;
    let mut v: u64 = lo as u64;
    let ghost mut k: int = 0;
    while v <= hi as u64
        invariant
            orig == old(seen)@,
            hi < seen@.len() <= 64,
            seen@.len() == orig.len(),
            step > 0,
            lo <= v,
            k >= 0,
            v == lo + k * step,
            forall|x: u32|
                x < seen@.len() ==> (#[trigger] seen@[x as int] <==> (orig[x as int] || (lo <= x
                    <= hi && x < v && ((x - lo) % (step as int)) == 0))),
        decreases u64::MAX - v,
    {
        proof {
            lemma_step_members(lo as int, step as int, k);
        }
        let ghost before = seen@;
        seen.set(v as usize, true);
        assert(seen@ == before.update(v as int, true));
        let ghost old_v = v;
        v = v + step as u64;
        proof {
            assert forall|x: u32| x < seen@.len() implies (#[trigger] seen@[x as int] <==> (orig[
                x as int] || (lo <= x <= hi && x < v && ((x - lo) % (step as int)) == 0))) by {
                assert(before[x as int] <==> (orig[x as int] || (lo <= x <= hi && x < old_v && ((x
                    - lo) % (step as int)) == 0)));
                if x == old_v {
                    assert((x - lo) % (step as int) == (k * step) % (step as int));
                } else if old_v < x < v {
                    assert(lo + k * step < x < lo + k * step + step);
                    assert(((x as int - lo as int) % (step as int)) != 0);
                }
            }
            k = k + 1;
            assert(v == lo + k * step) by (nonlinear_arith)
                requires
                    v == lo + (k - 1) * step + step,
            ;
        }
    }
    assert forall|x: u32| x < seen@.len() implies (#[trigger] seen@[x as int] <==> (orig[x as int]
        || item_values(lo, hi, step).contains(x))) by {
        assert(seen@[x as int] <==> (orig[x as int] || (lo <= x <= hi && x < v && ((x - lo) % (
        step as int)) == 0)));
    }
}

/// Parses the field `raw` over the range `[min, max]`; with `sunday_alias`
/// (the day-of-week field, 0-7) a 7 is read as 0, and with `full_is_any` a
/// list that names the whole range is `Any`.
pub fn parse_field(raw: &Vec<char>, min: u32, max: u32, sunday_alias: bool, full_is_any: bool) -> (r:
    Result<Field, ParseError>)
    requires
        min <= max < 64,
        sunday_alias ==> min == 0 && max == 7,
    ensures
        field_result(r) == parse_field_spec(raw@, min, max, sunday_alias, full_is_any),
        r matches Ok(f) ==> field_wf(f@, min, top_value(max, sunday_alias)),
{
    let parts = split_chars(raw, ',');
    let ghost all = pieces(parts@);
    let mut seen: Vec<bool> = Vec::new();
    while seen.len() <= max as usize
        invariant
            seen.len() <= max + 1,
            forall|x: int| 0 <= x < seen.len() ==> !(#[trigger] seen@[x]),
        decreases max + 1 - seen.len(),
    {
        seen.push(false);
    }
    let ghost mut acc: Set<u32> = Set::empty();
    let mut p: usize = 0;
    assert(all.take(0) =~= Seq::<Seq<char>>::empty());
    while p < parts.len()
        invariant
            min <= max < 64,
            all == pieces(parts@),
            all == split_on(raw@, ','),
            p <= parts.len(),
            seen.len() == max + 1,
            fold_items(all.take(p as int), raw@, min, max) == Ok::<_, ParseErrorView>(acc),
            forall|x: u32| x <= max ==> (seen@[x as int] <==> #[trigger] acc.contains(x)),
            forall|x: u32| #[trigger] acc.contains(x) ==> min <= x <= max,
        decreases parts.len() - p,
    {
        let part = &parts[p];
        let ghost pre = all.take(p as int);
        let ghost now = all.take(p + 1);
        proof {
            assert(now.drop_last() =~= pre);
            assert(now.last() == part@);
        }
        match parse_item(part, raw, min, max) {
            Err(e) => {
                proof {
                    lemma_fold_stops(all, raw@, min, max, p + 1);
                }
                return Err(e);
            },
            Ok((lo, hi, step)) => {
                let ghost before = seen@;
                mark_item(&mut seen, lo, hi, step);
                let ghost old_acc = acc;
                proof {
                    acc = acc.union(item_values(lo, hi, step));
                    assert forall|x: u32| x <= max implies (seen@[x as int] <==> #[trigger] acc.contains(
                        x,
                    )) by {
                        assert(before[x as int] <==> old_acc.contains(x));
                        assert(seen@[x as int] <==> (before[x as int] || item_values(
                            lo,
                            hi,
                            step,
                        ).contains(x)));
                    }
                }
            },
        }
        p = p + 1;
    }
    proof {
        assert(all.take(parts.len() as int) =~= all);
    }
    let ghost set = acc;
    if sunday_alias && seen[7] {
        seen.set(0, true);
    }
    let ghost folded = fold_sunday(set, sunday_alias);
    assert forall|x: u32| x <= max implies (seen@[x as int] <==> #[trigger] folded.contains(x)) by {}
    let top = if sunday_alias {
        max - 1
    } else {
        max
    };
    let mut values: Vec<u32> = Vec::new();
    let mut v: u32 = min;
    while v <= top
        invariant
            min <= v <= top + 1,
            top <= max < 64,
            seen.len() == max + 1,
            forall|x: u32| x <= max ==> (seen@[x as int] <==> #[trigger] folded.contains(x)),
            values@ == ascending(folded, min, (v - min) as nat),
        decreases top + 1 - v,
    {
        if seen[v as usize] {
            values.push(v);
        }
        v = v + 1;
    }
    proof {
        lemma_ascending(folded, min, (top - min + 1) as nat);
        assert(values@ == ascending(folded, min, (top - min + 1) as nat));
    }
    let star = raw.len() == 1 && raw[0] == '*';
    assert(star <==> raw@ == seq!['*']) by {
        if raw@ == seq!['*'] {
            assert(raw@[0] == '*');
        }
        if star {
            assert(raw@ =~= seq!['*']);
        }
    }
    proof {
        lemma_parsed_field_allows(raw@, min, max, sunday_alias, full_is_any);
    }
    let full = full_is_any && values.len() == (top - min + 1) as usize;
    assert(full <==> full_is_any && covers(folded, min, top));
    let ghost o = fold_items(split_on(raw@, ','), raw@, min, max);
    assert(o is Ok);
    assert(o->Ok_0 == set);
    if star || full {
        Ok(Field::Any)
    } else {
        Ok(Field::Values(values))
    }
}

impl Field {
    /// Whether the field allows `v`; a list is searched by bisection.
    pub fn contains(&self, v: u32) -> (r: bool)
        requires
            field_wf(self@, 0, u32::MAX),
        ensures
            r == field_allows(self@, v),
    {
        match self {
            Field::Any => true,
            Field::Values(vs) => {
                assert(self@ == FieldView::Values(vs@));
                let ghost s = vs@;
                assert(field_wf(FieldView::Values(s), 0, u32::MAX));
                let mut lo: usize = 0;
                let mut hi: usize = vs.len();
                while lo < hi
                    invariant
                        0 <= lo <= hi <= vs.len(),
                        s == vs@,
                        field_allows(self@, v) == s.contains(v),
                        forall|i: int, j: int| 0 <= i < j < s.len() ==> s[i] < s[j],
                        forall|i: int| 0 <= i < lo ==> #[trigger] vs@[i] < v,
                        forall|i: int| hi <= i < vs.len() ==> #[trigger] vs@[i] > v,
                    decreases hi - lo,
                {
                    let mid = lo + (hi - lo) / 2;
                    if vs[mid] == v {
                        assert(vs@.contains(v)) by {
                            assert(vs@[mid as int] == v);
                        }
                        return true;
                    } else if vs[mid] < v {
                        lo = mid + 1;
                    } else {
                        hi = mid;
                    }
                }
                assert(!vs@.contains(v)) by {
                    if vs@.contains(v) {
                        let i = choose|i: int| 0 <= i < vs@.len() && vs@[i] == v;
                        assert(vs@[i] == v);
                    }
                }
                false
            },
        }
    }

    /// Whether the field is `*`-like: it allows every value of its range.
    pub fn is_any(&self) -> (r: bool)
        ensures
            r == (self@ is Any),
    {
        match self {
            Field::Any => true,
            Field::Values(_) => false,
        }
    }
}


/// Items that parse name at least one value of the range: the low bound of
/// the last item.
proof fn lemma_fold_names_some(parts: Seq<Seq<char>>, raw: Seq<char>, min: u32, max: u32)
    requires
        parts.len() >= 1,
        fold_items(parts, raw, min, max) is Ok,
    ensures
        exists|v: u32|
            min <= v <= max && #[trigger] fold_items(parts, raw, min, max)->Ok_0.contains(v),
{
    let part = parts.last();
    let (lo, hi, step) = item_spec(part, raw, min, max)->Ok_0;
    let slash = first_index(part, '/');
    let range_part = if slash >= 0 {
        part.take(slash)
    } else {
        part
    };
    assert(item_bounds(range_part, part, slash >= 0, min, max) is Ok);
    assert(lo <= hi && step > 0);
    assert(0int % (step as int) == 0) by (nonlinear_arith)
        requires
            step > 0,
    ;
    assert(lo - lo == 0int);
    assert(item_values(lo, hi, step).contains(lo));
    assert(fold_items(parts, raw, min, max)->Ok_0.contains(lo));
}

/// A field parsed over `[min, max]` is `Any` exactly when it is written as
/// `*` or, with `full_is_any`, its items name every value of the range;
/// otherwise it is a non-empty, strictly increasing list that allows, within
/// the range it lists, exactly the values its comma-separated items name,
/// where in the day-of-week field 7 counts as 0.
pub proof fn lemma_parsed_field_allows(
    raw: Seq<char>,
    min: u32,
    max: u32,
    sunday_alias: bool,
    full_is_any: bool,
)
    requires
        min <= max < 64,
        sunday_alias ==> min == 0 && max == 7,
    ensures
        parse_field_spec(raw, min, max, sunday_alias, full_is_any) matches Ok(f) ==> {
            let named = fold_sunday(
                fold_items(split_on(raw, ','), raw, min, max)->Ok_0,
                sunday_alias,
            );
            let top = top_value(max, sunday_alias);
            &&& fold_items(split_on(raw, ','), raw, min, max) is Ok
            &&& (f is Any <==> raw == seq!['*'] || (full_is_any && covers(named, min, top)))
            &&& field_wf(f, min, top)
            &&& f is Values ==> forall|v: u32|
                min <= v <= top ==> (field_allows(f, v) <==> named.contains(v))
        },
{
    if let Ok(set) = fold_items(split_on(raw, ','), raw, min, max) {
        let named = fold_sunday(set, sunday_alias);
        let top = top_value(max, sunday_alias);
        let n = (top - min + 1) as nat;
        lemma_ascending(named, min, n);
        lemma_split_on_nonempty(raw, ',');
        lemma_fold_names_some(split_on(raw, ','), raw, min, max);
        let v = choose|v: u32| min <= v <= max && #[trigger] set.contains(v);
        let w: u32 = if v <= top {
            v
        } else {
            0
        };
        assert(min <= w <= top && named.contains(w));
        assert(ascending(named, min, n).contains(w));
    }
}

/// A run of decimal digits: one or more, nothing else.
pub open spec fn digit_run(d: Seq<char>) -> bool {
    d.len() > 0 && all_digits(d)
}

proof fn lemma_digit_run(d: Seq<char>)
    requires
        digit_run(d),
    ensures
        parse_u32_spec(d) == (if digits_value(d) <= u32::MAX {
            Some(digits_value(d) as u32)
        } else {
            None::<u32>
        }),
        d != seq!['*'],
        forall|i: int|
            0 <= i < d.len() ==> #[trigger] d[i] != '-' && d[i] != '/' && d[i] != ',' && d[i] != '*',
{
    assert(is_digit(d[0]));
    assert forall|i: int| 0 <= i < d.len() implies #[trigger] d[i] != '-' && d[i] != '/' && d[i]
        != ',' && d[i] != '*' by {
        assert(is_digit(d[i]));
    }
    if d == seq!['*'] {
        assert(d[0] == '*');
    }
}

proof fn lemma_split_without(s: Seq<char>, c: char)
    requires
        forall|i: int| 0 <= i < s.len() ==> #[trigger] s[i] != c,
    ensures
        split_on(s, c) == seq![s],
    decreases s.len(),
{
    if s.len() == 0 {
        assert(s =~= Seq::<char>::empty());
    } else {
        let d = s.drop_last();
        assert forall|i: int| 0 <= i < d.len() implies #[trigger] d[i] != c by {
            assert(d[i] == s[i]);
        }
        lemma_split_without(d, c);
        assert(s.last() != c);
        assert(d.push(s.last()) =~= s);
        assert(seq![d].update(0, d.push(s.last())) =~= seq![s]);
    }
}

/// A field written as one item (no comma): the item's error, or the values
/// of the item, with 7 read as 0 in the day-of-week field.
proof fn lemma_single_item(raw: Seq<char>, min: u32, max: u32, sunday_alias: bool, full_is_any: bool)
    requires
        min <= max < 64,
        sunday_alias ==> min == 0 && max == 7,
        forall|i: int| 0 <= i < raw.len() ==> #[trigger] raw[i] != ',',
    ensures
        item_spec(raw, raw, min, max) matches Err(e) ==> parse_field_spec(
            raw,
            min,
            max,
            sunday_alias,
            full_is_any,
        ) == Err::<FieldView, _>(e),
        item_spec(raw, raw, min, max) matches Ok((lo, hi, step)) ==> {
            &&& fold_items(split_on(raw, ','), raw, min, max) == Ok::<_, ParseErrorView>(
                item_values(lo, hi, step),
            )
            &&& parse_field_spec(raw, min, max, sunday_alias, full_is_any) is Ok
            &&& forall|v: u32|
                min <= v <= top_value(max, sunday_alias) ==> (field_allows(
                    parse_field_spec(raw, min, max, sunday_alias, full_is_any)->Ok_0,
                    v,
                ) <==> (item_values(lo, hi, step).contains(v) || (sunday_alias && v == 0
                    && item_values(lo, hi, step).contains(7))))
        },
{
    lemma_split_without(raw, ',');
    let parts = split_on(raw, ',');
    assert(parts.drop_last() =~= Seq::<Seq<char>>::empty());
    assert(parts.last() == raw);
    assert(fold_items(parts.drop_last(), raw, min, max) == Ok::<_, ParseErrorView>(
        Set::<u32>::empty(),
    ));
    lemma_parsed_field_allows(raw, min, max, sunday_alias, full_is_any);
    if let Ok((lo, hi, step)) = item_spec(raw, raw, min, max) {
        let iv = item_values(lo, hi, step);
        assert(Set::<u32>::empty().union(iv) =~= iv);
        assert(fold_items(parts, raw, min, max) == Ok::<_, ParseErrorView>(iv));
        let named = fold_sunday(iv, sunday_alias);
        let top = top_value(max, sunday_alias);
        if raw == seq!['*'] {
            lemma_first_index_at(raw, '/', 1);
            assert(item_spec(raw, raw, min, max) == Ok::<_, ParseErrorView>((min, max, 1u32)));
            assert forall|v: u32| min <= v <= top implies #[trigger] iv.contains(v) by {
                assert((v - min) % 1int == 0);
            }
        }
        let f = parse_field_spec(raw, min, max, sunday_alias, full_is_any)->Ok_0;
        assert forall|v: u32| min <= v <= top implies (field_allows(f, v) <==> (iv.contains(v) || (
        sunday_alias && v == 0 && iv.contains(7)))) by {
            assert(named.contains(v) <==> (iv.contains(v) || (sunday_alias && v == 0
                && iv.contains(7))));
            if f is Any && raw != seq!['*'] {
                assert(covers(named, min, top));
                assert(named.contains(v));
            }
        }
    }
}

/// An item `a-b/s` of decimal digits is accepted exactly when
/// `min <= a <= b <= max` and `s` is a positive `u32`, and then allows
/// exactly `a`, `a + s`, `a + 2s`, ... up to `b` and nothing above `b` (in the
/// day-of-week field a 7 among them allows Sunday, 0).
pub proof fn lemma_stepped_range_item(
    da: Seq<char>,
    db: Seq<char>,
    ds: Seq<char>,
    min: u32,
    max: u32,
    sunday_alias: bool,
    full_is_any: bool,
)
    requires
        min <= max < 64,
        sunday_alias ==> min == 0 && max == 7,
        digit_run(da),
        digit_run(db),
        digit_run(ds),
    ensures
        ({
            let raw = da + seq!['-'] + db + seq!['/'] + ds;
            let a = digits_value(da);
            let b = digits_value(db);
            let s = digits_value(ds);
            let r = parse_field_spec(raw, min, max, sunday_alias, full_is_any);
            &&& (r is Ok <==> (min <= a <= b <= max && 0 < s <= u32::MAX))
            &&& r matches Ok(f) ==> forall|v: u32|
                min <= v <= top_value(max, sunday_alias) ==> (field_allows(f, v) <==> ((a <= v
                    <= b && (v - a) % (s as int) == 0) || (sunday_alias && v == 0 && a <= 7 <= b
                    && (7 - a) % (s as int) == 0)))
        }),
{
    let range = da + seq!['-'] + db;
    let raw = range + seq!['/'] + ds;
    assert(raw == da + seq!['-'] + db + seq!['/'] + ds);
    lemma_digit_run(da);
    lemma_digit_run(db);
    lemma_digit_run(ds);
    assert forall|i: int| 0 <= i < raw.len() implies #[trigger] raw[i] != ',' by {
        if i < da.len() {
            assert(raw[i] == da[i]);
        } else if da.len() < i < range.len() {
            assert(raw[i] == db[i - da.len() - 1]);
        } else if i > range.len() {
            assert(raw[i] == ds[i - range.len() - 1]);
        }
    }
    assert forall|j: int| 0 <= j < range.len() implies #[trigger] raw[j] != '/' by {
        if j < da.len() {
            assert(raw[j] == da[j]);
        } else if j > da.len() {
            assert(raw[j] == db[j - da.len() - 1]);
        }
    }
    lemma_first_index_at(raw, '/', range.len() as int);
    assert(raw.skip(range.len() + 1int) =~= ds);
    assert(raw.take(range.len() as int) =~= range);
    assert forall|j: int| 0 <= j < da.len() implies #[trigger] range[j] != '-' by {
        assert(range[j] == da[j]);
    }
    lemma_first_index_at(range, '-', da.len() as int);
    assert(range.take(da.len() as int) =~= da);
    assert(range.skip(da.len() + 1int) =~= db);
    assert(range != seq!['*']) by {
        assert(range[0] == da[0]);
    }
    lemma_single_item(raw, min, max, sunday_alias, full_is_any);
}

/// An item `a-b` of decimal digits is accepted exactly when
/// `min <= a <= b <= max`, and then allows exactly the values from `a` to `b`
/// (in the day-of-week field a 7 among them allows Sunday, 0).
pub proof fn lemma_range_item(
    da: Seq<char>,
    db: Seq<char>,
    min: u32,
    max: u32,
    sunday_alias: bool,
    full_is_any: bool,
)
    requires
        min <= max < 64,
        sunday_alias ==> min == 0 && max == 7,
        digit_run(da),
        digit_run(db),
    ensures
        ({
            let raw = da + seq!['-'] + db;
            let a = digits_value(da);
            let b = digits_value(db);
            let r = parse_field_spec(raw, min, max, sunday_alias, full_is_any);
            &&& (r is Ok <==> min <= a <= b <= max)
            &&& r matches Ok(f) ==> forall|v: u32|
                min <= v <= top_value(max, sunday_alias) ==> (field_allows(f, v) <==> (a <= v <= b
                    || (sunday_alias && v == 0 && a <= 7 <= b)))
        }),
{
    let raw = da + seq!['-'] + db;
    lemma_digit_run(da);
    lemma_digit_run(db);
    assert forall|i: int| 0 <= i < raw.len() implies #[trigger] raw[i] != ',' && raw[i] != '/' by {
        if i < da.len() {
            assert(raw[i] == da[i]);
        } else if i > da.len() {
            assert(raw[i] == db[i - da.len() - 1]);
        }
    }
    lemma_first_index_at(raw, '/', raw.len() as int);
    assert forall|j: int| 0 <= j < da.len() implies #[trigger] raw[j] != '-' by {
        assert(raw[j] == da[j]);
    }
    lemma_first_index_at(raw, '-', da.len() as int);
    assert(raw.take(da.len() as int) =~= da);
    assert(raw.skip(da.len() + 1int) =~= db);
    assert(raw != seq!['*']) by {
        assert(raw[0] == da[0]);
    }
    assert forall|v: u32| #[trigger] ((v - digits_value(da)) % 1int) == 0 by {}
    lemma_single_item(raw, min, max, sunday_alias, full_is_any);
}

/// A single value `a` of decimal digits is accepted exactly when
/// `min <= a <= max`, and then allows that value alone (in the day-of-week
/// field 7 allows Sunday, 0).
pub proof fn lemma_value_item(
    da: Seq<char>,
    min: u32,
    max: u32,
    sunday_alias: bool,
    full_is_any: bool,
)
    requires
        min <= max < 64,
        sunday_alias ==> min == 0 && max == 7,
        digit_run(da),
    ensures
        ({
            let a = digits_value(da);
            let r = parse_field_spec(da, min, max, sunday_alias, full_is_any);
            &&& (r is Ok <==> min <= a <= max)
            &&& r matches Ok(f) ==> forall|v: u32|
                min <= v <= top_value(max, sunday_alias) ==> (field_allows(f, v) <==> (v == a || (
                sunday_alias && v == 0 && a == 7)))
        }),
{
    lemma_digit_run(da);
    lemma_first_index_at(da, '/', da.len() as int);
    lemma_first_index_at(da, '-', da.len() as int);
    assert forall|v: u32| #[trigger] ((v - digits_value(da)) % 1int) == 0 by {}
    lemma_single_item(da, min, max, sunday_alias, full_is_any);
}

/// An item `a/s` of decimal digits is accepted exactly when
/// `min <= a <= max` and `s` is a positive `u32`, and then allows exactly
/// `a`, `a + s`, `a + 2s`, ... up to the end of the range (in the
/// day-of-week field a 7 among them allows Sunday, 0).
pub proof fn lemma_stepped_value_item(
    da: Seq<char>,
    ds: Seq<char>,
    min: u32,
    max: u32,
    sunday_alias: bool,
    full_is_any: bool,
)
    requires
        min <= max < 64,
        sunday_alias ==> min == 0 && max == 7,
        digit_run(da),
        digit_run(ds),
    ensures
        ({
            let raw = da + seq!['/'] + ds;
            let a = digits_value(da);
            let s = digits_value(ds);
            let r = parse_field_spec(raw, min, max, sunday_alias, full_is_any);
            &&& (r is Ok <==> (min <= a <= max && 0 < s <= u32::MAX))
            &&& r matches Ok(f) ==> forall|v: u32|
                min <= v <= top_value(max, sunday_alias) ==> (field_allows(f, v) <==> ((a <= v
                    && (v - a) % (s as int) == 0) || (sunday_alias && v == 0 && a <= 7 && (7 - a)
                    % (s as int) == 0)))
        }),
{
    let raw = da + seq!['/'] + ds;
    lemma_digit_run(da);
    lemma_digit_run(ds);
    assert forall|i: int| 0 <= i < raw.len() implies #[trigger] raw[i] != ',' by {
        if i < da.len() {
            assert(raw[i] == da[i]);
        } else if i > da.len() {
            assert(raw[i] == ds[i - da.len() - 1]);
        }
    }
    assert forall|j: int| 0 <= j < da.len() implies #[trigger] raw[j] != '/' by {
        assert(raw[j] == da[j]);
    }
    lemma_first_index_at(raw, '/', da.len() as int);
    assert(raw.take(da.len() as int) =~= da);
    assert(raw.skip(da.len() + 1int) =~= ds);
    lemma_first_index_at(da, '-', da.len() as int);
    lemma_single_item(raw, min, max, sunday_alias, full_is_any);
}

/// An item `*/s` is accepted exactly when `s` is a positive `u32`, and then
/// allows exactly `min`, `min + s`, `min + 2s`, ... up to the end of the range
/// (in the day-of-week field a 7 among them allows Sunday, 0).
pub proof fn lemma_stepped_star_item(
    ds: Seq<char>,
    min: u32,
    max: u32,
    sunday_alias: bool,
    full_is_any: bool,
)
    requires
        min <= max < 64,
        sunday_alias ==> min == 0 && max == 7,
        digit_run(ds),
    ensures
        ({
            let raw = seq!['*', '/'] + ds;
            let s = digits_value(ds);
            let r = parse_field_spec(raw, min, max, sunday_alias, full_is_any);
            &&& (r is Ok <==> 0 < s <= u32::MAX)
            &&& r matches Ok(f) ==> forall|v: u32|
                min <= v <= top_value(max, sunday_alias) ==> (field_allows(f, v) <==> ((v - min)
                    % (s as int) == 0 || (sunday_alias && v == 0 && 7int % (s as int) == 0)))
        }),
{
    let raw = seq!['*', '/'] + ds;
    lemma_digit_run(ds);
    assert forall|i: int| 0 <= i < raw.len() implies #[trigger] raw[i] != ',' by {
        if i > 1 {
            assert(raw[i] == ds[i - 2]);
        }
    }
    lemma_first_index_at(raw, '/', 1);
    assert(raw.take(1) =~= seq!['*']);
    assert(raw.skip(2) =~= ds);
    lemma_single_item(raw, min, max, sunday_alias, full_is_any);
}

/// The field `*` is accepted, and is `Any`.
pub proof fn lemma_star_field(min: u32, max: u32, sunday_alias: bool, full_is_any: bool)
    requires
        min <= max < 64,
        sunday_alias ==> min == 0 && max == 7,
    ensures
        parse_field_spec(seq!['*'], min, max, sunday_alias, full_is_any) == Ok::<_, ParseErrorView>(
            FieldView::Any,
        ),
{
    let raw = seq!['*'];
    lemma_first_index_at(raw, '/', 1);
    assert(item_spec(raw, raw, min, max) == Ok::<_, ParseErrorView>((min, max, 1u32)));
    lemma_single_item(raw, min, max, sunday_alias, full_is_any);
}

/// A parsed field allows, within the range it lists, exactly the values its
/// items name (7 counting as 0 in the day-of-week field).
proof fn lemma_field_allows_named(
    raw: Seq<char>,
    min: u32,
    max: u32,
    sunday_alias: bool,
    full_is_any: bool,
)
    requires
        min <= max < 64,
        sunday_alias ==> min == 0 && max == 7,
    ensures
        parse_field_spec(raw, min, max, sunday_alias, full_is_any) matches Ok(f) ==> forall|v: u32|
            min <= v <= top_value(max, sunday_alias) ==> (field_allows(f, v) <==> fold_sunday(
                fold_items(split_on(raw, ','), raw, min, max)->Ok_0,
                sunday_alias,
            ).contains(v)),
{
    lemma_parsed_field_allows(raw, min, max, sunday_alias, full_is_any);
    if let Ok(f) = parse_field_spec(raw, min, max, sunday_alias, full_is_any) {
        let named = fold_sunday(
            fold_items(split_on(raw, ','), raw, min, max)->Ok_0,
            sunday_alias,
        );
        let top = top_value(max, sunday_alias);
        if raw == seq!['*'] {
            lemma_first_index_at(raw, '/', 1);
            assert(item_spec(raw, raw, min, max) == Ok::<_, ParseErrorView>((min, max, 1u32)));
            lemma_single_item(raw, min, max, sunday_alias, full_is_any);
        } else if f is Any {
            assert forall|v: u32| min <= v <= top implies (field_allows(f, v) <==> named.contains(
                v,
            )) by {
                assert(covers(named, min, top));
            }
        }
    }
}

proof fn lemma_split_after(p: Seq<char>, q: Seq<char>)
    requires
        forall|i: int| 0 <= i < p.len() ==> #[trigger] p[i] != ',',
    ensures
        split_on(p + seq![','] + q, ',') == seq![p] + split_on(q, ','),
    decreases q.len(),
{
    let s = p + seq![','] + q;
    if q.len() == 0 {
        lemma_split_without(p, ',');
        assert(s.drop_last() =~= p);
        assert(seq![p].push(Seq::<char>::empty()) =~= seq![p] + seq![Seq::<char>::empty()]);
    } else {
        lemma_split_after(p, q.drop_last());
        assert(s.drop_last() =~= p + seq![','] + q.drop_last());
        lemma_split_on_nonempty(q.drop_last(), ',');
        let rest = split_on(q.drop_last(), ',');
        assert(s.last() == q.last());
        if q.last() == ',' {
            assert((seq![p] + rest).push(Seq::<char>::empty()) =~= seq![p] + rest.push(
                Seq::<char>::empty(),
            ));
        } else {
            let whole = seq![p] + rest;
            assert(whole.last() == rest.last());
            assert(whole.update(whole.len() - 1, whole.last().push(q.last())) =~= seq![p]
                + rest.update(rest.len() - 1, rest.last().push(q.last())));
        }
    }
}

proof fn lemma_fold_prepend(
    first: Seq<char>,
    parts: Seq<Seq<char>>,
    raw: Seq<char>,
    raw_first: Seq<char>,
    raw_rest: Seq<char>,
    min: u32,
    max: u32,
)
    requires
        first.len() > 0,
    ensures
        fold_items(seq![first] + parts, raw, min, max) is Ok <==> (fold_items(
            seq![first],
            raw_first,
            min,
            max,
        ) is Ok && fold_items(parts, raw_rest, min, max) is Ok),
        fold_items(seq![first] + parts, raw, min, max) is Ok ==> fold_items(
            seq![first] + parts,
            raw,
            min,
            max,
        )->Ok_0 == fold_items(seq![first], raw_first, min, max)->Ok_0.union(
            fold_items(parts, raw_rest, min, max)->Ok_0,
        ),
    decreases parts.len(),
{
    let one = seq![first];
    let none = Seq::<Seq<char>>::empty();
    assert(one.drop_last() =~= none);
    assert(one.last() == first);
    assert(fold_items(none, raw, min, max) == Ok::<_, ParseErrorView>(Set::<u32>::empty()));
    assert(fold_items(none, raw_first, min, max) == Ok::<_, ParseErrorView>(Set::<u32>::empty()));
    assert(fold_items(none, raw_rest, min, max) == Ok::<_, ParseErrorView>(Set::<u32>::empty()));
    assert(item_spec(first, raw, min, max) is Ok <==> item_spec(first, raw_first, min, max) is Ok);
    assert(item_spec(first, raw, min, max) is Ok ==> item_spec(first, raw, min, max) == item_spec(
        first,
        raw_first,
        min,
        max,
    ));
    if parts.len() == 0 {
        assert(one + parts =~= one);
        if fold_items(one, raw, min, max) is Ok {
            assert(fold_items(one, raw, min, max)->Ok_0.union(Set::empty()) =~= fold_items(
                one,
                raw,
                min,
                max,
            )->Ok_0);
        }
    } else {
        let all = one + parts;
        assert(all.drop_last() =~= one + parts.drop_last());
        assert(all.last() == parts.last());
        lemma_fold_prepend(first, parts.drop_last(), raw, raw_first, raw_rest, min, max);
        let last = parts.last();
        assert(item_spec(last, raw, min, max) is Ok <==> item_spec(last, raw_rest, min, max) is Ok);
        assert(item_spec(last, raw, min, max) is Ok ==> item_spec(last, raw, min, max) == item_spec(
            last,
            raw_rest,
            min,
            max,
        ));
        if fold_items(all, raw, min, max) is Ok {
            let a = fold_items(one, raw_first, min, max)->Ok_0;
            let b = fold_items(parts.drop_last(), raw_rest, min, max)->Ok_0;
            let (lo, hi, step) = item_spec(last, raw, min, max)->Ok_0;
            assert(a.union(b).union(item_values(lo, hi, step)) =~= a.union(
                b.union(item_values(lo, hi, step)),
            ));
        }
    }
}

/// A list `p,q` (where `p` is one item) is accepted exactly when `p` and `q`
/// are each accepted as a field, and then allows a value exactly when `p` or
/// `q` allows it.
pub proof fn lemma_list_field(
    p: Seq<char>,
    q: Seq<char>,
    min: u32,
    max: u32,
    sunday_alias: bool,
    full_is_any: bool,
)
    requires
        min <= max < 64,
        sunday_alias ==> min == 0 && max == 7,
        forall|i: int| 0 <= i < p.len() ==> #[trigger] p[i] != ',',
    ensures
        ({
            let raw = p + seq![','] + q;
            let r = parse_field_spec(raw, min, max, sunday_alias, full_is_any);
            let rp = parse_field_spec(p, min, max, sunday_alias, full_is_any);
            let rq = parse_field_spec(q, min, max, sunday_alias, full_is_any);
            &&& (r is Ok <==> (rp is Ok && rq is Ok))
            &&& r matches Ok(f) ==> forall|v: u32|
                min <= v <= top_value(max, sunday_alias) ==> (field_allows(f, v) <==> (field_allows(
                    rp->Ok_0,
                    v,
                ) || field_allows(rq->Ok_0, v)))
        }),
{
    let raw = p + seq![','] + q;
    lemma_split_after(p, q);
    lemma_split_without(p, ',');
    if p.len() == 0 {
        assert(item_spec(p, raw, min, max) is Err);
        assert(item_spec(p, p, min, max) is Err);
        assert((seq![p] + split_on(q, ',')).take(1) =~= seq![p]);
        assert(seq![p].drop_last() =~= Seq::<Seq<char>>::empty());
        lemma_fold_stops(seq![p] + split_on(q, ','), raw, min, max, 1);
        assert(fold_items(seq![p], raw, min, max) is Err);
        assert(fold_items(seq![p], p, min, max) is Err);
    } else {
        lemma_fold_prepend(p, split_on(q, ','), raw, p, q, min, max);
        lemma_field_allows_named(raw, min, max, sunday_alias, full_is_any);
        lemma_field_allows_named(p, min, max, sunday_alias, full_is_any);
        lemma_field_allows_named(q, min, max, sunday_alias, full_is_any);
    }
}

} // verus!
