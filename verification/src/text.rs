//! Character-level text handling: whitespace, splitting, trimming and
//! decimal numbers, each stated over `Seq<char>`.
use vstd::prelude::*;
use vstd::std_specs::iter::IteratorSpec;

verus! {

broadcast use vstd::string::group_string_axioms;

/// Unicode `White_Space`, the set that `char::is_whitespace` tests.
pub open spec fn is_ws(c: char) -> bool {
    let u = c as u32;
    ||| 0x09 <= u <= 0x0d
    ||| u == 0x20
    ||| u == 0x85
    ||| u == 0xa0
    ||| u == 0x1680
    ||| 0x2000 <= u <= 0x200a
    ||| u == 0x2028
    ||| u == 0x2029
    ||| u == 0x202f
    ||| u == 0x205f
    ||| u == 0x3000
}

pub fn is_whitespace(c: char) -> (r: bool)
    ensures
        r == is_ws(c),
{
    let u = c as u32;
    (0x09 <= u && u <= 0x0d) || u == 0x20 || u == 0x85 || u == 0xa0 || u == 0x1680 || (0x2000
        <= u && u <= 0x200a) || u == 0x2028 || u == 0x2029 || u == 0x202f || u == 0x205f || u
        == 0x3000
}

/// The characters of `s`, in order.
pub fn str_chars(s: &str) -> (r: Vec<char>)
    ensures
        r@ == s@,
{
    let mut r: Vec<char> = Vec::new();
    let mut it = s.chars();
    for c in iter: it
        invariant
            r@ == iter.seq().take(iter.index()),
            iter.seq() == s@,
    {
        r.push(c);
    }
    r
}


/// The pieces of `s` between occurrences of `sep` (as `str::split` with a
/// `char` pattern): there is always at least one piece, and pieces may be empty.
pub open spec fn split_on(s: Seq<char>, sep: char) -> Seq<Seq<char>>
    decreases s.len(),
{
    if s.len() == 0 {
        seq![Seq::<char>::empty()]
    } else {
        let rest = split_on(s.drop_last(), sep);
        if s.last() == sep {
            rest.push(Seq::<char>::empty())
        } else {
            rest.update(rest.len() - 1, rest.last().push(s.last()))
        }
    }
}

pub proof fn lemma_split_on_nonempty(s: Seq<char>, sep: char)
    ensures
        split_on(s, sep).len() >= 1,
    decreases s.len(),
{
    if s.len() > 0 {
        lemma_split_on_nonempty(s.drop_last(), sep);
    }
}

/// The character sequences held by a vector of character vectors.
pub open spec fn pieces(v: Seq<Vec<char>>) -> Seq<Seq<char>> {
    v.map_values(|x: Vec<char>| x@)
}

pub fn split_chars(s: &Vec<char>, sep: char) -> (r: Vec<Vec<char>>)
    ensures
        pieces(r@) == split_on(s@, sep),
        r.len() >= 1,
{
    let mut out: Vec<Vec<char>> = Vec::new();
    let mut cur: Vec<char> = Vec::new();
    let mut i: usize = 0;
    while i < s.len()
        invariant
            0 <= i <= s.len(),
            pieces(out@).push(cur@) == split_on(s@.take(i as int), sep),
        decreases s.len() - i,
    {
        let c = s[i];
        proof {
            assert(s@.take(i + 1).drop_last() == s@.take(i as int));
            lemma_split_on_nonempty(s@.take(i as int), sep);
        }
        if c == sep {
            let done = cur;
            let ghost before = out@;
            out.push(done);
            assert(pieces(out@) =~= pieces(before).push(done@));
            cur = Vec::new();
        } else {
            cur.push(c);
        }
        i = i + 1;
        proof {
            assert(pieces(out@).push(cur@) =~= split_on(s@.take(i as int), sep));
        }
    }
    assert(s@.take(s.len() as int) == s@);
    let ghost before = out@;
    let last = cur;
    out.push(last);
    assert(pieces(out@) =~= pieces(before).push(last@));
    out
}


/// A copy of `s[a..b]`.
pub fn copy_range(s: &Vec<char>, a: usize, b: usize) -> (r: Vec<char>)
    requires
        a <= b <= s.len(),
    ensures
        r@ == s@.subrange(a as int, b as int),
{
    let mut r: Vec<char> = Vec::new();
    let mut i = a;
    while i < b
        invariant
            a <= i <= b <= s.len(),
            r@ == s@.subrange(a as int, i as int),
        decreases b - i,
    {
        r.push(s[i]);
        i = i + 1;
        assert(r@ =~= s@.subrange(a as int, i as int));
    }
    r
}

/// The maximal runs of non-whitespace characters of `s`, in order
/// (as `str::split_whitespace`).
pub open spec fn ws_tokens(s: Seq<char>) -> Seq<Seq<char>>
    decreases s.len(),
{
    if s.len() == 0 {
        seq![]
    } else {
        let t = ws_tokens(s.drop_last());
        let c = s.last();
        if is_ws(c) {
            t
        } else if s.len() >= 2 && !is_ws(s[s.len() - 2]) {
            t.update(t.len() - 1, t.last().push(c))
        } else {
            t.push(seq![c])
        }
    }
}

proof fn lemma_ws_tokens_nonempty(s: Seq<char>)
    requires
        s.len() > 0,
        !is_ws(s.last()),
    ensures
        ws_tokens(s).len() > 0,
    decreases s.len(),
{
    if s.len() >= 2 && !is_ws(s[s.len() - 2]) {
        assert(s.drop_last().last() == s[s.len() - 2]);
        lemma_ws_tokens_nonempty(s.drop_last());
    }
}

pub fn split_whitespace(s: &Vec<char>) -> (r: Vec<Vec<char>>)
    ensures
        pieces(r@) == ws_tokens(s@),
{
    let mut out: Vec<Vec<char>> = Vec::new();
    let mut cur: Vec<char> = Vec::new();
    let mut i: usize = 0;
    while i < s.len()
        invariant
            0 <= i <= s.len(),
            cur.len() > 0 <==> (i > 0 && !is_ws(s@[i - 1])),
            cur.len() > 0 ==> ws_tokens(s@.take(i as int)) == pieces(out@).push(cur@),
            cur.len() == 0 ==> ws_tokens(s@.take(i as int)) == pieces(out@),
        decreases s.len() - i,
    {
        let c = s[i];
        let ghost pre = s@.take(i as int);
        proof {
            assert(s@.take(i + 1).drop_last() == pre);
            if i > 0 {
                assert(s@.take(i + 1)[i - 1] == s@[i - 1]);
            }
        }
        if is_whitespace(c) {
            if cur.len() > 0 {
                let ghost before = out@;
                let done = cur;
                out.push(done);
                assert(pieces(out@) =~= pieces(before).push(done@));
                cur = Vec::new();
            }
        } else {
            let ghost old_cur = cur@;
            cur.push(c);
            proof {
                let now = s@.take(i + 1);
                assert(now.drop_last() == pre);
                assert(now.last() == c);
                if i > 0 {
                    assert(now[now.len() - 2] == s@[i - 1]);
                }
                if old_cur.len() > 0 {
                    assert(ws_tokens(now) == ws_tokens(pre).update(
                        ws_tokens(pre).len() - 1,
                        ws_tokens(pre).last().push(c),
                    ));
                    assert(ws_tokens(now) =~= pieces(out@).push(cur@));
                } else {
                    assert(ws_tokens(now) == ws_tokens(pre).push(seq![c]));
                    assert(cur@ =~= seq![c]);
                    assert(ws_tokens(now) =~= pieces(out@).push(cur@));
                }
            }
        }
        i = i + 1;
    }
    assert(s@.take(s.len() as int) == s@);
    if cur.len() > 0 {
        let ghost before = out@;
        let last = cur;
        out.push(last);
        assert(pieces(out@) =~= pieces(before).push(last@));
    }
    out
}


/// `s` without its leading whitespace.
pub open spec fn trim_start(s: Seq<char>) -> Seq<char>
    decreases s.len(),
{
    if s.len() > 0 && is_ws(s[0]) {
        trim_start(s.drop_first())
    } else {
        s
    }
}

/// `s` without its trailing whitespace.
pub open spec fn trim_end(s: Seq<char>) -> Seq<char>
    decreases s.len(),
{
    if s.len() > 0 && is_ws(s.last()) {
        trim_end(s.drop_last())
    } else {
        s
    }
}

/// `s` without leading and trailing whitespace (as `str::trim`).
pub open spec fn trim(s: Seq<char>) -> Seq<char> {
    trim_end(trim_start(s))
}

proof fn lemma_trim_start_skip(s: Seq<char>, i: int)
    requires
        0 <= i <= s.len(),
        forall|j: int| 0 <= j < i ==> is_ws(#[trigger] s[j]),
    ensures
        trim_start(s) == trim_start(s.skip(i)),
    decreases i,
{
    if i > 0 {
        assert(s.drop_first().skip(i - 1) =~= s.skip(i));
        lemma_trim_start_skip(s.drop_first(), i - 1);
    } else {
        assert(s.skip(0) =~= s);
    }
}

proof fn lemma_trim_end_take(s: Seq<char>, j: int)
    requires
        0 <= j <= s.len(),
        forall|k: int| j <= k < s.len() ==> is_ws(#[trigger] s[k]),
    ensures
        trim_end(s) == trim_end(s.take(j)),
    decreases s.len() - j,
{
    if j < s.len() {
        assert(s.drop_last().take(j) =~= s.take(j));
        lemma_trim_end_take(s.drop_last(), j);
    } else {
        assert(s.take(j) =~= s);
    }
}

pub fn trim_chars(s: &Vec<char>) -> (r: Vec<char>)
    ensures
        r@ == trim(s@),
{
    let mut a: usize = 0;
    while a < s.len() && is_whitespace(s[a])
        invariant
            0 <= a <= s.len(),
            forall|j: int| 0 <= j < a ==> is_ws(#[trigger] s@[j]),
        decreases s.len() - a,
    {
        a = a + 1;
    }
    proof {
        lemma_trim_start_skip(s@, a as int);
    }
    let mut b: usize = s.len();
    while b > a && is_whitespace(s[b - 1])
        invariant
            a <= b <= s.len(),
            forall|k: int| b <= k < s.len() ==> is_ws(#[trigger] s@[k]),
        decreases b - a,
    {
        b = b - 1;
    }
    proof {
        let t = s@.skip(a as int);
        assert(a < s.len() ==> !is_ws(t[0]));
        assert(trim_start(t) == t);
        assert forall|k: int| (b - a) <= k < t.len() implies is_ws(#[trigger] t[k]) by {
            assert(t[k] == s@[a + k]);
        }
        lemma_trim_end_take(t, b - a);
        assert(t.take(b - a) =~= s@.subrange(a as int, b as int));
        let u = t.take(b - a);
        if b > a {
            assert(u.last() == s@[b - 1]);
        }
        assert(trim_end(u) == u);
    }
    copy_range(s, a, b)
}


/// The index of the first whitespace character of `s`, or -1 if it has none.
pub open spec fn first_ws(s: Seq<char>) -> int
    decreases s.len(),
{
    if s.len() == 0 {
        -1
    } else if is_ws(s[0]) {
        0
    } else {
        let r = first_ws(s.drop_first());
        if r < 0 {
            -1
        } else {
            r + 1
        }
    }
}

proof fn lemma_first_ws_at(s: Seq<char>, i: int)
    requires
        0 <= i <= s.len(),
        forall|j: int| 0 <= j < i ==> !is_ws(#[trigger] s[j]),
        i < s.len() ==> is_ws(s[i]),
    ensures
        first_ws(s) == (if i < s.len() { i } else { -1 }),
    decreases i,
{
    if i > 0 {
        assert(s[0] == s[0]);
        assert forall|j: int| 0 <= j < i - 1 implies !is_ws(#[trigger] s.drop_first()[j]) by {
            assert(s.drop_first()[j] == s[j + 1]);
        }
        if i < s.len() {
            assert(s.drop_first()[i - 1] == s[i]);
        }
        lemma_first_ws_at(s.drop_first(), i - 1);
    }
}

/// Where the first field of `s` ends: at its first whitespace character, or
/// at its end.
pub open spec fn field_end(s: Seq<char>) -> int {
    if first_ws(s) < 0 {
        s.len() as int
    } else {
        first_ws(s)
    }
}

/// The first `n` whitespace-separated fields of `s` (fewer when `s` has
/// fewer), and the text that follows the last of them.
pub open spec fn leading_fields(s: Seq<char>, n: nat) -> (Seq<Seq<char>>, Seq<char>)
    decreases n,
{
    if n == 0 {
        (seq![], s)
    } else {
        let t = trim_start(s);
        if t.len() == 0 {
            (seq![], t)
        } else {
            let e = field_end(t);
            let r = leading_fields(t.skip(e), (n - 1) as nat);
            (seq![t.take(e)] + r.0, r.1)
        }
    }
}

pub fn split_leading_fields(s: &Vec<char>, n: usize) -> (r: (Vec<Vec<char>>, Vec<char>))
    ensures
        pieces(r.0@) == leading_fields(s@, n as nat).0,
        r.1@ == leading_fields(s@, n as nat).1,
    decreases n,
{
    if n == 0 {
        let all = copy_range(s, 0, s.len());
        assert(all@ =~= s@);
        assert(pieces(Seq::<Vec<char>>::empty()) =~= Seq::<Seq<char>>::empty());
        return (Vec::new(), all);
    }
    let mut a: usize = 0;
    while a < s.len() && is_whitespace(s[a])
        invariant
            0 <= a <= s.len(),
            forall|j: int| 0 <= j < a ==> is_ws(#[trigger] s@[j]),
        decreases s.len() - a,
    {
        a = a + 1;
    }
    proof {
        lemma_trim_start_skip(s@, a as int);
        let t = s@.skip(a as int);
        assert(a < s.len() ==> !is_ws(t[0]));
        assert(trim_start(t) == t);
    }
    if a == s.len() {
        assert(s@.skip(a as int) =~= Seq::<char>::empty());
        assert(pieces(Seq::<Vec<char>>::empty()) =~= Seq::<Seq<char>>::empty());
        return (Vec::new(), Vec::new());
    }
    let mut b: usize = a;
    while b < s.len() && !is_whitespace(s[b])
        invariant
            a <= b <= s.len(),
            forall|j: int| a <= j < b ==> !is_ws(#[trigger] s@[j]),
        decreases s.len() - b,
    {
        b = b + 1;
    }
    let field = copy_range(s, a, b);
    let tail = copy_range(s, b, s.len());
    proof {
        let t = s@.skip(a as int);
        assert forall|j: int| 0 <= j < b - a implies !is_ws(#[trigger] t[j]) by {
            assert(t[j] == s@[a + j]);
        }
        if b < s.len() {
            assert(t[b - a] == s@[b as int]);
        }
        lemma_first_ws_at(t, b - a);
        assert(field_end(t) == b - a);
        assert(field@ =~= t.take(b - a));
        assert(tail@ =~= t.skip(b - a));
    }
    let (mut fs, rest) = split_leading_fields(&tail, n - 1);
    let ghost later = fs@;
    fs.insert(0, field);
    assert(pieces(fs@) =~= seq![field@] + pieces(later));
    (fs, rest)
}

/// An ASCII decimal digit.
pub open spec fn is_digit(c: char) -> bool {
    '0' <= c <= '9'
}

/// The value of a string of decimal digits.
pub open spec fn digits_value(d: Seq<char>) -> nat
    decreases d.len(),
{
    if d.len() == 0 {
        0
    } else {
        digits_value(d.drop_last()) * 10 + ((d.last() as u32) - ('0' as u32)) as nat
    }
}

/// Every character of `d` is a decimal digit.
pub open spec fn all_digits(d: Seq<char>) -> bool {
    forall|i: int| 0 <= i < d.len() ==> is_digit(#[trigger] d[i])
}

/// One or more decimal digits whose value fits in a `u32`.
pub open spec fn parse_digits(d: Seq<char>) -> Option<u32> {
    if d.len() > 0 && all_digits(d) && digits_value(d) <= u32::MAX {
        Some(digits_value(d) as u32)
    } else {
        None
    }
}

/// What `str::parse::<u32>` accepts: an optional `+`, then one or more decimal
/// digits whose value fits in a `u32`.
pub open spec fn parse_u32_spec(s: Seq<char>) -> Option<u32> {
    if s.len() > 0 && s[0] == '+' {
        parse_digits(s.drop_first())
    } else {
        parse_digits(s)
    }
}

proof fn lemma_digits_value_grows(d: Seq<char>, j: int)
    requires
        0 <= j <= d.len(),
        forall|i: int| 0 <= i < d.len() ==> is_digit(#[trigger] d[i]),
    ensures
        digits_value(d.take(j)) <= digits_value(d),
    decreases d.len() - j,
{
    if j < d.len() {
        assert(d.drop_last().take(j) =~= d.take(j));
        assert forall|i: int| 0 <= i < d.drop_last().len() implies is_digit(
            #[trigger] d.drop_last()[i],
        ) by {
            assert(d.drop_last()[i] == d[i]);
        }
        lemma_digits_value_grows(d.drop_last(), j);
    } else {
        assert(d.take(j) =~= d);
    }
}

pub fn parse_u32(s: &Vec<char>) -> (r: Option<u32>)
    ensures
        r == parse_u32_spec(s@),
{
    let mut i: usize = 0;
    if s.len() > 0 && s[0] == '+' {
        i = 1;
    }
    let ghost d = if s@.len() > 0 && s@[0] == '+' {
        s@.drop_first()
    } else {
        s@
    };
    assert(d =~= s@.skip(i as int));
    if i == s.len() {
        return None;
    }
    let mut v: u64 = 0;
    let mut j: usize = i;
    while j < s.len()
        invariant
            i <= j <= s.len(),
            d == s@.skip(i as int),
            parse_u32_spec(s@) == parse_digits(d),
            forall|k: int| i <= k < j ==> is_digit(#[trigger] s@[k]),
            v == digits_value(s@.subrange(i as int, j as int)),
            v <= u32::MAX,
        decreases s.len() - j,
    {
        let c = s[j];
        if !('0' <= c && c <= '9') {
            proof {
                assert(d[j - i] == c);
                assert(!is_digit(d[j - i]));
                assert(!all_digits(d));
                assert(parse_digits(d) is None);
                assert(parse_u32_spec(s@) == parse_digits(d));
            }
            return None;
        }
        let digit = (c as u32 - '0' as u32) as u64;
        let next = v * 10 + digit;
        proof {
            let t = s@.subrange(i as int, j + 1);
            assert(t.drop_last() =~= s@.subrange(i as int, j as int));
            assert(t.last() == c);
            assert(digits_value(t) == next);
        }
        if next > 0xffff_ffff {
            proof {
                let t = s@.subrange(i as int, j + 1);
                if all_digits(d) {
                    assert(d.take(j + 1 - i) =~= t);
                    lemma_digits_value_grows(d, j + 1 - i);
                    assert(digits_value(d) > u32::MAX);
                }
            }
            return None;
        }
        v = next;
        j = j + 1;
    }
    proof {
        assert(s@.subrange(i as int, s.len() as int) =~= d);
        assert forall|k: int| 0 <= k < d.len() implies is_digit(#[trigger] d[k]) by {
            assert(d[k] == s@[i + k]);
        }
    }
    Some(v as u32)
}

/// `String::from_iter` over the characters of `cs`: a `String` holding exactly
/// those characters, in order.
#[verifier::external_body]
pub(crate) fn chars_to_string(cs: &Vec<char>) -> (r: String)
    ensures
        r@ == cs@,
{
    cs.iter().collect()
}


/// The index of the first `c` in `s`, or -1 if `s` holds none.
pub open spec fn first_index(s: Seq<char>, c: char) -> int
    decreases s.len(),
{
    if s.len() == 0 {
        -1
    } else if s[0] == c {
        0
    } else {
        let r = first_index(s.drop_first(), c);
        if r < 0 {
            -1
        } else {
            r + 1
        }
    }
}

pub(crate) proof fn lemma_first_index_at(s: Seq<char>, c: char, i: int)
    requires
        0 <= i <= s.len(),
        forall|j: int| 0 <= j < i ==> #[trigger] s[j] != c,
        i < s.len() ==> s[i] == c,
    ensures
        first_index(s, c) == (if i < s.len() { i } else { -1 }),
    decreases i,
{
    if i > 0 {
        assert(s[0] != c);
        assert forall|j: int| 0 <= j < i - 1 implies #[trigger] s.drop_first()[j] != c by {
            assert(s.drop_first()[j] == s[j + 1]);
        }
        if i < s.len() {
            assert(s.drop_first()[i - 1] == s[i]);
        }
        lemma_first_index_at(s.drop_first(), c, i - 1);
    }
}

/// The position of the first `c` in `s` (as `str::find` with a `char`).
pub fn find_char(s: &Vec<char>, c: char) -> (r: Option<usize>)
    ensures
        match r {
            Some(i) => first_index(s@, c) == i as int && i < s.len(),
            None => first_index(s@, c) == -1,
        },
{
    let mut i: usize = 0;
    while i < s.len()
        invariant
            i <= s.len(),
            forall|j: int| 0 <= j < i ==> #[trigger] s@[j] != c,
        decreases s.len() - i,
    {
        if s[i] == c {
            proof {
                lemma_first_index_at(s@, c, i as int);
            }
            return Some(i);
        }
        i = i + 1;
    }
    proof {
        lemma_first_index_at(s@, c, i as int);
    }
    None
}

} // verus!
