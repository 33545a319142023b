//! The errors of cron expression parsing.
use vstd::prelude::*;

verus! {

/// Why a cron expression was refused.
#[derive(Debug, Clone, PartialEq, Eq)]
pub enum ParseError {
    WrongFieldCount(usize),
    BadValue(String),
    BadRange(String),
    BadStep(String),
    OutOfBounds(String),
}

/// A `ParseError` with its text as characters.
pub enum ParseErrorView {
    WrongFieldCount(nat),
    BadValue(Seq<char>),
    BadRange(Seq<char>),
    BadStep(Seq<char>),
    OutOfBounds(Seq<char>),
}

impl View for ParseError {
    type V = ParseErrorView;

    open spec fn view(&self) -> ParseErrorView {
        match self {
            ParseError::WrongFieldCount(n) => ParseErrorView::WrongFieldCount(*n as nat),
            ParseError::BadValue(s) => ParseErrorView::BadValue(s@),
            ParseError::BadRange(s) => ParseErrorView::BadRange(s@),
            ParseError::BadStep(s) => ParseErrorView::BadStep(s@),
            ParseError::OutOfBounds(s) => ParseErrorView::OutOfBounds(s@),
        }
    }
}

/// The decimal digit character for `d < 10`.
pub open spec fn digit_char(d: nat) -> char {
    ((d + 48) as u32) as char
}

/// The decimal representation of `n` (as `usize`'s `Display`).
pub open spec fn decimal(n: nat) -> Seq<char>
    decreases n,
{
    if n < 10 {
        seq![digit_char(n)]
    } else {
        decimal(n / 10).push(digit_char(n % 10))
    }
}

/// The characters of the decimal representation of `n`.
pub(crate) fn decimal_chars(n: usize) -> (r: Vec<char>)
    ensures
        r@ == decimal(n as nat),
    decreases n,
{
    let d = (n % 10) as u8;
    let c = (48u8 + d) as char;
    assert(c == digit_char((n % 10) as nat));
    if n < 10 {
        let mut r: Vec<char> = Vec::new();
        r.push(c);
        assert(r@ =~= seq![c]);
        r
    } else {
        let mut r = decimal_chars(n / 10);
        r.push(c);
        r
    }
}

/// Appends the characters of `s` to `out`.
pub(crate) fn push_all(out: &mut Vec<char>, s: &Vec<char>)
    ensures
        final(out)@ == old(out)@ + s@,
{
    let mut i: usize = 0;
    let ghost start = out@;
    while i < s.len()
        invariant
            i <= s.len(),
            start == old(out)@,
            out@ == start + s@.take(i as int),
        decreases s.len() - i,
    {
        out.push(s[i]);
        i = i + 1;
        assert(out@ =~= start + s@.take(i as int));
    }
    assert(s@.take(s.len() as int) =~= s@);
}

/// The text that describes a parse error.
pub open spec fn parse_error_message(e: ParseErrorView) -> Seq<char> {
    match e {
        ParseErrorView::WrongFieldCount(n) => "expected 5 fields, got "@ + decimal(n),
        ParseErrorView::BadValue(s) => "bad value: "@ + s,
        ParseErrorView::BadRange(s) => "bad range: "@ + s,
        ParseErrorView::BadStep(s) => "bad step: "@ + s,
        ParseErrorView::OutOfBounds(s) => "value out of bounds: "@ + s,
    }
}

impl ParseError {
    /// The characters of the text that describes the error.
    pub(crate) fn message_chars(&self) -> (r: Vec<char>)
        ensures
            r@ == parse_error_message(self@),
    {
        let (prefix, rest) = match self {
            ParseError::WrongFieldCount(n) => ("expected 5 fields, got ", decimal_chars(*n)),
            ParseError::BadValue(s) => ("bad value: ", crate::text::str_chars(s.as_str())),
            ParseError::BadRange(s) => ("bad range: ", crate::text::str_chars(s.as_str())),
            ParseError::BadStep(s) => ("bad step: ", crate::text::str_chars(s.as_str())),
            ParseError::OutOfBounds(s) => ("value out of bounds: ", crate::text::str_chars(
                s.as_str(),
            )),
        };
        let mut out = crate::text::str_chars(prefix);
        push_all(&mut out, &rest);
        out
    }

    /// The text that describes the error, as its `Display` shows it.
    pub fn message(&self) -> (r: String)
        ensures
            r@ == parse_error_message(self@),
    {
        crate::text::chars_to_string(&self.message_chars())
    }
}

} // verus!
