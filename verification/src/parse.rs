use vstd::prelude::*;

verus! {

use crate::record::{RecordModel, ApacheLogEntry, Timestamp};
use crate::rfc2822::{rfc2822_instant, parse_rfc2822};
use vstd::string::StrSliceExecFns;
use vstd::string::StringExecFns;

/// Why one line was rejected: one kind per parsing stage, each carrying the
/// offending text.
#[derive(Debug, PartialEq)]
pub enum ParseError {
    MissingIpSeparator(String),
    MissingTimestampBrackets(String),
    BadTimestampSyntax(String),
    MissingRequestQuotes(String),
    MissingStatusSizeSeparator(String),
    StatusOutOfRange(String),
    SizeOutOfRange(String),
}

/// The mathematical content of a `ParseError`.
pub ghost enum ParseErrorModel {
    MissingIpSeparator(Seq<char>),
    MissingTimestampBrackets(Seq<char>),
    BadTimestampSyntax(Seq<char>),
    MissingRequestQuotes(Seq<char>),
    MissingStatusSizeSeparator(Seq<char>),
    StatusOutOfRange(Seq<char>),
    SizeOutOfRange(Seq<char>),
}

impl View for ParseError {
    type V = ParseErrorModel;

    open spec fn view(&self) -> ParseErrorModel {
        match self {
            ParseError::MissingIpSeparator(s) => ParseErrorModel::MissingIpSeparator(s@),
            ParseError::MissingTimestampBrackets(s) => ParseErrorModel::MissingTimestampBrackets(
                s@,
            ),
            ParseError::BadTimestampSyntax(s) => ParseErrorModel::BadTimestampSyntax(s@),
            ParseError::MissingRequestQuotes(s) => ParseErrorModel::MissingRequestQuotes(s@),
            ParseError::MissingStatusSizeSeparator(s) => ParseErrorModel::MissingStatusSizeSeparator(
                s@,
            ),
            ParseError::StatusOutOfRange(s) => ParseErrorModel::StatusOutOfRange(s@),
            ParseError::SizeOutOfRange(s) => ParseErrorModel::SizeOutOfRange(s@),
        }
    }
}

/// The position of the first occurrence of `c` in `s` at or after `i`.
pub open spec fn find_char_from(s: Seq<char>, c: char, i: int) -> Option<int>
    decreases s.len() - i,
{
    if i < 0 || i >= s.len() {
        None
    } else if s[i] == c {
        Some(i)
    } else {
        find_char_from(s, c, i + 1)
    }
}

/// The first non-greedy `open ... close` pair: the first `open`, and the
/// nearest `close` after it.
pub open spec fn delimited_span(s: Seq<char>, open: char, close: char) -> Option<(int, int)> {
    match find_char_from(s, open, 0) {
        None => None,
        Some(i) => match find_char_from(s, close, i + 1) {
            None => None,
            Some(j) => Some((i, j)),
        },
    }
}

/// `s` with the characters at positions `i` through `j` (inclusive) removed.
pub open spec fn elide(s: Seq<char>, i: int, j: int) -> Seq<char> {
    s.subrange(0, i) + s.subrange(j + 1, s.len() as int)
}

/// The whitespace tolerated around the status and size tokens.
pub open spec fn is_space_char(c: char) -> bool {
    c == ' ' || c == '\t' || c == '\n' || c == '\r' || c == '\u{b}' || c == '\u{c}'
}

pub open spec fn trim_start_spec(s: Seq<char>) -> Seq<char>
    decreases s.len(),
{
    if s.len() > 0 && is_space_char(s[0]) {
        trim_start_spec(s.drop_first())
    } else {
        s
    }
}

pub open spec fn trim_end_spec(s: Seq<char>) -> Seq<char>
    decreases s.len(),
{
    if s.len() > 0 && is_space_char(s.last()) {
        trim_end_spec(s.drop_last())
    } else {
        s
    }
}

/// `s` without leading and trailing whitespace.
pub open spec fn trim_spec(s: Seq<char>) -> Seq<char> {
    trim_end_spec(trim_start_spec(s))
}

pub open spec fn is_dec_digit(c: char) -> bool {
    '0' as u32 <= c as u32 && c as u32 <= '9' as u32
}

pub open spec fn dec_digit_val(c: char) -> int {
    c as u32 - '0' as u32
}

/// A numeric token: decimal digits only, at least one; in particular no sign,
/// no inner whitespace.
pub open spec fn all_dec_digits(s: Seq<char>) -> bool {
    s.len() > 0 && forall|k: int| 0 <= k < s.len() ==> is_dec_digit(s[k])
}

pub open spec fn dec_value(s: Seq<char>) -> int
    decreases s.len(),
{
    if s.len() == 0 {
        0
    } else {
        dec_value(s.drop_last()) * 10 + dec_digit_val(s.last())
    }
}

/// The value of a decimal token, or `None` where the token is not all digits
/// or its value exceeds `max`.
pub open spec fn parse_uint(s: Seq<char>, max: int) -> Option<int> {
    if all_dec_digits(s) && dec_value(s) <= max {
        Some(dec_value(s))
    } else {
        None
    }
}

/// What parsing one line yields: the record, or the error of the first stage
/// that fails. The stages, in order: split the client address off at the
/// first space; take the first non-greedy `[ ... ]` as an RFC 2822 date-time
/// and elide it; take the first `" ... "` of the residue as the request and
/// elide it; trim; split the rest at the first space into a status token
/// (range 0..=255) and a size token (32-bit range).
pub open spec fn parse_line(l: Seq<char>) -> Result<RecordModel, ParseErrorModel> {
    match find_char_from(l, ' ', 0) {
        None => Err(ParseErrorModel::MissingIpSeparator(l)),
        Some(sp) => {
            let client_ip = l.subrange(0, sp);
            let rest = l.subrange(sp + 1, l.len() as int);
            match delimited_span(rest, '[', ']') {
                None => Err(ParseErrorModel::MissingTimestampBrackets(rest)),
                Some(span) => {
                    let date_text = rest.subrange(span.0 + 1, span.1);
                    let unbracketed = elide(rest, span.0, span.1);
                    match rfc2822_instant(date_text) {
                        None => Err(ParseErrorModel::BadTimestampSyntax(date_text)),
                        Some(inst) => match delimited_span(unbracketed, '"', '"') {
                            None => Err(ParseErrorModel::MissingRequestQuotes(unbracketed)),
                            Some(qspan) => {
                                let request = unbracketed.subrange(qspan.0 + 1, qspan.1);
                                let residue = trim_spec(elide(unbracketed, qspan.0, qspan.1));
                                match find_char_from(residue, ' ', 0) {
                                    None => Err(
                                        ParseErrorModel::MissingStatusSizeSeparator(residue),
                                    ),
                                    Some(sp2) => {
                                        let status_tok = residue.subrange(0, sp2);
                                        let size_tok = residue.subrange(
                                            sp2 + 1,
                                            residue.len() as int,
                                        );
                                        match parse_uint(status_tok, 255) {
                                            None => Err(
                                                ParseErrorModel::StatusOutOfRange(status_tok),
                                            ),
                                            Some(status) => match parse_uint(
                                                size_tok,
                                                0xffff_ffff,
                                            ) {
                                                None => Err(
                                                    ParseErrorModel::SizeOutOfRange(size_tok),
                                                ),
                                                Some(size) => Ok(
                                                    RecordModel {
                                                        client_ip,
                                                        epoch_seconds: inst.0,
                                                        offset_seconds: inst.1,
                                                        request,
                                                        status_code: status,
                                                        size,
                                                    },
                                                ),
                                            },
                                        }
                                    },
                                }
                            },
                        },
                    }
                },
            }
        },
    }
}

proof fn lemma_find_char_from_props(s: Seq<char>, c: char, i: int)
    requires
        0 <= i,
    ensures
        match find_char_from(s, c, i) {
            Some(j) => i <= j < s.len() && s[j] == c,
            None => true,
        },
    decreases s.len() - i,
{
    if i < s.len() && s[i] != c {
        lemma_find_char_from_props(s, c, i + 1);
    }
}

/// Parsing is deterministic: any two outcomes of parsing the same line are
/// equal, records and errors alike.
pub proof fn lemma_parse_deterministic(
    l: Seq<char>,
    r1: Result<RecordModel, ParseErrorModel>,
    r2: Result<RecordModel, ParseErrorModel>,
)
    requires
        r1 == parse_line(l),
        r2 == parse_line(l),
    ensures
        r1 == r2,
{
}

/// The client address of a parsed record reproduces, verbatim, the prefix of
/// the line up to its first space.
pub proof fn lemma_client_ip_verbatim(l: Seq<char>)
    requires
        parse_line(l) is Ok,
    ensures
        match (parse_line(l), find_char_from(l, ' ', 0)) {
            (Ok(m), Some(sp)) => m.client_ip == l.subrange(0, sp),
            _ => false,
        },
{
}

/// Whether the quotes that delimit the request both stand on one side of the
/// elided timestamp brackets, as they do in every well-formed line. (A line
/// whose first quote opens before `[` and closes after `]` parses too, but
/// its request then straddles the elision and is no substring of the line.)
pub open spec fn request_quotes_on_one_side(l: Seq<char>) -> bool {
    match find_char_from(l, ' ', 0) {
        None => true,
        Some(sp) => {
            let rest = l.subrange(sp + 1, l.len() as int);
            match delimited_span(rest, '[', ']') {
                None => true,
                Some(span) => {
                    let unbracketed = elide(rest, span.0, span.1);
                    match delimited_span(unbracketed, '"', '"') {
                        None => true,
                        Some(qspan) => qspan.0 >= span.0 || qspan.1 < span.0,
                    }
                },
            }
        },
    }
}

/// The request of a parsed record reproduces, verbatim, a quoted substring
/// of the line.
pub proof fn lemma_request_verbatim(l: Seq<char>)
    requires
        parse_line(l) is Ok,
        request_quotes_on_one_side(l),
    ensures
        match parse_line(l) {
            Ok(m) => exists|s: int|
                {
                    &&& 0 <= s
                    &&& s + m.request.len() + 2 <= l.len()
                    &&& #[trigger] l[s] == '"'
                    &&& l[s + m.request.len() + 1] == '"'
                    &&& m.request == l.subrange(s + 1, s + 1 + m.request.len() as int)
                },
            _ => false,
        },
{
    let sp = find_char_from(l, ' ', 0)->Some_0;
    lemma_find_char_from_props(l, ' ', 0);
    let rest = l.subrange(sp + 1, l.len() as int);
    let span = delimited_span(rest, '[', ']')->Some_0;
    let bi = span.0;
    let bj = span.1;
    lemma_find_char_from_props(rest, '[', 0);
    lemma_find_char_from_props(rest, ']', bi + 1);
    let unbracketed = elide(rest, bi, bj);
    let qspan = delimited_span(unbracketed, '"', '"')->Some_0;
    let qi = qspan.0;
    let qj = qspan.1;
    lemma_find_char_from_props(unbracketed, '"', 0);
    lemma_find_char_from_props(unbracketed, '"', qi + 1);
    let m = parse_line(l)->Ok_0;
    assert(m.request == unbracketed.subrange(qi + 1, qj));
    let d = bj + 1 - bi;
    if qi >= bi {
        // both quotes come from after the elided brackets
        assert forall|t: int| bi <= t < unbracketed.len() implies unbracketed[t] == rest[t + d] by {
            assert(unbracketed[t] == rest.subrange(bj + 1, rest.len() as int)[t - bi]);
        }
        let s = sp + 1 + qi + d;
        assert(l[s] == rest[qi + d]);
        assert(l[s + (qj - qi - 1) + 1] == rest[qj + d]);
        assert(m.request =~= l.subrange(s + 1, s + 1 + (qj - qi - 1)));
    } else {
        // both quotes come from before the opening bracket
        assert(qj < bi);
        assert forall|t: int| 0 <= t < bi implies unbracketed[t] == rest[t] by {
            assert(unbracketed[t] == rest.subrange(0, bi)[t]);
        }
        let s = sp + 1 + qi;
        assert(l[s] == rest[qi]);
        assert(l[s + (qj - qi - 1) + 1] == rest[qj]);
        assert(m.request =~= l.subrange(s + 1, s + 1 + (qj - qi - 1)));
    }
}

/// Finds the first occurrence of `c` in `s` at or after `start`.
fn find_char(s: &str, c: char, start: usize) -> (r: Option<usize>)
    requires
        start <= s@.len(),
    ensures
        match r {
            Some(j) => {
                &&& find_char_from(s@, c, start as int) == Some(j as int)
                &&& start <= j < s@.len()
                &&& s@[j as int] == c
            },
            None => find_char_from(s@, c, start as int) is None,
        },
{
    let n = s.unicode_len();
    let mut i = start;
    while i < n
        invariant
            n == s@.len(),
            start <= i <= n,
            find_char_from(s@, c, start as int) == find_char_from(s@, c, i as int),
        decreases n - i,
    {
        let ch = s.get_char(i);
        if ch == c {
            return Some(i);
        }
        i += 1;
    }
    None
}

proof fn lemma_dec_value_nonneg(s: Seq<char>)
    requires
        forall|k: int| 0 <= k < s.len() ==> is_dec_digit(s[k]),
    ensures
        dec_value(s) >= 0,
    decreases s.len(),
{
    if s.len() > 0 {
        assert(forall|k: int| 0 <= k < s.drop_last().len() ==> is_dec_digit(
            #[trigger] s.drop_last()[k],
        ));
        lemma_dec_value_nonneg(s.drop_last());
    }
}

proof fn lemma_dec_value_prefix_le(s: Seq<char>, m: int)
    requires
        forall|k: int| 0 <= k < s.len() ==> is_dec_digit(s[k]),
        0 <= m <= s.len(),
    ensures
        dec_value(s.take(m)) <= dec_value(s),
    decreases s.len() - m,
{
    if m < s.len() {
        lemma_dec_value_prefix_le(s, m + 1);
        assert(s.take(m + 1).drop_last() =~= s.take(m));
        assert(s.take(m + 1).last() == s[m]);
        assert(forall|k: int| 0 <= k < s.take(m).len() ==> is_dec_digit(#[trigger] s.take(m)[k]));
        lemma_dec_value_nonneg(s.take(m));
    } else {
        assert(s.take(m) =~= s);
    }
}

/// Parses a decimal token of value at most `max`, rejecting any sign, inner
/// whitespace, non-digit, or a value over `max`.
fn parse_uint_exec(s: &str, max: u64) -> (r: Option<u64>)
    requires
        max <= 0xffff_ffff,
    ensures
        match r {
            Some(v) => parse_uint(s@, max as int) == Some(v as int),
            None => parse_uint(s@, max as int) is None,
        },
{
    let n = s.unicode_len();
    if n == 0 {
        return None;
    }
    let mut val: u64 = 0;
    let mut i: usize = 0;
    while i < n
        invariant
            n == s@.len(),
            0 < n,
            i <= n,
            max <= 0xffff_ffff,
            forall|k: int| 0 <= k < i ==> is_dec_digit(s@[k]),
            val as int == dec_value(s@.take(i as int)),
            val <= max,
        decreases n - i,
    {
        let c = s.get_char(i);
        let cu = c as u32;
        if cu < 48 || cu > 57 {
            assert(!is_dec_digit(s@[i as int]));
            return None;
        }
        let d: u64 = (cu - 48) as u64;
        let nv: u64 = val * 10 + d;
        proof {
            assert(s@.take(i as int + 1).drop_last() =~= s@.take(i as int));
            assert(s@.take(i as int + 1).last() == s@[i as int]);
        }
        if nv > max {
            proof {
                if all_dec_digits(s@) {
                    lemma_dec_value_prefix_le(s@, i as int + 1);
                }
            }
            return None;
        }
        val = nv;
        i += 1;
    }
    proof {
        assert(s@.take(n as int) =~= s@);
    }
    Some(val)
}

/// Whether the character at position `i` is whitespace.
fn space_at(s: &str, i: usize) -> (r: bool)
    requires
        i < s@.len(),
    ensures
        r == is_space_char(s@[i as int]),
{
    let c = s.get_char(i);
    c == ' ' || c == '\t' || c == '\n' || c == '\r' || c == '\u{b}' || c == '\u{c}'
}

/// Removes leading and trailing whitespace.
fn trim_exec<'a>(s: &'a str) -> (r: &'a str)
    ensures
        r@ == trim_spec(s@),
{
    let n = s.unicode_len();
    let mut a: usize = 0;
    proof {
        assert(s@.skip(0) =~= s@);
    }
    while a < n && space_at(s, a)
        invariant
            n == s@.len(),
            a <= n,
            trim_start_spec(s@) == trim_start_spec(s@.skip(a as int)),
        decreases n - a,
    {
        proof {
            assert(s@.skip(a as int).drop_first() =~= s@.skip(a as int + 1));
            assert(s@.skip(a as int)[0] == s@[a as int]);
        }
        a += 1;
    }
    proof {
        if a < n {
            assert(s@.skip(a as int)[0] == s@[a as int]);
        }
        assert(trim_start_spec(s@) == s@.skip(a as int));
    }
    let mut e: usize = n;
    proof {
        assert(s@.skip(a as int).take(n - a) =~= s@.skip(a as int));
    }
    while e > a && space_at(s, e - 1)
        invariant
            n == s@.len(),
            a <= e <= n,
            trim_start_spec(s@) == s@.skip(a as int),
            trim_end_spec(s@.skip(a as int)) == trim_end_spec(s@.skip(a as int).take(e - a)),
        decreases e,
    {
        proof {
            let t = s@.skip(a as int);
            assert(t.take(e - a).last() == s@[e - 1]);
            assert(t.take(e - a).drop_last() =~= t.take(e - a - 1));
        }
        e -= 1;
    }
    proof {
        let t = s@.skip(a as int);
        if e > a {
            assert(t.take(e - a).last() == s@[e - 1]);
        }
        assert(trim_end_spec(t) == t.take(e - a));
        assert(t.take(e - a) =~= s@.subrange(a as int, e as int));
    }
    s.substring_char(a, e)
}

impl ApacheLogEntry {
    /// Parses one log line into a record, or reports why the line is
    /// rejected. The result is exactly `parse_line` of the line's characters:
    /// parsing is pure and deterministic.
    pub fn try_from_line(line: &str) -> (r: Result<ApacheLogEntry, ParseError>)
        ensures
            match r {
                Ok(rec) => parse_line(line@) == Ok::<RecordModel, ParseErrorModel>(rec@),
                Err(e) => parse_line(line@) == Err::<RecordModel, ParseErrorModel>(e@),
            },
    {
        let n = line.unicode_len();
        let sp = match find_char(line, ' ', 0) {
            Some(i) => i,
            None => {
                return Err(ParseError::MissingIpSeparator(line.to_owned()));
            },
        };
        let client_ip = line.substring_char(0, sp).to_owned();
        let rest = line.substring_char(sp + 1, n);
        let rest_n = rest.unicode_len();
        let bi = match find_char(rest, '[', 0) {
            Some(i) => i,
            None => {
                return Err(ParseError::MissingTimestampBrackets(rest.to_owned()));
            },
        };
        let bj = match find_char(rest, ']', bi + 1) {
            Some(j) => j,
            None => {
                return Err(ParseError::MissingTimestampBrackets(rest.to_owned()));
            },
        };
        let date_text = rest.substring_char(bi + 1, bj);
        let mut unbracketed = rest.substring_char(0, bi).to_owned();
        unbracketed.append(rest.substring_char(bj + 1, rest_n));
        let timestamp = match parse_rfc2822(date_text) {
            Some(p) => Timestamp::new(p.0, p.1),
            None => {
                return Err(ParseError::BadTimestampSyntax(date_text.to_owned()));
            },
        };
        let u_n = unbracketed.as_str().unicode_len();
        let qi = match find_char(unbracketed.as_str(), '"', 0) {
            Some(i) => i,
            None => {
                return Err(ParseError::MissingRequestQuotes(unbracketed));
            },
        };
        let qj = match find_char(unbracketed.as_str(), '"', qi + 1) {
            Some(j) => j,
            None => {
                return Err(ParseError::MissingRequestQuotes(unbracketed));
            },
        };
        let request = unbracketed.as_str().substring_char(qi + 1, qj).to_owned();
        let mut residue_raw = unbracketed.as_str().substring_char(0, qi).to_owned();
        residue_raw.append(unbracketed.as_str().substring_char(qj + 1, u_n));
        let trimmed = trim_exec(residue_raw.as_str());
        let t_n = trimmed.unicode_len();
        let sp2 = match find_char(trimmed, ' ', 0) {
            Some(i) => i,
            None => {
                return Err(ParseError::MissingStatusSizeSeparator(trimmed.to_owned()));
            },
        };
        let status_tok = trimmed.substring_char(0, sp2);
        let size_tok = trimmed.substring_char(sp2 + 1, t_n);
        let status_code = match parse_uint_exec(status_tok, 255) {
            Some(v) => v as u8,
            None => {
                return Err(ParseError::StatusOutOfRange(status_tok.to_owned()));
            },
        };
        let size = match parse_uint_exec(size_tok, 4294967295) {
            Some(v) => v as u32,
            None => {
                return Err(ParseError::SizeOutOfRange(size_tok.to_owned()));
            },
        };
        Ok(ApacheLogEntry { client_ip, timestamp, request, status_code, size })
    }
}

} // verus!
