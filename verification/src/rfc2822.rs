use vstd::prelude::*;

verus! {

/// The instant that an RFC 2822 date-time text denotes, as seconds since the
/// Unix epoch paired with its UTC offset in seconds, or `None` where the text
/// is not an RFC 2822 date-time. The value stands for what chrono's RFC 2822
/// parser computes: a function of the characters alone.
pub uninterp spec fn rfc2822_instant(s: Seq<char>) -> Option<(int, int)>;

/// Relies on chrono's `DateTime::parse_from_rfc2822` together with
/// `DateTime::timestamp` and `FixedOffset::local_minus_utc`, which reduce the
/// parsed date-time to plain seconds: the epoch seconds of the instant and
/// the UTC offset carried by the text. The result depends on the characters
/// of `s` alone, and parsing never panics.
#[verifier::external_body]
pub(crate) fn parse_rfc2822(s: &str) -> (r: Option<(i64, i32)>)
    ensures
        match r {
            Some(p) => rfc2822_instant(s@) == Some((p.0 as int, p.1 as int)),
            None => rfc2822_instant(s@) is None,
        },
{
    match chrono::DateTime::parse_from_rfc2822(s) {
        Ok(dt) => Some((dt.timestamp(), dt.offset().local_minus_utc())),
        Err(_) => None,
    }
}

} // verus!
