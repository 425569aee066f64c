//! Date and time text, read and written by the `chrono` crate.
//!
//! Dates are stored as non-leap milliseconds since the Unix epoch. Text with
//! a time zone and text without one are converted by `chrono`; what it
//! returns is named here and not described further.
use vstd::prelude::*;

verus! {

/// The milliseconds that `chrono` reads from date and time text without a
/// time zone, or `None` where it rejects the text.
pub uninterp spec fn naive_millis(text: Seq<char>) -> Option<i64>;

/// The milliseconds that `chrono` reads from date and time text with a time
/// zone, or `None` where it rejects the text.
pub uninterp spec fn utc_millis(text: Seq<char>) -> Option<i64>;

/// The text without a time zone that `chrono` writes for a count of
/// milliseconds, or `None` where the count is outside of its range.
pub uninterp spec fn naive_text(millis: i64) -> Option<Seq<char>>;

/// The text in UTC that `chrono` writes for a count of milliseconds, or
/// `None` where the count is outside of its range.
pub uninterp spec fn utc_text(millis: i64) -> Option<Seq<char>>;

/// Calls `<chrono::NaiveDateTime as FromStr>::from_str` and, on success,
/// `NaiveDateTime::and_utc` and `DateTime::timestamp_millis`. The contract
/// only names the result: the same text always gives the same answer.
#[verifier::external_body]
pub(crate) fn parse_naive(text: &str) -> (r: Option<i64>)
    ensures
        r == naive_millis(text@),
{
    match text.parse::<chrono::NaiveDateTime>() {
        Ok(t) => Some(t.and_utc().timestamp_millis()),
        Err(_) => None,
    }
}

/// Calls `<chrono::DateTime<Utc> as FromStr>::from_str` and, on success,
/// `DateTime::timestamp_millis`. The contract only names the result.
#[verifier::external_body]
pub(crate) fn parse_utc(text: &str) -> (r: Option<i64>)
    ensures
        r == utc_millis(text@),
{
    match text.parse::<chrono::DateTime<chrono::Utc>>() {
        Ok(t) => Some(t.timestamp_millis()),
        Err(_) => None,
    }
}

/// Calls `chrono::DateTime::from_timestamp_millis` and writes the result
/// without its time zone, in the form that `NaiveDateTime`'s `Debug` gives
/// and its `FromStr` reads. The contract only names the result.
#[verifier::external_body]
pub(crate) fn format_naive(millis: i64) -> (r: Option<String>)
    ensures
        match r {
            Some(s) => naive_text(millis) == Some(s@),
            None => naive_text(millis) is None,
        },
{
    match chrono::DateTime::from_timestamp_millis(millis) {
        Some(t) => Some(format!("{:?}", t.naive_utc())),
        None => None,
    }
}

/// Calls `chrono::DateTime::from_timestamp_millis` and
/// `DateTime::to_rfc3339_opts`, with as many fractional digits as the value
/// needs and `Z` for the time zone. The contract only names the result.
#[verifier::external_body]
pub(crate) fn format_utc(millis: i64) -> (r: Option<String>)
    ensures
        match r {
            Some(s) => utc_text(millis) == Some(s@),
            None => utc_text(millis) is None,
        },
{
    match chrono::DateTime::from_timestamp_millis(millis) {
        Some(t) => Some(t.to_rfc3339_opts(chrono::SecondsFormat::AutoSi, true)),
        None => None,
    }
}

} // verus!
