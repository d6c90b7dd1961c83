//! Instants as whole seconds since the epoch, and the text form in which
//! they cross the query boundary.

use vstd::prelude::*;

verus! {

/// Number of seconds in one civil day.
pub const SECONDS_PER_DAY: i64 = 86_400;

/// Number of seconds of the look-back for wind and humidity.
pub const LOOKBACK_SECONDS: i64 = 7_200;

/// What `chrono::DateTime::parse_from_rfc3339` makes of a text: the instant
/// it denotes, in whole seconds since the epoch, or the words of chrono's
/// parse error where the text is no RFC 3339 date and time.
pub uninterp spec fn rfc3339_outcome(text: Seq<char>) -> Result<i64, Seq<char>>;

/// Calls `chrono::DateTime::parse_from_rfc3339`; of an instant it keeps the
/// seconds (`DateTime::timestamp`), of a parse error its words.  The
/// contract only gives the outcome its name.
#[verifier::external_body]
pub(crate) fn parse_rfc3339(text: &str) -> (r: Result<i64, String>)
    ensures
        match r {
            Ok(seconds) => rfc3339_outcome(text@) == Ok::<i64, Seq<char>>(seconds),
            Err(words) => rfc3339_outcome(text@) == Err::<i64, Seq<char>>(words@),
        },
{
    match chrono::DateTime::parse_from_rfc3339(text) {
        Ok(instant) => Ok(instant.timestamp()),
        Err(fault) => Err(fault.to_string()),
    }
}

/// The two bounds of a window given as texts: both instants, or the words
/// of the first text that is no RFC 3339 date and time.
pub open spec fn bounds(from: Seq<char>, to: Seq<char>) -> Result<(i64, i64), Seq<char>> {
    match rfc3339_outcome(from) {
        Err(words) => Err(words),
        Ok(lower) => match rfc3339_outcome(to) {
            Err(words) => Err(words),
            Ok(upper) => Ok((lower, upper)),
        },
    }
}

/// Reads the two bounds of a window.
pub fn parse_bounds(from: &str, to: &str) -> (r: Result<(i64, i64), String>)
    ensures
        match r {
            Ok(pair) => bounds(from@, to@) == Ok::<(i64, i64), Seq<char>>(pair),
            Err(words) => bounds(from@, to@) == Err::<(i64, i64), Seq<char>>(words@),
        },
{
    match parse_rfc3339(from) {
        Err(words) => Err(words),
        Ok(lower) => match parse_rfc3339(to) {
            Err(words) => Err(words),
            Ok(upper) => Ok((lower, upper)),
        },
    }
}

/// The number of the day that holds `seconds`, counted from the epoch.
pub open spec fn day_of(seconds: int) -> int {
    seconds / (SECONDS_PER_DAY as int)
}

/// The number of the day that holds `seconds`, counted from the epoch.
pub fn day_number(seconds: i64) -> (day: i64)
    ensures
        day == day_of(seconds as int),
{
    if seconds >= 0 {
        seconds / SECONDS_PER_DAY
    } else {
        let before_epoch: i64 = -(seconds + 1);
        -(before_epoch / SECONDS_PER_DAY) - 1
    }
}

/// What chrono prints for the calendar day of an instant: the instant as
/// `chrono::DateTime::from_timestamp` makes it, cut to its day with
/// `date_naive`, in the words of that day's `Display`.  Nothing where the
/// instant lies outside chrono's calendar.
pub uninterp spec fn civil_date(seconds: i64) -> Option<Seq<char>>;

/// Calls `chrono::DateTime::from_timestamp` with no nanoseconds, and prints
/// the day of the instant (`date_naive`, then `to_string`).  The contract
/// only gives the outcome its name.
#[verifier::external_body]
pub(crate) fn date_text(seconds: i64) -> (r: Option<String>)
    ensures
        match r {
            Some(day) => civil_date(seconds) == Some(day@),
            None => civil_date(seconds) is None,
        },
{
    match chrono::DateTime::from_timestamp(seconds, 0) {
        Some(instant) => Some(instant.date_naive().to_string()),
        None => None,
    }
}

} // verus!
