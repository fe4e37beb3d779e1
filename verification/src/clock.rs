//! The time of day, as the library reads it.

use vstd::prelude::*;
use vstd::string::*;

verus! {

/// `SystemTime::now` of the standard library, as nanoseconds since 1970,
/// or nothing where the system's clock stands before 1970. Nothing is
/// known of the reading.
#[verifier::external_body]
pub(crate) fn system_nanos() -> Option<u128> {
    match std::time::SystemTime::now().duration_since(std::time::UNIX_EPOCH) {
        Ok(since) => Some(since.as_nanos()),
        Err(_) => None,
    }
}

/// The moment `secs` seconds and `nanos` nanoseconds after the beginning of
/// 1970, written out as RFC 3339 prescribes in the way of chrono, and
/// nothing where chrono has no date for the seconds or no time of day for
/// the nanoseconds.
pub uninterp spec fn rfc3339(secs: i64, nanos: u32) -> Option<Seq<char>>;

/// The time now, in nanoseconds since 1970; 0 where the clock stands
/// before that.
pub(crate) fn now_nanos() -> u128 {
    nanos_since_1970(system_nanos())
}

/// `DateTime::from_timestamp` of chrono, and `DateTime::to_rfc3339` of what
/// it gives: the moment written out, or nothing where chrono has no date
/// for the seconds or no time of day for the nanoseconds. The text is the
/// same for the same numbers, which is all that is claimed of it.
#[verifier::external_body]
pub(crate) fn rfc3339_at(secs: i64, nanos: u32) -> (r: Option<String>)
    ensures
        match r {
            Some(text) => rfc3339(secs, nanos) == Some(text@),
            None => rfc3339(secs, nanos) is None,
        },
{
    match chrono::DateTime::from_timestamp(secs, nanos) {
        Some(moment) => Some(moment.to_rfc3339()),
        None => None,
    }
}

/// What a reading of the clock counts as: itself, and 0 where the clock
/// stands before 1970.
pub open spec fn counted(reading: Option<u128>) -> u128 {
    match reading {
        Some(nanos) => nanos,
        None => 0,
    }
}

/// Computes [`counted`].
pub(crate) fn nanos_since_1970(reading: Option<u128>) -> (r: u128)
    ensures
        r == counted(reading),
{
    match reading {
        Some(nanos) => nanos,
        None => 0,
    }
}

/// The nanoseconds in a second.
pub const NANOS_PER_SECOND: u128 = 1_000_000_000;

/// The beginning of 1970, written out.
pub open spec fn epoch_text() -> Seq<char> {
    "1970-01-01T00:00:00+00:00"@
}

/// A reading of the clock as the text that stamps a message: the moment
/// that many nanoseconds after the beginning of 1970, written out as RFC
/// 3339 prescribes. A clock that stands before 1970 stamps the beginning of
/// 1970, and so does a moment too far off to be named.
pub open spec fn stamp_text(reading: Option<u128>) -> Seq<char> {
    let nanos = counted(reading);
    let secs = nanos / NANOS_PER_SECOND;
    if secs <= i64::MAX {
        match rfc3339(secs as i64, (nanos % NANOS_PER_SECOND) as u32) {
            Some(text) => text,
            None => epoch_text(),
        }
    } else {
        epoch_text()
    }
}

/// Computes [`stamp_text`].
pub fn timestamp_text(reading: Option<u128>) -> (r: String)
    ensures
        r@ == stamp_text(reading),
{
    let nanos = nanos_since_1970(reading);
    let secs = nanos / NANOS_PER_SECOND;
    let rest = nanos % NANOS_PER_SECOND;
    if secs <= i64::MAX as u128 {
        match rfc3339_at(secs as i64, rest as u32) {
            Some(text) => text,
            None => "1970-01-01T00:00:00+00:00".to_owned(),
        }
    } else {
        "1970-01-01T00:00:00+00:00".to_owned()
    }
}

/// The text that stamps what happens now.
pub(crate) fn timestamp_now() -> String {
    timestamp_text(system_nanos())
}

} // verus!
