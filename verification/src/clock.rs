//! The wall clock and fresh identifiers.
//!
//! Instants are whole nanoseconds since the Unix epoch, UTC, in an `i64`.

use vstd::prelude::*;

verus! {

/// The number of nanoseconds in a second.
pub const NANOS_PER_SECOND: i64 = 1_000_000_000;

/// The RFC 3339 text of the instant `ts`.
pub uninterp spec fn rfc3339_of(ts: i64) -> Seq<char>;

/// Reads the system clock with `std::time::SystemTime::now` and converts
/// the reading with chrono's `DateTime::<Utc>::from`, which also takes a
/// clock that stands before 1970, and with `DateTime::timestamp_nanos_opt`,
/// which gives `None` where the instant does not fit an `i64`. Nothing is
/// promised of the value: it is the time.
#[verifier::external_body]
pub(crate) fn unix_now() -> (now: Option<i64>) {
    chrono::DateTime::<chrono::Utc>::from(std::time::SystemTime::now()).timestamp_nanos_opt()
}

/// Renders `ts` with `chrono::DateTime::to_rfc3339`, after
/// `DateTime::from_timestamp_nanos`, which accepts every `i64`. The text
/// depends on the instant alone.
#[verifier::external_body]
pub(crate) fn rfc3339(ts: i64) -> (text: String)
    ensures
        text@ == rfc3339_of(ts),
{
    chrono::DateTime::from_timestamp_nanos(ts).to_rfc3339()
}

/// Draws an identifier with `ulid::Ulid::new` and renders it with
/// `Ulid::to_string`: 26 characters of Crockford base 32. Which ones is a
/// matter of the clock and of chance.
#[verifier::external_body]
pub(crate) fn fresh_ulid() -> (id: String)
    ensures
        id@.len() == 26,
{
    ulid::Ulid::new().to_string()
}

/// The instant a reading of the clock stands for: the reading itself, or
/// the end of the representable range where the clock has passed it and gives
/// no reading.
pub fn reading_or_end(reading: Option<i64>) -> (now: i64)
    ensures
        now == match reading {
            Some(t) => t,
            None => i64::MAX,
        },
{
    match reading {
        Some(t) => t,
        None => i64::MAX,
    }
}

/// The present instant; the end of the representable range once the clock
/// has passed it. Which instant that is, is a matter of the clock alone.
pub fn now_or_end() -> (now: i64) {
    reading_or_end(unix_now())
}

} // verus!
