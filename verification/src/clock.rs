//! Points in time and the calls into `chrono` that read the clock, parse
//! dates and write them out.

use vstd::prelude::*;

verus! {

/// A point in time: whole seconds since 1970-01-01T00:00:00Z and the
/// nanoseconds past that second (at least 10^9 only inside a leap second).
#[derive(Clone, Copy, Debug, PartialEq, Eq, Structural)]
pub struct Instant {
    pub secs: i64,
    pub nanos: u32,
}

/// The last second that `chrono` can represent (the end of year 262142).
pub const MAX_CLOCK_SECS: i64 = 8_210_266_876_799;

/// An instant that the system clock can report through `chrono`: not before
/// the epoch, within `chrono`'s range, and outside any leap second.
pub open spec fn is_clock_instant(t: Instant) -> bool {
    0 <= t.secs <= MAX_CLOCK_SECS && t.nanos < 1_000_000_000
}

/// `a` is the same instant as `b` or a later one.
pub open spec fn at_or_after(a: Instant, b: Instant) -> bool {
    a.secs > b.secs || (a.secs == b.secs && a.nanos >= b.nanos)
}

/// Whether `a` is the same instant as `b` or a later one.
pub fn is_at_or_after(a: Instant, b: Instant) -> (r: bool)
    ensures
        r == at_or_after(a, b),
{
    a.secs > b.secs || (a.secs == b.secs && a.nanos >= b.nanos)
}

/// Milliseconds since the epoch, as `DateTime::timestamp_millis` counts them.
pub open spec fn millis_of(t: Instant) -> int {
    t.secs * 1000 + t.nanos / 1_000_000
}

/// Milliseconds since the epoch of a clock instant.
pub fn unix_millis(t: Instant) -> (r: i64)
    requires
        is_clock_instant(t),
    ensures
        r == millis_of(t),
{
    t.secs * 1000 + (t.nanos / 1_000_000) as i64
}

/// The signed number of nanoseconds from `from` to `to`.
pub open spec fn nanos_between(from: Instant, to: Instant) -> int {
    (to.secs - from.secs) * 1_000_000_000 + to.nanos - from.nanos
}

/// The current time (`chrono::Utc::now`; `Local::now` is the same instant).
/// `chrono` reads the system clock, panics for a clock before the epoch
/// and unwraps a conversion that fails beyond its range, so an instant
/// that comes back is a clock instant. Which instant it is depends on the
/// clock and is not stated.
#[verifier::external_body]
pub(crate) fn clock_now() -> (t: Instant)
    ensures
        is_clock_instant(t),
{
    let now = chrono::Utc::now();
    Instant { secs: now.timestamp(), nanos: now.timestamp_subsec_nanos() }
}

/// The instant that `chrono::DateTime::parse_from_rfc3339` reads from a
/// text, if it accepts it.
pub uninterp spec fn rfc3339_instant(s: Seq<char>) -> Option<Instant>;

/// `chrono::DateTime::parse_from_rfc3339`: the result is named
/// `rfc3339_instant` of the text and depends on nothing else.
#[verifier::external_body]
pub(crate) fn parse_rfc3339(s: &str) -> (r: Option<Instant>)
    ensures
        r == rfc3339_instant(s@),
{
    match chrono::DateTime::parse_from_rfc3339(s) {
        Ok(t) => Some(Instant { secs: t.timestamp(), nanos: t.timestamp_subsec_nanos() }),
        Err(_) => None,
    }
}

/// The date and time that `chrono::NaiveDateTime::parse_from_str` reads
/// from a text with a format, written as the instant it would name in UTC.
pub uninterp spec fn naive_stamp(s: Seq<char>, fmt: Seq<char>) -> Option<Instant>;

/// `chrono::NaiveDateTime::parse_from_str`: the result is named
/// `naive_stamp` of the text and the format and depends on nothing else.
#[verifier::external_body]
pub(crate) fn parse_naive(s: &str, fmt: &str) -> (r: Option<Instant>)
    ensures
        r == naive_stamp(s@, fmt@),
{
    match chrono::NaiveDateTime::parse_from_str(s, fmt) {
        Ok(t) => {
            let u = t.and_utc();
            Some(Instant { secs: u.timestamp(), nanos: u.timestamp_subsec_nanos() })
        },
        Err(_) => None,
    }
}

/// `chrono::NaiveDateTime::and_local_timezone(Local).single()`: the
/// instant at which the machine's time zone shows the given wall-clock
/// time, if exactly one does. Which instant depends on the time zone of
/// the machine; chrono's offsets (`FixedOffset::east_opt`) are less than a
/// day, so it lies within a day of the wall-clock time read as UTC.
#[verifier::external_body]
pub(crate) fn local_instant(naive: Instant) -> (r: Option<Instant>)
    ensures
        r matches Some(t) ==> naive.secs - 86400 < t.secs < naive.secs + 86400,
{
    match chrono::DateTime::from_timestamp(naive.secs, naive.nanos) {
        Some(u) => match u.naive_utc().and_local_timezone(chrono::Local).single() {
            Some(t) => Some(Instant { secs: t.timestamp(), nanos: t.timestamp_subsec_nanos() }),
            None => None,
        },
        None => None,
    }
}

/// `chrono::DateTime::<Local>::to_rfc3339` of a clock instant. The text
/// carries the offset of the machine's time zone, rounded to whole minutes,
/// so reading it back gives another instant in a zone whose offset has
/// seconds; nothing is stated of it.
#[verifier::external_body]
pub(crate) fn local_rfc3339(t: Instant) -> (r: String)
    requires
        is_clock_instant(t),
{
    chrono::DateTime::from_timestamp(t.secs, t.nanos).unwrap().with_timezone(&chrono::Local).to_rfc3339()
}

} // verus!
