//! Points in time, spans, and the freshness rules built on them.

use vstd::prelude::*;

use crate::types::opt_view;

verus! {

/// The nanoseconds of a second.
pub const NANOS_PER_SECOND: u32 = 1_000_000_000;

/// The seconds of the earliest instant that a calendar date can be given for.
pub const MIN_TIMESTAMP_SECONDS: i64 = -8_334_601_228_800;

/// The seconds of the latest instant that a calendar date can be given for.
pub const MAX_TIMESTAMP_SECONDS: i64 = 8_210_266_876_799;

/// The longest signed span in whole seconds: that of `i64::MAX` milliseconds.
pub const MAX_SPAN_SECONDS: u64 = 9_223_372_036_854_775;

/// What the longest signed span has beyond its whole seconds, in nanoseconds.
pub const MAX_SPAN_NANOS: u32 = 807_000_000;

/// An instant: seconds since the Unix epoch, and nanoseconds after those.
#[derive(Debug, Clone, Copy, PartialEq, Eq, Structural)]
pub struct Timestamp {
    pub seconds: i64,
    pub nanos: u32,
}

/// A span of time that is not negative.
#[derive(Debug, Clone, Copy, PartialEq, Eq, Structural)]
pub struct Span {
    pub seconds: u64,
    pub nanos: u32,
}

impl Timestamp {
    /// The instant in nanoseconds since the Unix epoch.
    pub open spec fn at(self) -> int {
        self.seconds * 1_000_000_000 + self.nanos
    }

    /// The instant in nanoseconds since the Unix epoch.
    pub fn total_nanos(&self) -> (r: i128)
        ensures
            r == self.at(),
            -9_223_372_036_854_775_808_000_000_000 <= r <= 9_223_372_036_860_000_000_000_000_000,
    {
        self.seconds as i128 * 1_000_000_000 + self.nanos as i128
    }

    /// Whether this instant is not later than the other.
    pub fn at_or_before(&self, other: &Timestamp) -> (r: bool)
        ensures
            r == (self.at() <= other.at()),
    {
        self.total_nanos() <= other.total_nanos()
    }

    /// Whether this instant is earlier than the other.
    pub fn before(&self, other: &Timestamp) -> (r: bool)
        ensures
            r == (self.at() < other.at()),
    {
        self.total_nanos() < other.total_nanos()
    }

    /// The instant some whole seconds later.
    pub fn plus_seconds(&self, seconds: i64) -> (r: Timestamp)
        requires
            i64::MIN <= self.seconds + seconds <= i64::MAX,
        ensures
            r.at() == self.at() + seconds * 1_000_000_000,
            r.nanos == self.nanos,
            r.seconds == self.seconds + seconds,
    {
        Timestamp { seconds: self.seconds + seconds, nanos: self.nanos }
    }
}

impl Span {
    /// The span in nanoseconds.
    pub open spec fn len(self) -> int {
        self.seconds * 1_000_000_000 + self.nanos
    }

    /// The span can also be written as a signed span.
    pub open spec fn fits_signed(self) -> bool {
        self.seconds < MAX_SPAN_SECONDS || (self.seconds == MAX_SPAN_SECONDS && self.nanos
            <= MAX_SPAN_NANOS)
    }

    /// A span of whole seconds.
    pub fn from_secs(seconds: u64) -> (r: Span)
        ensures
            r.len() == seconds * 1_000_000_000,
            r.seconds == seconds,
            r.nanos == 0,
    {
        Span { seconds, nanos: 0 }
    }

    /// The span in nanoseconds.
    pub fn total_nanos(&self) -> (r: i128)
        ensures
            r == self.len(),
            0 <= r <= 18_446_744_073_720_000_000_000_000_000,
    {
        self.seconds as i128 * 1_000_000_000 + self.nanos as i128
    }

    /// Whether the span can also be written as a signed span.
    pub fn has_signed_form(&self) -> (r: bool)
        ensures
            r == self.fits_signed(),
    {
        self.seconds < MAX_SPAN_SECONDS || (self.seconds == MAX_SPAN_SECONDS && self.nanos
            <= MAX_SPAN_NANOS)
    }
}

/// `timestamp` is not older than `ttl_seconds` at `now`. An instant after `now` is fresh.
pub open spec fn fresh(timestamp: Timestamp, now: Timestamp, ttl_seconds: u64) -> bool {
    now.at() - timestamp.at() <= ttl_seconds * 1_000_000_000
}

/// `timestamp` lies no more than `skew` after `now`. Nothing does where the span is too long to be
/// a signed one.
pub open spec fn not_after_skew(timestamp: Timestamp, now: Timestamp, skew: Span) -> bool {
    skew.fits_signed() && timestamp.at() <= now.at() + skew.len()
}

/// `timestamp` lies no more than `skew` away from `now`. Nothing does where the span is too long
/// to be a signed one.
pub open spec fn within_skew(timestamp: Timestamp, now: Timestamp, skew: Span) -> bool {
    skew.fits_signed() && now.at() - skew.len() <= timestamp.at() <= now.at() + skew.len()
}

/// Whether an instant is not older than a time to live.
pub fn timestamp_is_fresh(timestamp: Timestamp, now: Timestamp, ttl_seconds: u64) -> (r: bool)
    ensures
        r == fresh(timestamp, now, ttl_seconds),
{
    now.total_nanos() - timestamp.total_nanos() <= Span::from_secs(ttl_seconds).total_nanos()
}

/// Whether an instant lies no more than a span after now.
pub fn timestamp_not_after_skew(timestamp: Timestamp, now: Timestamp, max_skew: Span) -> (r: bool)
    ensures
        r == not_after_skew(timestamp, now, max_skew),
{
    max_skew.has_signed_form() && timestamp.total_nanos() <= now.total_nanos()
        + max_skew.total_nanos()
}

/// Whether an instant lies no more than a span away from now.
pub fn timestamp_within_skew(timestamp: Timestamp, now: Timestamp, max_skew: Span) -> (r: bool)
    ensures
        r == within_skew(timestamp, now, max_skew),
{
    max_skew.has_signed_form() && timestamp.total_nanos() >= now.total_nanos()
        - max_skew.total_nanos() && timestamp.total_nanos() <= now.total_nanos()
        + max_skew.total_nanos()
}

/// The instant a number of milliseconds after the Unix epoch, where a calendar date can be given
/// for it.
pub open spec fn millis_instant(millis: i64) -> Option<(i64, u32)> {
    let seconds = millis as int / 1000;
    if MIN_TIMESTAMP_SECONDS <= seconds <= MAX_TIMESTAMP_SECONDS {
        Some((seconds as i64, ((millis as int % 1000) * 1_000_000) as u32))
    } else {
        None
    }
}

/// Calls `chrono::DateTime::from_timestamp_millis`. It gives the instant `millis` milliseconds
/// after the Unix epoch, rounded down to whole seconds with the rest as nanoseconds, and nothing
/// exactly where the instant lies outside of chrono's calendar, which runs from the first second
/// of the year -262143 to the last one of the year 262142.
#[verifier::external_body]
fn chrono_from_timestamp_millis(millis: i64) -> (r: Option<(i64, u32)>)
    ensures
        r == millis_instant(millis),
{
    chrono::DateTime::<chrono::Utc>::from_timestamp_millis(millis).map(
        |t| (t.timestamp(), t.timestamp_subsec_nanos()),
    )
}

/// The instant a number of milliseconds after the Unix epoch.
pub fn timestamp_from_millis(millis: i64) -> (r: Option<Timestamp>)
    ensures
        match r {
            Some(t) => millis_instant(millis) == Some((t.seconds, t.nanos)) && t.at() == millis
                * 1_000_000,
            None => millis_instant(millis) is None,
        },
{
    match chrono_from_timestamp_millis(millis) {
        Some((seconds, nanos)) => Some(Timestamp { seconds, nanos }),
        None => None,
    }
}

/// What chrono writes for an instant in UTC, where it lies in its calendar.
pub uninterp spec fn chrono_display(seconds: i64, nanos: u32) -> Option<Seq<char>>;

/// Calls `chrono::DateTime::from_timestamp` and the `Display` of its result. Whether there is a
/// text, and which, is a function of the two numbers alone; what it is, the contract does not say.
#[verifier::external_body]
fn chrono_display_text(seconds: i64, nanos: u32) -> (r: Option<String>)
    ensures
        opt_view(r) == chrono_display(seconds, nanos),
{
    chrono::DateTime::<chrono::Utc>::from_timestamp(seconds, nanos).map(|t| t.to_string())
}

/// The text of an instant in messages: nothing for one outside of the calendar.
pub open spec fn timestamp_display(timestamp: Timestamp) -> Seq<char> {
    match chrono_display(timestamp.seconds, timestamp.nanos) {
        Some(text) => text,
        None => Seq::empty(),
    }
}

/// The text of an instant in messages.
pub fn timestamp_text(timestamp: Timestamp) -> (r: String)
    ensures
        r@ == timestamp_display(timestamp),
{
    match chrono_display_text(timestamp.seconds, timestamp.nanos) {
        Some(text) => text,
        None => String::new(),
    }
}

/// An instant that is fresh stays fresh under a longer time to live.
pub proof fn law_fresh_is_monotone(timestamp: Timestamp, now: Timestamp, ttl: u64, longer: u64)
    requires
        fresh(timestamp, now, ttl),
        ttl <= longer,
    ensures
        fresh(timestamp, now, longer),
{
}

/// An instant within a skew of now is not after that skew.
pub proof fn law_within_skew_is_not_after(timestamp: Timestamp, now: Timestamp, skew: Span)
    requires
        within_skew(timestamp, now, skew),
    ensures
        not_after_skew(timestamp, now, skew),
{
}

/// An instant is fresh up to the end of its time to live and not after it: it stays fresh when time
/// goes back, one that lies ahead is fresh, and the time to live ends to the nanosecond.
pub proof fn law_fresh_ends_with_the_time_to_live(
    timestamp: Timestamp,
    now: Timestamp,
    earlier: Timestamp,
    ttl: u64,
)
    requires
        earlier.at() <= now.at(),
    ensures
        fresh(timestamp, now, ttl) ==> fresh(timestamp, earlier, ttl),
        timestamp.at() >= now.at() ==> fresh(timestamp, now, ttl),
        now.at() == timestamp.at() + ttl * 1_000_000_000 ==> fresh(timestamp, now, ttl),
        now.at() == timestamp.at() + ttl * 1_000_000_000 + 1 ==> !fresh(timestamp, now, ttl),
{
}

/// Two instants are within a skew of each other or neither is: what counts is how far they are
/// apart, in either direction.
pub proof fn law_skew_is_symmetric(a: Timestamp, b: Timestamp, skew: Span)
    ensures
        within_skew(a, b, skew) == within_skew(b, a, skew),
        within_skew(a, a, skew) == skew.fits_signed(),
        within_skew(a, b, skew) == (not_after_skew(a, b, skew) && not_after_skew(b, a, skew)),
        a.at() <= b.at() ==> not_after_skew(a, b, skew) == skew.fits_signed(),
        skew.fits_signed() && a.at() == b.at() + skew.len() ==> not_after_skew(a, b, skew),
        a.at() > b.at() + skew.len() ==> !not_after_skew(a, b, skew),
{
}

} // verus!
