//! Instants of time as plain numbers, and the reading of RFC 3339 texts.

use vstd::prelude::*;

verus! {

/// The smallest second count an instant can hold: twelve million days
/// before the epoch.
pub const MIN_SECONDS: i64 = -1_036_800_000_000;

/// The largest second count an instant can hold: the last second of the
/// twelve million days after the epoch.
pub const MAX_SECONDS: i64 = 1_036_799_999_999;

/// One more than the largest nanosecond part: the second half of the range
/// stands for a leap second.
pub const NANOS_LIMIT: u32 = 2_000_000_000;

/// The nanoseconds from which on an instant lies inside a leap second.
pub const LEAP_NANOS: u32 = 1_000_000_000;

/// The seconds of one day.
pub const DAY_SECONDS: i64 = 86_400;

/// An instant in UTC: whole seconds since 1970-01-01T00:00:00Z, and the
/// nanoseconds past that second.
#[derive(Clone, Copy, Debug, PartialEq, Eq, Structural)]
pub struct Timestamp {
    secs: i64,
    nanos: u32,
}

/// Whether a second count and a nanosecond part make an instant.
pub open spec fn in_range(secs: int, nanos: int) -> bool {
    MIN_SECONDS <= secs <= MAX_SECONDS && 0 <= nanos < NANOS_LIMIT
}

/// Whether the instant `(a_secs, a_nanos)` is later than `(b_secs, b_nanos)`.
pub open spec fn moment_after(a_secs: int, a_nanos: int, b_secs: int, b_nanos: int) -> bool {
    a_secs > b_secs || (a_secs == b_secs && a_nanos > b_nanos)
}

/// The instant `span` whole seconds before `(secs, nanos)`. An instant
/// inside a leap second is first taken as the start of the second after it,
/// with the nanoseconds it has beyond the leap second.
pub open spec fn moment_before(secs: int, nanos: int, span: int) -> (int, int) {
    if nanos >= LEAP_NANOS && span > 0 {
        (secs + 1 - span, nanos - LEAP_NANOS)
    } else {
        (secs - span, nanos)
    }
}

/// The first second of the day that holds second `secs`.
pub open spec fn day_start(secs: int) -> int {
    (secs / DAY_SECONDS as int) * DAY_SECONDS
}

impl Timestamp {
    #[verifier::type_invariant]
    spec fn valid(self) -> bool {
        in_range(self.secs as int, self.nanos as int)
    }

    /// The whole seconds since the epoch.
    pub closed spec fn secs(self) -> int {
        self.secs as int
    }

    /// The nanoseconds past the whole second.
    pub closed spec fn nanos(self) -> int {
        self.nanos as int
    }

    /// Whether `self` is later than `other`.
    pub open spec fn is_after(self, other: Timestamp) -> bool {
        moment_after(self.secs(), self.nanos(), other.secs(), other.nanos())
    }

    /// The instant with the given parts, if they are in range.
    pub fn from_parts(secs: i64, nanos: u32) -> (made: Option<Timestamp>)
        ensures
            match made {
                Some(t) => in_range(secs as int, nanos as int) && t.secs() == secs && t.nanos()
                    == nanos,
                None => !in_range(secs as int, nanos as int),
            },
    {
        if MIN_SECONDS <= secs && secs <= MAX_SECONDS && nanos < NANOS_LIMIT {
            Some(Timestamp { secs, nanos })
        } else {
            None
        }
    }

    /// The whole seconds since the epoch.
    pub fn seconds(&self) -> (s: i64)
        ensures
            s == self.secs(),
            MIN_SECONDS <= s <= MAX_SECONDS,
    {
        proof {
            use_type_invariant(self);
        }
        self.secs
    }

    /// The nanoseconds past the whole second.
    pub fn subsec_nanos(&self) -> (n: u32)
        ensures
            n == self.nanos(),
            n < NANOS_LIMIT,
    {
        proof {
            use_type_invariant(self);
        }
        self.nanos
    }

    /// Whether `self` is later than `other`.
    pub fn later_than(&self, other: &Timestamp) -> (later: bool)
        ensures
            later == self.is_after(*other),
    {
        self.secs > other.secs || (self.secs == other.secs && self.nanos > other.nanos)
    }

    /// Whether `self` is later than the instant `offset` seconds before
    /// `other`.
    pub fn later_than_before(&self, other: &Timestamp, offset: i64) -> (later: bool)
        requires
            0 <= offset <= MAX_SECONDS,
        ensures
            later == moment_after(
                self.secs(),
                self.nanos(),
                moment_before(other.secs(), other.nanos(), offset as int).0,
                moment_before(other.secs(), other.nanos(), offset as int).1,
            ),
    {
        proof {
            use_type_invariant(self);
            use_type_invariant(other);
        }
        if other.nanos >= LEAP_NANOS && offset > 0 {
            let cut: i64 = other.secs + 1 - offset;
            let rest: u32 = other.nanos - LEAP_NANOS;
            self.secs > cut || (self.secs == cut && self.nanos > rest)
        } else {
            let cut: i64 = other.secs - offset;
            self.secs > cut || (self.secs == cut && self.nanos > other.nanos)
        }
    }

    /// Midnight of the day of `self`.
    pub fn start_of_day(&self) -> (midnight: Timestamp)
        ensures
            midnight.secs() == day_start(self.secs()),
            midnight.nanos() == 0,
    {
        proof {
            use_type_invariant(self);
        }
        let shifted: i64 = self.secs + 1_036_800_000_000;
        let within: i64 = shifted % DAY_SECONDS;
        assert(self.secs as int - within as int == day_start(self.secs as int)) by {
            lemma_day_start_shift(self.secs as int);
        }
        let midnight: i64 = self.secs - within;
        Timestamp { secs: midnight, nanos: 0 }
    }
}

proof fn lemma_day_start_shift(secs: int)
    ensures
        secs - (secs + 1_036_800_000_000) % 86_400 == day_start(secs),
{
    assert(1_036_800_000_000int == 12_000_000 * 86_400);
    assert((secs + 12_000_000 * 86_400) % 86_400 == secs % 86_400) by (nonlinear_arith);
    assert(secs == (secs / 86_400) * 86_400 + secs % 86_400) by (nonlinear_arith);
}

/// A failure of the RFC 3339 reader.
#[verifier::external_type_specification]
#[verifier::external_body]
pub struct ExParseError(chrono::ParseError);

/// The instant that `chrono::DateTime::parse_from_rfc3339` reads from `text`,
/// as seconds and nanoseconds in UTC; `None` where it fails.
pub uninterp spec fn rfc3339_instant(text: Seq<char>) -> Option<(i64, u32)>;

/// Calls `chrono::DateTime::parse_from_rfc3339` and takes the instant apart
/// with `timestamp` and `timestamp_subsec_nanos`. The grammar is not spelled
/// out here: the outcome is trusted to depend on `text` alone.
#[verifier::external_body]
fn read_rfc3339(text: &str) -> (read: Result<(i64, u32), chrono::ParseError>)
    ensures
        match read {
            Ok(parts) => rfc3339_instant(text@) == Some(parts),
            Err(_) => rfc3339_instant(text@) is None,
        },
{
    match chrono::DateTime::parse_from_rfc3339(text) {
        Ok(instant) => Ok((instant.timestamp(), instant.timestamp_subsec_nanos())),
        Err(failure) => Err(failure),
    }
}

/// The instant that the parts read from a text make, if there are any and
/// they are in range.
pub open spec fn instant_of(parts: Option<(i64, u32)>) -> Option<(int, int)> {
    match parts {
        Some((secs, nanos)) => if in_range(secs as int, nanos as int) {
            Some((secs as int, nanos as int))
        } else {
            None
        },
        None => None,
    }
}

/// The parts of an instant, if there is one.
pub open spec fn parts_of(instant: Option<Timestamp>) -> Option<(int, int)> {
    match instant {
        Some(t) => Some((t.secs(), t.nanos())),
        None => None,
    }
}

/// Reads an RFC 3339 date and time, such as `2024-03-01T12:30:00+01:00`.
pub fn parse_timestamp(text: &str) -> (instant: Option<Timestamp>)
    ensures
        parts_of(instant) == instant_of(rfc3339_instant(text@)),
{
    match read_rfc3339(text) {
        Ok((secs, nanos)) => Timestamp::from_parts(secs, nanos),
        Err(_) => None,
    }
}

} // verus!
