//! Instants in UTC, held as plain integers.

use chrono::{Datelike, Timelike};
use vstd::prelude::*;

verus! {

/// Seconds since the epoch of the earliest instant that can be represented:
/// midnight on 1 January of the year -262143.
pub const MIN_SECS: i64 = -8_334_601_228_800;

/// Seconds since the epoch of the last second that can be represented:
/// 23:59:59 on 31 December of the year 262142.
pub const MAX_SECS: i64 = 8_210_266_876_799;

/// An instant as mathematical values: whole seconds since
/// 1970-01-01T00:00:00Z and nanoseconds since the last whole second.
pub struct Instant {
    pub secs: int,
    pub nanos: int,
}

impl Instant {
    /// Whether the instant can be represented. A nanosecond count of a full
    /// second or more stands for a leap second and may only follow second 59
    /// of a minute.
    pub open spec fn valid(self) -> bool {
        &&& MIN_SECS <= self.secs <= MAX_SECS
        &&& 0 <= self.nanos < 2_000_000_000
        &&& self.nanos >= 1_000_000_000 ==> self.secs % 60 == 59
    }

    /// 1970-01-01T00:00:00Z.
    pub open spec fn epoch() -> Instant {
        Instant { secs: 0, nanos: 0 }
    }

    /// Milliseconds since 1970-01-01T00:00:00.000Z. During a leap second the
    /// millisecond part runs past 999.
    pub open spec fn millis(self) -> int {
        self.secs * 1000 + self.nanos / 1_000_000
    }

    /// The instant `millis` milliseconds after the epoch, if it can be
    /// represented.
    pub open spec fn from_millis(millis: int) -> Option<Instant> {
        if MIN_SECS <= millis / 1000 <= MAX_SECS {
            Some(Instant { secs: millis / 1000, nanos: (millis % 1000) * 1_000_000 })
        } else {
            None
        }
    }

    /// Whether `self` is strictly earlier than `other`.
    pub open spec fn is_before(self, other: Instant) -> bool {
        self.secs < other.secs || (self.secs == other.secs && self.nanos < other.nanos)
    }
}

/// An instant in UTC with nanosecond precision.
///
/// Instants order by their seconds, then by their nanoseconds.
#[derive(Clone, Copy, Debug, PartialEq, Eq, Structural, PartialOrd, Ord, Hash)]
pub struct Timestamp {
    secs: i64,
    nanos: u32,
}

impl View for Timestamp {
    type V = Instant;

    closed spec fn view(&self) -> Instant {
        Instant { secs: self.secs as int, nanos: self.nanos as int }
    }
}

/// The calendar date and wall-clock time of an instant in UTC.
#[derive(Clone, Copy, Debug, PartialEq, Eq, Structural)]
pub struct CivilTime {
    pub year: i32,
    pub month: u32,
    pub day: u32,
    pub hour: u32,
    pub minute: u32,
    pub second: u32,
}

/// The proleptic Gregorian date and time of day, in UTC, of the instant
/// `secs` seconds and `nanos` nanoseconds after the epoch.
pub uninterp spec fn civil_of(secs: int, nanos: int) -> CivilTime;

/// Whether the fields of a calendar reading lie in their ranges. The second
/// never reaches 60: a leap second shows in the nanoseconds of the instant.
pub open spec fn civil_in_range(c: CivilTime) -> bool {
    &&& -262143 <= c.year <= 262142
    &&& 1 <= c.month <= 12
    &&& 1 <= c.day <= 31
    &&& c.hour <= 23
    &&& c.minute <= 59
    &&& c.second <= 59
}

impl Timestamp {
    #[verifier::type_invariant]
    spec fn well_formed(self) -> bool {
        self@.valid()
    }

    /// Two timestamps that stand for the same instant are equal.
    pub proof fn lemma_same_instant(a: Timestamp, b: Timestamp)
        requires
            a@ == b@,
        ensures
            a == b,
    {
    }

    /// The instant `secs` seconds and `nanos` nanoseconds after the epoch, if
    /// it can be represented.
    pub fn new(secs: i64, nanos: u32) -> (out: Option<Timestamp>)
        ensures
            out is Some <==> (Instant { secs: secs as int, nanos: nanos as int }).valid(),
            out matches Some(t) ==> t@ == (Instant { secs: secs as int, nanos: nanos as int }),
    {
        if secs < MIN_SECS || secs > MAX_SECS || nanos >= 2_000_000_000 {
            return None;
        }
        if nanos >= 1_000_000_000 {
            let second_of_minute = secs.checked_rem_euclid(60);
            if second_of_minute != Some(59) {
                return None;
            }
        }
        Some(Timestamp { secs, nanos })
    }

    /// 1970-01-01T00:00:00Z.
    pub fn epoch() -> (out: Timestamp)
        ensures
            out@ == Instant::epoch(),
    {
        Timestamp { secs: 0, nanos: 0 }
    }

    /// Whole seconds since 1970-01-01T00:00:00Z.
    pub fn secs(&self) -> (out: i64)
        ensures
            out == self@.secs,
            self@.valid(),
    {
        proof {
            use_type_invariant(self);
        }
        self.secs
    }

    /// Nanoseconds since the last whole second.
    pub fn subsec_nanos(&self) -> (out: u32)
        ensures
            out == self@.nanos,
            self@.valid(),
    {
        proof {
            use_type_invariant(self);
        }
        self.nanos
    }

    /// Milliseconds since 1970-01-01T00:00:00.000Z.
    pub fn timestamp_millis(&self) -> (out: i64)
        ensures
            out == self@.millis(),
            self@.valid(),
    {
        proof {
            use_type_invariant(self);
        }
        self.secs * 1000 + (self.nanos / 1_000_000) as i64
    }

    /// The instant `millis` milliseconds after the epoch, if it can be
    /// represented.
    pub fn from_timestamp_millis(millis: i64) -> (out: Option<Timestamp>)
        ensures
            out is Some <==> Instant::from_millis(millis as int) is Some,
            out matches Some(t) ==> Some(t@) == Instant::from_millis(millis as int),
    {
        let secs = match millis.checked_div_euclid(1000) {
            Some(q) => q,
            None => { return None; },
        };
        let rem = match millis.checked_rem_euclid(1000) {
            Some(r) => r,
            None => { return None; },
        };
        let nanos: u32 = (rem as u32) * 1_000_000;
        Timestamp::new(secs, nanos)
    }

    /// Whether `self` is strictly earlier than `other`.
    pub fn is_before(&self, other: &Timestamp) -> (out: bool)
        ensures
            out == self@.is_before(other@),
    {
        self.secs < other.secs || (self.secs == other.secs && self.nanos < other.nanos)
    }

    /// The current instant.
    pub fn now() -> (out: Timestamp)
        ensures
            out@.valid(),
    {
        let (secs, nanos) = clock_reading();
        Timestamp { secs, nanos }
    }

    /// The calendar date and time of day of this instant.
    pub fn civil(&self) -> (out: CivilTime)
        ensures
            out == civil_of(self@.secs, self@.nanos),
            civil_in_range(out),
    {
        proof {
            use_type_invariant(self);
        }
        civil_fields(self.secs, self.nanos)
    }
}

/// Trusted: reads the clock with `chrono::Utc::now` and hands back the
/// reading's `timestamp()` and `timestamp_subsec_nanos()`. Every `DateTime`
/// lies in the representable range and keeps the leap-second rule, so the
/// parts are valid whatever the clock says. `Utc::now` panics if the system
/// clock is set before 1970.
#[verifier::external_body]
fn clock_reading() -> (out: (i64, u32))
    ensures
        (Instant { secs: out.0 as int, nanos: out.1 as int }).valid(),
{
    let now = chrono::Utc::now();
    (now.timestamp(), now.timestamp_subsec_nanos())
}

/// Trusted: breaks an instant into calendar fields with chrono's
/// `DateTime::from_timestamp` and the accessors of `Datelike` and `Timelike`.
/// The result is a function of the instant alone and is named by
/// [`civil_of`]; chrono documents the range of each field.
#[verifier::external_body]
fn civil_fields(secs: i64, nanos: u32) -> (out: CivilTime)
    requires
        (Instant { secs: secs as int, nanos: nanos as int }).valid(),
    ensures
        out == civil_of(secs as int, nanos as int),
        civil_in_range(out),
{
    let at = chrono::DateTime::from_timestamp(secs, nanos).unwrap_or_default();
    CivilTime {
        year: at.year(),
        month: at.month(),
        day: at.day(),
        hour: at.hour(),
        minute: at.minute(),
        second: at.second(),
    }
}

} // verus!
