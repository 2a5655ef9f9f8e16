//! Moments and spans of time.
use vstd::prelude::*;

use crate::foreign::{clock_text, format_moment, moment_of, parse_rfc3339, rfc3339, rfc3339_text};
use crate::foreign::{fine_time_of_day, time_of_day, utc_clock, MAX_SECOND, MIN_SECOND};

verus! {

pub const NANOS_PER_SECOND: i128 = 1_000_000_000;

pub const NANOS_PER_MILLI: i128 = 1_000_000;

/// A moment in UTC: nanoseconds since the Unix epoch.
#[derive(Clone, Copy, Debug, PartialEq, Eq, Structural)]
pub struct Timestamp {
    nanos: i128,
}

impl View for Timestamp {
    type V = int;

    closed spec fn view(&self) -> int {
        self.nanos as int
    }
}

/// Whether a count of nanoseconds since the Unix epoch is a moment.
pub open spec fn is_moment(nanos: int) -> bool {
    MIN_SECOND * 1_000_000_000 <= nanos < (MAX_SECOND + 1) * 1_000_000_000
}

/// Moments are equal if their counts are.
pub proof fn lemma_timestamp_injective(a: Timestamp, b: Timestamp)
    requires
        a@ == b@,
    ensures
        a == b,
{
}

/// The moment `nanos` nanoseconds after the Unix epoch.
pub open spec fn moment(nanos: int) -> Timestamp {
    choose|t: Timestamp| t@ == nanos
}

impl Timestamp {
    #[verifier::type_invariant]
    spec fn inv(self) -> bool {
        is_moment(self.nanos as int)
    }

    /// The Unix epoch.
    pub fn epoch() -> (r: Timestamp)
        ensures
            r@ == 0,
    {
        Timestamp { nanos: 0 }
    }

    /// The moment `nanos` nanoseconds after the Unix epoch, if there is one.
    pub fn from_nanos(nanos: i128) -> (r: Option<Timestamp>)
        ensures
            r is Some <==> is_moment(nanos as int),
            r matches Some(t) ==> t@ == nanos,
    {
        if nanos >= MIN_SECOND as i128 * 1_000_000_000 && nanos < (MAX_SECOND as i128 + 1)
            * 1_000_000_000 {
            Some(Timestamp { nanos })
        } else {
            None
        }
    }

    /// The moment `millis` milliseconds after the Unix epoch, if there is one.
    pub fn from_millis(millis: i64) -> (r: Option<Timestamp>)
        ensures
            r is Some <==> is_moment(millis * 1_000_000),
            r matches Some(t) ==> t@ == millis * 1_000_000,
    {
        Timestamp::from_nanos(millis as i128 * 1_000_000)
    }

    /// Nanoseconds since the Unix epoch.
    pub fn nanos(&self) -> (r: i128)
        ensures
            r == self@,
            is_moment(r as int),
    {
        proof {
            use_type_invariant(self);
        }
        self.nanos
    }

    /// Whole milliseconds since the Unix epoch, 0 before it.
    pub fn millis(&self) -> (r: u64)
        ensures
            r == millis_of(*self),
            self@ < 0 ==> r == 0,
            self@ >= 0 ==> r * 1_000_000 <= self@ < (r + 1) * 1_000_000,
    {
        proof {
            use_type_invariant(self);
        }
        if self.nanos < 0 {
            0
        } else {
            (self.nanos / 1_000_000) as u64
        }
    }

    /// The moment `span` nanoseconds later.
    pub fn plus(&self, span: i128) -> (r: Timestamp)
        requires
            is_moment(self@ + span),
        ensures
            r@ == self@ + span,
    {
        proof {
            use_type_invariant(self);
        }
        Timestamp { nanos: self.nanos + span }
    }

    /// Whether this moment is after `other`.
    pub fn after(&self, other: &Timestamp) -> (r: bool)
        ensures
            r == (self@ > other@),
    {
        self.nanos > other.nanos
    }

    /// The second and the nanoseconds within it.
    pub open spec fn parts(self) -> (i64, u32) {
        ((self@ / 1_000_000_000) as i64, (self@ % 1_000_000_000) as u32)
    }

    /// The RFC 3339 text of the moment.
    pub open spec fn text(self) -> Seq<char> {
        rfc3339(self.parts().0, self.parts().1)->0
    }

    /// The second and the nanoseconds within it.
    fn split(&self) -> (r: (i64, u32))
        ensures
            r == self.parts(),
            r.0 * 1_000_000_000 + r.1 == self@,
            MIN_SECOND <= r.0 <= MAX_SECOND,
            r.1 < 1_000_000_000,
    {
        proof {
            use_type_invariant(self);
        }
        let shift: i128 = -(MIN_SECOND as i128);
        let positive: i128 = self.nanos + shift * 1_000_000_000;
        let second: i64 = (positive / 1_000_000_000 - shift) as i64;
        let nanos: u32 = (positive % 1_000_000_000) as u32;
        proof {
            assert(positive as int / 1_000_000_000 - shift == self@ / 1_000_000_000);
            assert(positive as int % 1_000_000_000 == self@ % 1_000_000_000);
        }
        (second, nanos)
    }

    /// The RFC 3339 text of the moment.
    pub fn to_rfc3339(&self) -> (r: String)
        ensures
            r@ == self.text(),
    {
        let (second, nanos) = self.split();
        match rfc3339_text(second, nanos) {
            Some(s) => s,
            None => String::new(),
        }
    }

    /// The time of day, to the second.
    pub open spec fn clock(self) -> Seq<char> {
        time_of_day(self.parts().0 as int)
    }

    /// The time of day, to the second.
    pub fn clock_text(&self) -> (r: String)
        ensures
            r@ == self.clock(),
    {
        let (second, nanos) = self.split();
        format_moment(second, nanos, "%H:%M:%S")
    }

    /// The time of day, to the millisecond.
    pub open spec fn fine_clock(self) -> Seq<char> {
        fine_time_of_day(self.parts().0 as int, self.parts().1 as int)
    }

    /// The time of day, to the millisecond.
    pub fn fine_clock_text(&self) -> (r: String)
        ensures
            r@ == self.fine_clock(),
    {
        let (second, nanos) = self.split();
        format_moment(second, nanos, "%H:%M:%S%.3f")
    }

    /// The date and the time of day, to the second.
    pub open spec fn calendar(self) -> Seq<char> {
        clock_text(self.parts().0, self.parts().1, "%Y-%m-%d %H:%M:%S"@)
    }

    /// The date and the time of day, to the second.
    pub fn calendar_text(&self) -> (r: String)
        ensures
            r@ == self.calendar(),
    {
        let (second, nanos) = self.split();
        format_moment(second, nanos, "%Y-%m-%d %H:%M:%S")
    }

    /// The date and the time of day as one word.
    pub open spec fn stamp(self) -> Seq<char> {
        clock_text(self.parts().0, self.parts().1, "%Y%m%dT%H%M%S"@)
    }

    /// The date and the time of day as one word.
    pub fn stamp_text(&self) -> (r: String)
        ensures
            r@ == self.stamp(),
    {
        let (second, nanos) = self.split();
        format_moment(second, nanos, "%Y%m%dT%H%M%S")
    }

    /// The moment that an RFC 3339 text denotes.
    pub fn parse_rfc3339(text: &str) -> (r: Option<Timestamp>)
        ensures
            match moment_of(text@) {
                Some((second, nanos)) => {
                    let n = second * 1_000_000_000 + nanos;
                    if is_moment(n) {
                        r matches Some(t) && t@ == n
                    } else {
                        r is None
                    }
                },
                None => r is None,
            },
    {
        match parse_rfc3339(text) {
            None => None,
            Some(m) => Timestamp::from_nanos(m.0 as i128 * 1_000_000_000 + m.1 as i128),
        }
    }

    /// The moment that a clock shows as a second since the Unix epoch and the
    /// nanoseconds within it. A leap second runs on into the next second, but
    /// never past the last moment there is.
    pub fn from_clock(second: i64, nanos: u32) -> (r: Timestamp)
        requires
            is_reading(second, nanos),
        ensures
            r@ == shown_moment(second, nanos),
    {
        let n: i128 = second as i128 * 1_000_000_000 + nanos as i128;
        let max: i128 = (MAX_SECOND as i128 + 1) * 1_000_000_000 - 1;
        Timestamp { nanos: if n > max { max } else { n } }
    }

    /// What the clock of this machine shows: the moment of some second and
    /// some nanoseconds that a clock can show. Nothing else is known of it.
    pub fn now() -> (r: Timestamp)
        ensures
            may_be_shown(r),
            is_moment(r@),
    {
        let (second, nanos) = utc_clock();
        let t: Timestamp = Timestamp::from_clock(second, nanos);
        assert(is_reading(second, nanos));
        t
    }
}

/// What a clock can show: a second in range, and less than two seconds of
/// nanoseconds within it.
pub open spec fn is_reading(second: i64, nanos: u32) -> bool {
    MIN_SECOND <= second <= MAX_SECOND && nanos < 2_000_000_000
}

/// The moment of a second since the Unix epoch and the nanoseconds within it,
/// or the last moment, if that comes first.
pub open spec fn shown_moment(second: i64, nanos: u32) -> int {
    let n = second * 1_000_000_000 + nanos;
    let last = (MAX_SECOND + 1) * 1_000_000_000 - 1;
    if n > last {
        last
    } else {
        n
    }
}

/// Whether a clock can show the moment.
pub open spec fn may_be_shown(t: Timestamp) -> bool {
    exists|second: i64, nanos: u32| #[trigger]
        is_reading(second, nanos) && t@ == shown_moment(second, nanos)
}

/// Whole milliseconds since the Unix epoch, 0 before it.
pub open spec fn millis_of(t: Timestamp) -> u64 {
    if t@ < 0 {
        0
    } else {
        (t@ / 1_000_000) as u64
    }
}

/// The longest span, in nanoseconds: 2^64 seconds less one nanosecond.
pub const MAX_SPAN_NANOS: u128 = 18_446_744_073_709_551_615_999_999_999;

/// A span of time that is not negative.
#[derive(Clone, Copy, Debug, PartialEq, Eq, Structural)]
pub struct Span {
    pub nanos: u128,
}

impl Span {
    pub fn from_secs(secs: u64) -> (r: Span)
        ensures
            r.nanos == secs * 1_000_000_000,
            r.nanos <= MAX_SPAN_NANOS,
    {
        Span { nanos: secs as u128 * 1_000_000_000 }
    }

    pub fn from_millis(millis: u64) -> (r: Span)
        ensures
            r.nanos == millis * 1_000_000,
            r.nanos <= MAX_SPAN_NANOS,
    {
        Span { nanos: millis as u128 * 1_000_000 }
    }

    /// The sum, if it is no more than the longest span.
    pub fn checked_add(&self, other: &Span) -> (r: Option<Span>)
        ensures
            r is Some <==> self.nanos + other.nanos <= MAX_SPAN_NANOS,
            r matches Some(s) ==> s.nanos == self.nanos + other.nanos,
    {
        if self.nanos > MAX_SPAN_NANOS || other.nanos > MAX_SPAN_NANOS - self.nanos {
            None
        } else {
            Some(Span { nanos: self.nanos + other.nanos })
        }
    }

    /// Whole seconds.
    pub fn as_secs(&self) -> (r: u64)
        requires
            self.nanos <= MAX_SPAN_NANOS,
        ensures
            r == self.nanos / 1_000_000_000,
    {
        (self.nanos / 1_000_000_000) as u64
    }
}

} // verus!
