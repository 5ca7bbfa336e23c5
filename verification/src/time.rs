//! Moments in calendar time and on the monotonic clock.
use vstd::prelude::*;

use crate::outside::{
    clock_text, format_clock, is_moment, is_plain_moment, parse_rfc3339, rfc3339_moment,
    rfc3339_text, sorts_after_earlier, to_rfc3339, utc_now,
};

verus! {

/// A moment in UTC: seconds since the Unix epoch and nanoseconds within the second.
#[derive(Debug, Clone, Copy, PartialEq, Eq)]
pub struct Timestamp {
    secs: i64,
    nanos: u32,
}

impl View for Timestamp {
    type V = (i64, u32);

    closed spec fn view(&self) -> (i64, u32) {
        (self.secs, self.nanos)
    }
}

impl Timestamp {
    #[verifier::type_invariant]
    spec fn in_range(self) -> bool {
        is_moment(self.secs as int, self.nanos as int)
    }

    /// The moment so many seconds and nanoseconds after the Unix epoch, if there is such a moment.
    pub fn new(secs: i64, nanos: u32) -> (r: Option<Timestamp>)
        ensures
            r is Some <==> is_moment(secs as int, nanos as int),
            r matches Some(t) ==> t@ == (secs, nanos),
    {
        if secs < -8_334_601_228_800 || secs > 8_210_266_876_799 || nanos >= 2_000_000_000 {
            return None;
        }
        if nanos >= 1_000_000_000 {
            // Counting from the earliest minute keeps the remainder free of a sign.
            let since_start: u64 = (secs + 8_334_601_228_800) as u64;
            assert((secs + 8_334_601_228_800) % 60 == secs as int % 60) by {
                assert(8_334_601_228_800int == 138_910_020_480 * 60);
            }
            if since_start % 60 != 59 {
                return None;
            }
        }
        Some(Timestamp { secs, nanos })
    }

    /// The current moment.
    pub fn now() -> (r: Timestamp)
        ensures
            is_moment(r@.0 as int, r@.1 as int),
    {
        let (secs, nanos) = utc_now();
        Timestamp { secs, nanos }
    }

    /// The whole seconds since the Unix epoch.
    pub fn secs(&self) -> (r: i64)
        ensures
            r == self@.0,
    {
        self.secs
    }

    /// The nanoseconds within the second.
    pub fn nanos(&self) -> (r: u32)
        ensures
            r == self@.1,
    {
        self.nanos
    }

    /// The moment in RFC 3339 notation, which is how moments are stored.
    pub fn to_rfc3339(&self) -> (text: String)
        ensures
            text@ == rfc3339_text(self@.0, self@.1),
            rfc3339_moment(text@) == Some(self@),
            is_plain_moment(self@.0 as int, self@.1 as int) ==> sorts_after_earlier(
                self@.0,
                self@.1,
                text@,
            ),
    {
        proof {
            use_type_invariant(self);
        }
        to_rfc3339(self.secs, self.nanos)
    }

    /// The moment that a stored text stands for.
    pub fn parse(text: &str) -> (r: Option<Timestamp>)
        ensures
            match r {
                Some(t) => rfc3339_moment(text@) == Some(t@),
                None => rfc3339_moment(text@) is None,
            },
    {
        match parse_rfc3339(text) {
            Some((secs, nanos)) => Some(Timestamp { secs, nanos }),
            None => None,
        }
    }

    /// The moment as a date and a time of day, to the second.
    pub fn clock(&self) -> (text: String)
        ensures
            text@ == clock_text(self@.0, self@.1),
    {
        proof {
            use_type_invariant(self);
        }
        format_clock(self.secs, self.nanos)
    }
}

/// A moment on the monotonic clock, in nanoseconds from a fixed starting point.
#[derive(Debug, Clone, Copy, PartialEq, Eq, Structural)]
pub struct Moment {
    pub nanos: u128,
}

} // verus!
