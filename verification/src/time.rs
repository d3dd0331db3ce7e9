//! The poll loop's clock snapshot: the seconds and nanoseconds of the
//! realtime clock, as the caller read them. The one computation that
//! matters to the loop is the delay that aligns the next tick with the
//! start of the next second.

use vstd::prelude::*;

verus! {

/// Nanoseconds in a second, less one: the largest valid nanosecond field.
pub const NSEC_MAX: i64 = 999_999_999;

/// A snapshot of the realtime clock.
pub struct Time {
    sec: i64,
    nsec: i64,
}

impl Time {
    #[verifier::type_invariant]
    spec fn inv(self) -> bool {
        0 <= self.nsec <= NSEC_MAX
    }

    /// The seconds of the snapshot.
    pub closed spec fn sec_val(self) -> int {
        self.sec as int
    }

    /// The nanoseconds of the snapshot.
    pub closed spec fn nsec_val(self) -> int {
        self.nsec as int
    }

    /// A snapshot of the clock readings the caller took. The clock's
    /// nanosecond field is always within one second.
    pub fn new(sec: i64, nsec: i64) -> (r: Time)
        requires
            0 <= nsec <= NSEC_MAX,
        ensures
            r.sec_val() == sec,
            r.nsec_val() == nsec,
    {
        Time { sec, nsec }
    }

    /// Replaces the snapshot with newer clock readings.
    pub fn update(&mut self, sec: i64, nsec: i64)
        requires
            0 <= nsec <= NSEC_MAX,
        ensures
            final(self).sec_val() == sec,
            final(self).nsec_val() == nsec,
    {
        *self = Time { sec, nsec };
    }

    /// The seconds of the snapshot: a plain timestamp.
    pub fn timestamp(&self) -> (r: i64)
        ensures
            r == self.sec_val(),
    {
        self.sec
    }

    /// The sleep, in nanoseconds, that aligns the next tick with the
    /// start of the next second.
    pub fn align_ns(&self) -> (r: i64)
        ensures
            r == NSEC_MAX - self.nsec_val(),
            0 <= r <= NSEC_MAX,
    {
        proof {
            use_type_invariant(&*self);
        }
        NSEC_MAX - self.nsec
    }
}

} // verus!
