//! Normal form of a `Timestamp`.

use super::duration_impl::{
    carry_seconds, max_total_nanos, total_nanos, NANOS_MAX, NANOS_PER_SECOND,
};
use super::timestamp::Timestamp;
use vstd::prelude::*;

verus! {

impl Timestamp {
    /// The point in time in nanoseconds from the epoch.
    pub open spec fn total(self) -> int {
        total_nanos(self.seconds, self.nanos)
    }

    /// Whether the nanoseconds count forward within the second.
    pub open spec fn is_normal(self) -> bool {
        0 <= self.nanos < 1_000_000_000
    }

    /// The earliest point in time that a normal timestamp can stand for, in
    /// nanoseconds from the epoch.
    pub open spec fn min_total() -> int {
        i64::MIN * 1_000_000_000
    }

    /// The timestamp for a point in time that lies `secs` seconds and
    /// `nanos` nanoseconds after the epoch, as a clock reports it.
    pub fn from_unix(secs: u64, nanos: u32) -> (t: Timestamp)
        ensures
            t.seconds == secs as i64,
            t.nanos == nanos as i32,
    {
        Timestamp {
            seconds: #[verifier::truncate]
            (secs as i64),
            nanos: #[verifier::truncate]
            (nanos as i32),
        }
    }

    /// Brings the timestamp into its normal form: the same point in time,
    /// with nanoseconds from 0 to 999,999,999. A point beyond what the
    /// normal form can hold becomes the latest or the earliest it can hold.
    pub fn normalize(&mut self)
        ensures
            final(self).is_normal(),
            Self::min_total() <= old(self).total() <= max_total_nanos() ==> final(self).total()
                == old(self).total(),
            old(self).total() > max_total_nanos() ==> final(self).seconds == i64::MAX
                && final(self).nanos == 999_999_999,
            old(self).total() < Self::min_total() ==> final(self).seconds == i64::MIN
                && final(self).nanos == 0,
    {
        // Make sure nanos is in the range.
        match carry_seconds(self.seconds, self.nanos) {
            Some((seconds, nanos)) => {
                self.seconds = seconds;
                self.nanos = nanos;
            },
            None => {
                if self.nanos < 0 {
                    // Negative overflow! Set to the earliest normal value.
                    self.seconds = i64::MIN;
                    self.nanos = 0;
                } else {
                    // Positive overflow! Set to the latest normal value.
                    self.seconds = i64::MAX;
                    self.nanos = NANOS_MAX;
                }
            },
        }
        // For Timestamp nanos should be in the range [0, 999999999].
        if self.nanos < 0 {
            match self.seconds.checked_sub(1) {
                Some(seconds) => {
                    self.seconds = seconds;
                    self.nanos = self.nanos + NANOS_PER_SECOND;
                },
                None => {
                    // Negative overflow! Set to the earliest normal value.
                    self.nanos = 0;
                },
            }
        }
    }
}

} // verus!
