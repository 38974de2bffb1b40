//! Normal form of a `Duration` and its conversions from and to the
//! duration of the standard library.

use super::duration::Duration;
use crate::std_time::{
    duration_as_secs, duration_new, duration_subsec_nanos, std_duration_secs,
    std_duration_subsec_nanos,
};
use vstd::prelude::*;

verus! {

pub const NANOS_PER_SECOND: i32 = 1_000_000_000;

pub const NANOS_MAX: i32 = 999_999_999;

/// The span of time in nanoseconds that seconds and nanoseconds stand for
/// together.
pub open spec fn total_nanos(seconds: i64, nanos: i32) -> int {
    seconds * 1_000_000_000 + nanos
}

/// The largest span of time that a normal pair of seconds and nanoseconds
/// can stand for, in nanoseconds.
pub open spec fn max_total_nanos() -> int {
    i64::MAX * 1_000_000_000 + 999_999_999
}

/// The smallest span of time that a normal pair of seconds and nanoseconds
/// can stand for, in nanoseconds.
pub open spec fn min_total_nanos() -> int {
    i64::MIN * 1_000_000_000 - 999_999_999
}

/// Brings the nanoseconds below one second in size: whole seconds move over
/// to `seconds`. Where `seconds` cannot take them, `None`.
pub fn carry_seconds(seconds: i64, nanos: i32) -> (r: Option<(i64, i32)>)
    ensures
        match r {
            Some((s, n)) => total_nanos(s, n) == total_nanos(seconds, nanos) && -1_000_000_000
                < n < 1_000_000_000 && (nanos >= 0 ==> n >= 0) && (nanos <= 0 ==> n <= 0),
            None => (nanos > 0 && total_nanos(seconds, nanos) > max_total_nanos()) || (nanos < 0
                && total_nanos(seconds, nanos) < min_total_nanos()),
        },
{
    if nanos <= -NANOS_PER_SECOND || nanos >= NANOS_PER_SECOND {
        let whole = (nanos / NANOS_PER_SECOND) as i64;
        let part = nanos % NANOS_PER_SECOND;
        match seconds.checked_add(whole) {
            Some(seconds) => Some((seconds, part)),
            None => None,
        }
    } else {
        Some((seconds, nanos))
    }
}

impl Duration {
    /// The span of time in nanoseconds.
    pub open spec fn total(self) -> int {
        total_nanos(self.seconds, self.nanos)
    }

    /// Whether the nanoseconds are less than a second in size and of the
    /// sign of the seconds.
    pub open spec fn is_normal(self) -> bool {
        &&& -1_000_000_000 < self.nanos < 1_000_000_000
        &&& self.seconds < 0 ==> self.nanos <= 0
        &&& self.seconds > 0 ==> self.nanos >= 0
    }

    /// Brings the duration into its normal form: the same span of time, with
    /// nanoseconds of less than a second and of the sign of the seconds. A
    /// span beyond what the normal form can hold becomes the largest or the
    /// smallest one it can hold.
    pub fn normalize(&mut self)
        ensures
            final(self).is_normal(),
            min_total_nanos() <= old(self).total() <= max_total_nanos() ==> final(self).total()
                == old(self).total(),
            old(self).total() > max_total_nanos() ==> final(self).seconds == i64::MAX
                && final(self).nanos == 999_999_999,
            old(self).total() < min_total_nanos() ==> final(self).seconds == i64::MIN
                && final(self).nanos == -999_999_999,
    {
        // Make sure nanos is in the range.
        match carry_seconds(self.seconds, self.nanos) {
            Some((seconds, nanos)) => {
                self.seconds = seconds;
                self.nanos = nanos;
            },
            None => {
                if self.nanos < 0 {
                    // Negative overflow! Set to the least normal value.
                    self.seconds = i64::MIN;
                    self.nanos = -NANOS_MAX;
                } else {
                    // Positive overflow! Set to the greatest normal value.
                    self.seconds = i64::MAX;
                    self.nanos = NANOS_MAX;
                }
            },
        }
        // nanos should have the same sign as seconds.
        if self.seconds < 0 && self.nanos > 0 {
            self.seconds = self.seconds + 1;
            self.nanos = self.nanos - NANOS_PER_SECOND;
        } else if self.seconds > 0 && self.nanos < 0 {
            self.seconds = self.seconds - 1;
            self.nanos = self.nanos + NANOS_PER_SECOND;
        }
    }

    /// The duration of the standard library as a `Duration`, in normal form;
    /// refused where its seconds do not fit.
    pub fn try_from(duration: core::time::Duration) -> (r: Result<
        Duration,
        OutOfRangeDurationError,
    >)
        ensures
            match r {
                Ok(d) => d.seconds == std_duration_secs(duration) && d.nanos
                    == std_duration_subsec_nanos(duration),
                Err(_) => std_duration_secs(duration) > i64::MAX,
            },
    {
        let secs = duration_as_secs(&duration);
        if secs > i64::MAX as u64 {
            return Err(OutOfRangeDurationError);
        }
        let nanos = duration_subsec_nanos(&duration) as i32;
        let mut duration = Duration { seconds: secs as i64, nanos };
        duration.normalize();
        Ok(duration)
    }

    /// The duration as one of the standard library, which holds no negative
    /// span: a negative duration, be it by a fraction of a second, is
    /// refused, and the error carries its size.
    pub fn to_std(self) -> (r: Result<core::time::Duration, NegativeDurationError>)
        ensures
            match r {
                Ok(d) => std_duration_secs(d) * 1_000_000_000 + std_duration_subsec_nanos(d)
                    == self.normal().total() && self.normal().total() >= 0,
                Err(e) => std_duration_secs(e.0) * 1_000_000_000 + std_duration_subsec_nanos(e.0)
                    == -self.normal().total() && self.normal().total() < 0,
            },
    {
        let mut duration = self;
        duration.normalize();
        proof {
            lemma_normal_form_is_unique(duration, self.normal());
        }
        if duration.seconds >= 0 && duration.nanos >= 0 {
            Ok(duration_new(duration.seconds as u64, duration.nanos as u32))
        } else {
            let secs: u64 = if duration.seconds == i64::MIN {
                0x8000_0000_0000_0000
            } else {
                (-duration.seconds) as u64
            };
            Err(NegativeDurationError(duration_new(secs, (-duration.nanos) as u32)))
        }
    }

    /// The normal form of the duration.
    pub open spec fn normal(self) -> Duration {
        if self.total() > max_total_nanos() {
            Duration { seconds: i64::MAX, nanos: 999_999_999 }
        } else if self.total() < min_total_nanos() {
            Duration { seconds: i64::MIN, nanos: (-999_999_999) as i32 }
        } else {
            let seconds = if self.total() >= 0 {
                self.total() / 1_000_000_000
            } else {
                -((-self.total()) / 1_000_000_000)
            };
            Duration {
                seconds: seconds as i64,
                nanos: (self.total() - seconds * 1_000_000_000) as i32,
            }
        }
    }
}

/// Two normal durations of the same span are the same.
pub proof fn lemma_normal_form_is_unique(a: Duration, b: Duration)
    requires
        a.is_normal(),
        b.is_normal(),
        a.total() == b.total(),
    ensures
        a == b,
{
}

/// The normal form is normal and keeps the span that fits.
pub proof fn lemma_normal_form(d: Duration)
    ensures
        d.normal().is_normal(),
        min_total_nanos() <= d.total() <= max_total_nanos() ==> d.normal().total() == d.total(),
{
}

/// Why a `Duration` is no duration of the standard library: it is negative.
/// The duration inside is its size.
#[derive(Debug)]
pub struct NegativeDurationError(pub core::time::Duration);

/// Why a duration of the standard library is no `Duration`: it is longer
/// than a `Duration` can say.
#[derive(Debug)]
pub struct OutOfRangeDurationError;

} // verus!
