//! `core::time::Duration` as the library sees it: whole seconds and the
//! nanoseconds of the second that has begun. Nothing in this file is proved.

use vstd::prelude::*;

verus! {

/// The whole seconds of a `core::time::Duration`.
pub uninterp spec fn std_duration_secs(d: core::time::Duration) -> u64;

/// The nanoseconds of a `core::time::Duration` beyond its whole seconds.
pub uninterp spec fn std_duration_subsec_nanos(d: core::time::Duration) -> u32;

/// `Duration::as_secs`: the whole seconds.
#[verifier::external_body]
pub(crate) fn duration_as_secs(d: &core::time::Duration) -> (s: u64)
    ensures
        s == std_duration_secs(*d),
{
    d.as_secs()
}

/// `Duration::subsec_nanos`: the fractional part in nanoseconds, always
/// less than one second.
#[verifier::external_body]
pub(crate) fn duration_subsec_nanos(d: &core::time::Duration) -> (n: u32)
    ensures
        n == std_duration_subsec_nanos(*d),
        n < 1_000_000_000,
{
    d.subsec_nanos()
}

/// `Duration::new`: the duration of `secs` seconds and `nanos` nanoseconds.
/// With less than a second of nanoseconds nothing carries over, and the call
/// cannot overflow.
#[verifier::external_body]
pub(crate) fn duration_new(secs: u64, nanos: u32) -> (d: core::time::Duration)
    requires
        nanos < 1_000_000_000,
    ensures
        std_duration_secs(d) == secs,
        std_duration_subsec_nanos(d) == nanos,
{
    core::time::Duration::new(secs, nanos)
}

} // verus!
