//! Reading the wall clock.
//!
//! The value a reading returns depends on the time at which it is taken,
//! so no number is promised. What is stated is where a reading comes from:
//! [`is_ms_reading`] and [`is_ns_reading`] hold of exactly the values that
//! the clock's calls can give, and the functions that use a reading say
//! that the value they used is one of those.

use std::time::{Duration, SystemTime, SystemTimeError};
use vstd::prelude::*;

verus! {

#[verifier::external_type_specification]
#[verifier::external_body]
pub struct ExSystemTime(SystemTime);

#[verifier::external_type_specification]
#[verifier::external_body]
pub struct ExSystemTimeError(SystemTimeError);

/// `SystemTime::now`: the current wall-clock time. Nothing is promised of
/// the value.
#[verifier::external_body]
fn system_now() -> SystemTime {
    SystemTime::now()
}

/// `SystemTime::duration_since(UNIX_EPOCH)`: the time elapsed since the
/// UNIX epoch, or an error when the clock reads earlier than the epoch.
/// Nothing is promised of which of the two comes back.
#[verifier::external_body]
fn since_unix_epoch(t: &SystemTime) -> Result<Duration, SystemTimeError> {
    t.duration_since(std::time::UNIX_EPOCH)
}

/// `Duration::as_millis`: the whole milliseconds of a duration. Durations
/// are opaque here, so nothing is promised of the number.
#[verifier::external_body]
fn duration_millis(d: &Duration) -> u128 {
    d.as_millis()
}

/// `Duration::as_nanos`: the whole nanoseconds of a duration. Nothing is
/// promised of the number.
#[verifier::external_body]
fn duration_nanos(d: &Duration) -> u128 {
    d.as_nanos()
}

/// `m` is a value that reading the millisecond clock can give: the whole
/// milliseconds, truncated to 64 bits, of the time elapsed since the UNIX
/// epoch at a time that `SystemTime::now` returned; or zero where that time
/// lies before the epoch.
pub closed spec fn is_ms_reading(m: u64) -> bool {
    exists|t: SystemTime|
        #![trigger call_ensures(system_now, (), t)]
        call_ensures(system_now, (), t) && ((exists|d: Duration, ms: u128|
            #![trigger call_ensures(duration_millis, (&d,), ms)]
            call_ensures(since_unix_epoch, (&t,), Ok::<Duration, SystemTimeError>(d))
                && call_ensures(duration_millis, (&d,), ms) && m == ms as u64) || (exists|
            e: SystemTimeError,
        |
            #![trigger call_ensures(since_unix_epoch, (&t,), Err::<Duration, SystemTimeError>(e))]
            call_ensures(since_unix_epoch, (&t,), Err::<Duration, SystemTimeError>(e)) && m == 0))
}

/// `n` is a value that reading the nanosecond clock can give: the whole
/// nanoseconds, truncated to 64 bits, of the time elapsed since the UNIX
/// epoch at a time that `SystemTime::now` returned; or zero where that time
/// lies before the epoch.
pub closed spec fn is_ns_reading(n: u64) -> bool {
    exists|t: SystemTime|
        #![trigger call_ensures(system_now, (), t)]
        call_ensures(system_now, (), t) && ((exists|d: Duration, ns: u128|
            #![trigger call_ensures(duration_nanos, (&d,), ns)]
            call_ensures(since_unix_epoch, (&t,), Ok::<Duration, SystemTimeError>(d))
                && call_ensures(duration_nanos, (&d,), ns) && n == ns as u64) || (exists|
            e: SystemTimeError,
        |
            #![trigger call_ensures(since_unix_epoch, (&t,), Err::<Duration, SystemTimeError>(e))]
            call_ensures(since_unix_epoch, (&t,), Err::<Duration, SystemTimeError>(e)) && n == 0))
}

/// Milliseconds since the UNIX epoch, truncated to 64 bits; zero when the
/// clock reads earlier than the epoch.
pub fn unix_time_ms() -> (r: u64)
    ensures
        is_ms_reading(r),
{
    let now_fn = system_now;
    let now = now_fn();
    let since_fn = since_unix_epoch;
    let since = since_fn(&now);
    assert(call_ensures(system_now, (), now));
    match since {
        Ok(d) => {
            let millis_fn = duration_millis;
            let ms = millis_fn(&d);
            assert(call_ensures(since_unix_epoch, (&now,), Ok::<Duration, SystemTimeError>(d)));
            assert(call_ensures(duration_millis, (&d,), ms));
            ms as u64
        },
        Err(e) => {
            assert(call_ensures(since_unix_epoch, (&now,), Err::<Duration, SystemTimeError>(e)));
            0
        },
    }
}

/// Nanoseconds since the UNIX epoch, truncated to 64 bits; zero when the
/// clock reads earlier than the epoch.
pub fn unix_time_nanos() -> (r: u64)
    ensures
        is_ns_reading(r),
{
    let now_fn = system_now;
    let now = now_fn();
    let since_fn = since_unix_epoch;
    let since = since_fn(&now);
    assert(call_ensures(system_now, (), now));
    match since {
        Ok(d) => {
            let nanos_fn = duration_nanos;
            let ns = nanos_fn(&d);
            assert(call_ensures(since_unix_epoch, (&now,), Ok::<Duration, SystemTimeError>(d)));
            assert(call_ensures(duration_nanos, (&d,), ns));
            ns as u64
        },
        Err(e) => {
            assert(call_ensures(since_unix_epoch, (&now,), Err::<Duration, SystemTimeError>(e)));
            0
        },
    }
}

} // verus!
