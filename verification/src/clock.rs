//! The wall clock, read for default seeds.

use vstd::prelude::*;

verus! {

/// The system clock's time, carried through opaquely.
#[verifier::external_type_specification]
#[verifier::external_body]
pub struct ExSystemTime(std::time::SystemTime);

/// Calls `std::time::SystemTime::now`: the current time of the system
/// clock. It depends on the clock, so nothing is claimed of it.
#[verifier::external_body]
fn system_now() -> std::time::SystemTime {
    std::time::SystemTime::now()
}

/// The error of a time that lies before the time it is measured from,
/// carried through opaquely.
#[verifier::external_type_specification]
#[verifier::external_body]
pub struct ExSystemTimeError(std::time::SystemTimeError);

/// Calls `SystemTime::duration_since` with the Unix epoch: the time since
/// the epoch, or an error when `t` lies before it. Which comes back
/// depends on the clock, so nothing is claimed of it.
#[verifier::external_body]
fn since_epoch(t: std::time::SystemTime) -> Result<std::time::Duration, std::time::SystemTimeError> {
    t.duration_since(std::time::UNIX_EPOCH)
}

/// Calls `SystemTimeError::duration`: how far before the epoch the time
/// lies. Nothing is claimed of it.
#[verifier::external_body]
fn before_epoch(e: &std::time::SystemTimeError) -> std::time::Duration {
    e.duration()
}

/// Calls `Duration::as_secs`: the whole seconds of the span. Nothing is
/// claimed of it.
#[verifier::external_body]
fn whole_seconds(d: &std::time::Duration) -> u64 {
    d.as_secs()
}

/// Calls `Duration::subsec_nanos`: the nanoseconds past the whole
/// seconds, below one billion as its documentation says.
#[verifier::external_body]
fn nanoseconds(d: &std::time::Duration) -> (n: u32)
    ensures
        n < 1_000_000_000,
{
    d.subsec_nanos()
}

/// The clock reading of a time: `Ok` with the whole seconds and
/// nanoseconds since the Unix epoch, or `Err` with those before it.
fn epoch_offset(t: std::time::SystemTime) -> Result<(u64, u32), (u64, u32)> {
    match since_epoch(t) {
        Ok(d) => Ok((whole_seconds(&d), nanoseconds(&d))),
        Err(e) => {
            let d = before_epoch(&e);
            Err((whole_seconds(&d), nanoseconds(&d)))
        },
    }
}

/// The Unix timestamp of a clock reading, in whole seconds rounded down,
/// as a `u64` the way a cast from `i64` gives it: a time `s` seconds and
/// `n` nanoseconds before the epoch is the timestamp `-s`, or `-(s + 1)`
/// when `n` is not zero, wrapped around modulo 2^64.
pub open spec fn timestamp_u64(reading: Result<(u64, u32), (u64, u32)>) -> int {
    match reading {
        Ok((s, _)) => s as int,
        Err((s, n)) => {
            let back = s + if n > 0 { 1int } else { 0int };
            (0x1_0000_0000_0000_0000 - back) % 0x1_0000_0000_0000_0000
        },
    }
}

/// The Unix timestamp of a clock reading, as `timestamp_u64` says.
pub fn timestamp_of(reading: Result<(u64, u32), (u64, u32)>) -> (t: u64)
    ensures
        t == timestamp_u64(reading),
{
    match reading {
        Ok((s, _)) => s,
        Err((s, n)) => {
            if n > 0 {
                if s == u64::MAX {
                    0
                } else {
                    u64::MAX - s
                }
            } else if s == 0 {
                0
            } else {
                u64::MAX - (s - 1)
            }
        },
    }
}

/// The current Unix timestamp, as `timestamp_of` gives it for the system
/// clock's reading.
pub fn now_timestamp() -> u64 {
    timestamp_of(epoch_offset(system_now()))
}

} // verus!
