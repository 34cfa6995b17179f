//! Wall-clock readings: milliseconds since the Unix epoch, and the
//! `HH:MM:SS` stamp written in front of log lines.

use vstd::prelude::*;
use crate::decimal::{two_digit_chars, two_digits};
use crate::text::string_of;

verus! {

#[verifier::external_type_specification]
#[verifier::external_body]
pub struct ExSystemTime(std::time::SystemTime);

#[verifier::external_type_specification]
#[verifier::external_body]
pub struct ExSystemTimeError(std::time::SystemTimeError);

/// `std::time::SystemTime::now`. The current time: nothing is promised of it.
#[verifier::external_body]
fn system_now() -> std::time::SystemTime {
    std::time::SystemTime::now()
}

/// `SystemTime::duration_since` the Unix epoch; an error when the clock is
/// set before it. Nothing is promised of the duration.
#[verifier::external_body]
fn since_unix_epoch(t: &std::time::SystemTime) -> Result<
    core::time::Duration,
    std::time::SystemTimeError,
> {
    t.duration_since(std::time::UNIX_EPOCH)
}

/// `Duration::as_secs`. The duration is opaque here, so nothing is stated.
#[verifier::external_body]
fn whole_secs(d: &core::time::Duration) -> u64 {
    d.as_secs()
}

/// `Duration::as_millis`. The duration is opaque here, so nothing is stated.
#[verifier::external_body]
fn whole_millis(d: &core::time::Duration) -> u128 {
    d.as_millis()
}

/// `HH:MM:SS` of the time of day, in UTC, `secs` seconds after the epoch.
pub open spec fn clock_text(secs: nat) -> Seq<char> {
    two_digits((secs / 3600) % 24) + seq![':'] + two_digits((secs / 60) % 60) + seq![':']
        + two_digits(secs % 60)
}

/// `HH:MM:SS` of the time of day `secs` seconds after the epoch.
pub fn clock_stamp(secs: u64) -> (res: String)
    ensures
        res@ == clock_text(secs as nat),
{
    let mut v = two_digit_chars((secs / 3600) % 24);
    v.push(':');
    let m = two_digit_chars((secs / 60) % 60);
    let mut k: usize = 0;
    let ghost start = v@;
    while k < m.len()
        invariant
            k <= m@.len(),
            v@ == start + m@.take(k as int),
        decreases m.len() - k,
    {
        v.push(m[k]);
        k = k + 1;
        assert(v@ == start + m@.take(k as int));
    }
    assert(m@.take(m@.len() as int) == m@);
    v.push(':');
    let sec = two_digit_chars(secs % 60);
    let ghost start2 = v@;
    let mut k2: usize = 0;
    while k2 < sec.len()
        invariant
            k2 <= sec@.len(),
            v@ == start2 + sec@.take(k2 as int),
        decreases sec.len() - k2,
    {
        v.push(sec[k2]);
        k2 = k2 + 1;
        assert(v@ == start2 + sec@.take(k2 as int));
    }
    assert(sec@.take(sec@.len() as int) == sec@);
    string_of(v.as_slice())
}

/// Whole seconds of a reading of the clock: 0 for a clock set before the
/// epoch (`None`).
pub open spec fn secs_of_reading(reading: Option<u64>) -> u64 {
    match reading {
        Some(secs) => secs,
        None => 0,
    }
}

/// Milliseconds of a reading of the clock, truncated to 64 bits: 0 for a
/// clock set before the epoch (`None`).
pub open spec fn millis_of_reading(reading: Option<u128>) -> u64 {
    match reading {
        Some(ms) => (ms % 0x1_0000_0000_0000_0000) as u64,
        None => 0,
    }
}

/// Whole seconds of a reading of the clock, 0 before the epoch.
pub fn secs_or_zero(reading: Option<u64>) -> (res: u64)
    ensures
        res == secs_of_reading(reading),
{
    match reading {
        Some(secs) => secs,
        None => 0,
    }
}

/// Milliseconds of a reading of the clock, truncated to 64 bits, 0 before
/// the epoch.
pub fn millis_or_zero(reading: Option<u128>) -> (res: u64)
    ensures
        res == millis_of_reading(reading),
{
    match reading {
        Some(ms) => {
            let low = ms % 0x1_0000_0000_0000_0000u128;
            low as u64
        },
        None => 0,
    }
}

/// Whole seconds since the epoch now; 0 when the clock is before it. The
/// clock can read anything, so nothing is promised of the value.
pub fn unix_secs() -> u64 {
    let now = system_now();
    let reading = match since_unix_epoch(&now) {
        Ok(d) => Some(whole_secs(&d)),
        Err(_) => None,
    };
    secs_or_zero(reading)
}

/// Milliseconds since the epoch now, truncated to 64 bits; 0 when the clock
/// is before the epoch. The clock can read anything, so nothing is promised
/// of the value.
pub fn now_ms() -> u64 {
    let now = system_now();
    let reading = match since_unix_epoch(&now) {
        Ok(d) => Some(whole_millis(&d)),
        Err(_) => None,
    };
    millis_or_zero(reading)
}

/// The `HH:MM:SS` stamp of the current time.
pub fn local_stamp() -> (res: String)
    ensures
        exists|secs: nat| res@ == clock_text(secs),
{
    let secs = unix_secs();
    clock_stamp(secs)
}

} // verus!
