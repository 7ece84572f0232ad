//! Wall-clock access for record timestamps.
use vstd::prelude::*;

verus! {

#[verifier::external_type_specification]
#[verifier::external_body]
pub struct ExSystemTime(std::time::SystemTime);

#[verifier::external_type_specification]
#[verifier::external_body]
pub struct ExSystemTimeError(std::time::SystemTimeError);

/// Calls `std::time::SystemTime::now`.  Nothing is claimed of the result: it
/// depends on the machine's clock.
#[verifier::external_body]
fn system_now() -> std::time::SystemTime {
    std::time::SystemTime::now()
}

/// Calls `SystemTime::duration_since` with `UNIX_EPOCH`.  Whether it succeeds
/// depends on the clock reading, so nothing is claimed of the result.
#[verifier::external_body]
fn since_unix_epoch(t: std::time::SystemTime) -> std::result::Result<std::time::Duration, std::time::SystemTimeError> {
    t.duration_since(std::time::UNIX_EPOCH)
}

/// Calls `Duration::as_micros`.  The duration is opaque here, so nothing is
/// claimed of the result.
#[verifier::external_body]
fn duration_micros(d: std::time::Duration) -> u128 {
    d.as_micros()
}

/// The timestamp stored for a clock reading: the microseconds since the Unix
/// epoch, truncated to 64 bits, or 0 for a reading before the epoch (`None`).
pub open spec fn timestamp_of(reading: Option<u128>) -> u64 {
    match reading {
        Some(us) => us as u64,
        None => 0,
    }
}

/// The timestamp stored for a clock reading; see `timestamp_of`.
pub fn timestamp_from(reading: Option<u128>) -> (t: u64)
    ensures
        t == timestamp_of(reading),
{
    match reading {
        Some(us) => {
            #[verifier::truncate]
            (us as u64)
        },
        None => 0,
    }
}

/// Microseconds since the Unix epoch, truncated to 64 bits; 0 when the clock
/// reads a time before the epoch.
pub(crate) fn now_micros() -> u64 {
    let reading = match since_unix_epoch(system_now()) {
        Ok(d) => Some(duration_micros(d)),
        Err(_) => None,
    };
    timestamp_from(reading)
}

} // verus!
