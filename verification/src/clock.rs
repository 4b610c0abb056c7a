//! The time of day.

use vstd::prelude::*;

verus! {

/// Why the clock gives no timestamp.
#[derive(Clone, Copy, Debug, PartialEq, Eq, Structural)]
pub enum ClockError {
    /// The clock stands before the start of 1970.
    BeforeEpoch,
    /// The milliseconds since then do not fit in 64 bits.
    TooLate,
}

/// `std::time::SystemTimeError`, carried and not looked into.
#[verifier::external_type_specification]
#[verifier::external_body]
pub struct ExSystemTimeError(std::time::SystemTimeError);

/// Calls `std::time::SystemTime::elapsed` on the start of 1970, which gives the time since then
/// by the system's clock, or an error if the clock stands before it. The time is given as whole
/// seconds and the nanoseconds left over, of which there are less than a second. Nothing is
/// claimed of what the clock shows.
#[verifier::external_body]
fn since_epoch() -> (r: Result<(u64, u32), std::time::SystemTimeError>)
    ensures
        r matches Ok((_, nanos)) ==> nanos < 1_000_000_000,
{
    match std::time::UNIX_EPOCH.elapsed() {
        Ok(time) => Ok((time.as_secs(), time.subsec_nanos())),
        Err(e) => Err(e),
    }
}

/// The whole milliseconds in a time of `secs` seconds and `nanos` nanoseconds.
pub open spec fn millis(secs: u64, nanos: u32) -> int {
    secs * 1000 + nanos as int / 1_000_000
}

/// The timestamp for a time since the start of 1970, given as whole seconds and the nanoseconds
/// left over, or not given if the clock stands before it.
pub fn timestamp_of(elapsed: Option<(u64, u32)>) -> (r: Result<u64, ClockError>)
    ensures
        r == match elapsed {
            Some((secs, nanos)) => if millis(secs, nanos) <= u64::MAX {
                Ok::<u64, ClockError>(millis(secs, nanos) as u64)
            } else {
                Err::<u64, ClockError>(ClockError::TooLate)
            },
            None => Err::<u64, ClockError>(ClockError::BeforeEpoch),
        },
{
    match elapsed {
        Some((secs, nanos)) => {
            let ms: u128 = secs as u128 * 1000 + nanos as u128 / 1_000_000;
            if ms <= u64::MAX as u128 {
                Ok(ms as u64)
            } else {
                Err(ClockError::TooLate)
            }
        },
        None => Err(ClockError::BeforeEpoch),
    }
}

/// The system's clock can be read as `secs` seconds and `nanos` nanoseconds since the start of
/// 1970. Nothing is known of which times these are, so that a time is one that can be read only if
/// it was.
pub closed spec fn clock_shows(secs: u64, nanos: u32) -> bool {
    call_ensures(since_epoch, (), Ok::<(u64, u32), std::time::SystemTimeError>((secs, nanos)))
}

/// The system's clock can be found to stand before the start of 1970.
pub closed spec fn clock_is_behind() -> bool {
    exists|e: std::time::SystemTimeError| #[trigger]
        call_ensures(since_epoch, (), Err::<(u64, u32), std::time::SystemTimeError>(e))
}

/// The milliseconds since the start of 1970. The clock decides what comes back;
/// [`timestamp_of`] says what is made of what it shows.
pub fn get_current_time() -> (r: Result<u64, ClockError>)
    ensures
        match r {
            Ok(timestamp) => exists|secs: u64, nanos: u32| #[trigger]
                clock_shows(secs, nanos) && timestamp == millis(secs, nanos),
            Err(ClockError::TooLate) => exists|secs: u64, nanos: u32| #[trigger]
                clock_shows(secs, nanos) && millis(secs, nanos) > u64::MAX,
            Err(ClockError::BeforeEpoch) => clock_is_behind(),
        },
{
    let read = since_epoch;
    match read() {
        Ok((secs, nanos)) => {
            assert(clock_shows(secs, nanos));
            timestamp_of(Some((secs, nanos)))
        },
        Err(e) => {
            assert(call_ensures(read, (), Err::<(u64, u32), std::time::SystemTimeError>(e)));
            timestamp_of(None)
        },
    }
}

/// What can be read off the clock is what reading it gives.
proof fn law_clock_shows_what_is_read(secs: u64, nanos: u32)
    ensures
        clock_shows(secs, nanos) <==> call_ensures(
            since_epoch,
            (),
            Ok::<(u64, u32), std::time::SystemTimeError>((secs, nanos)),
        ),
        clock_is_behind() <==> exists|e: std::time::SystemTimeError| #[trigger]
            call_ensures(since_epoch, (), Err::<(u64, u32), std::time::SystemTimeError>(e)),
{
}

/// The current time is made of what reading the clock gave.
proof fn law_current_time_was_read(r: Result<u64, ClockError>)
    requires
        call_ensures(get_current_time, (), r),
    ensures
        r matches Ok(t) ==> exists|secs: u64, nanos: u32|
            call_ensures(
                since_epoch,
                (),
                Ok::<(u64, u32), std::time::SystemTimeError>((secs, nanos)),
            ) && t == secs * 1000 + nanos as int / 1_000_000,
        r == Err::<u64, ClockError>(ClockError::BeforeEpoch) ==> exists|
            e: std::time::SystemTimeError,
        | #[trigger]
            call_ensures(since_epoch, (), Err::<(u64, u32), std::time::SystemTimeError>(e)),
{
    if let Ok(t) = r {
        let (secs, nanos) = choose|secs: u64, nanos: u32| #[trigger]
            clock_shows(secs, nanos) && t == millis(secs, nanos);
        law_clock_shows_what_is_read(secs, nanos);
    }
}

/// A timestamp is the number of whole milliseconds in the time since the start of 1970. There is
/// none exactly if the clock stands before that or the number does not fit in 64 bits.
pub proof fn law_timestamps_count_milliseconds(
    elapsed: Option<(u64, u32)>,
    r: Result<u64, ClockError>,
)
    requires
        call_ensures(timestamp_of, (elapsed,), r),
    ensures
        elapsed matches Some((secs, nanos)) ==> {
            let ns = secs * 1_000_000_000 + nanos;
            &&& r matches Ok(t) ==> t * 1_000_000 <= ns < (t + 1) * 1_000_000
            &&& r is Err <==> ns >= 0x1_0000_0000_0000_0000 * 1_000_000
            &&& r matches Err(e) ==> e == ClockError::TooLate
        },
        elapsed is None ==> r == Err::<u64, ClockError>(ClockError::BeforeEpoch),
{
    if let Some((secs, nanos)) = elapsed {
        let m = millis(secs, nanos);
        assert(m * 1_000_000 <= secs * 1_000_000_000 + nanos < (m + 1) * 1_000_000);
    }
}

} // verus!
