//! Readings of the clocks of the machine, as plain numbers.

use crate::transaction::SystemTime;
use vstd::prelude::*;

verus! {

/// A reading of a monotonic clock, in nanoseconds since the clock was started.
#[derive(Clone, Copy, Debug, PartialEq, Eq, Structural, Hash)]
pub struct Instant {
    pub nanos: u128,
}

#[verifier::external_type_specification]
#[verifier::external_body]
pub struct ExInstant(std::time::Instant);

/// `std::time::Instant::now` reads the monotonic clock of the machine. Nothing is claimed of the
/// reading.
pub assume_specification[ std::time::Instant::now ]() -> (reading: std::time::Instant)
;

/// `std::time::Instant::elapsed` gives the time that has passed since a reading. Nothing is
/// claimed of it, since it depends on when it is asked.
pub assume_specification[ std::time::Instant::elapsed ](reading: &std::time::Instant) -> (passed:
    std::time::Duration)
;

/// `std::time::Duration::as_nanos` counts the nanoseconds of a duration. All that is claimed is
/// that the count is at most that of the longest duration, which is `u64::MAX` seconds and
/// 999,999,999 nanoseconds.
pub assume_specification[ std::time::Duration::as_nanos ](duration: &std::time::Duration) -> (nanos:
    u128)
    ensures
        nanos <= 18_446_744_073_709_551_615_999_999_999,
;

/// A monotonic clock. Readings of one clock can be compared with each other.
pub struct Clock {
    start: std::time::Instant,
}

impl Clock {
    /// Whether the clock keeps a reading that `std::time::Instant::now` may have given.
    pub closed spec fn is_started(&self) -> bool {
        call_ensures(std::time::Instant::now, (), self.start)
    }

    /// Whether a reading counts the nanoseconds that `std::time::Instant::elapsed` may have given for
    /// this clock.
    pub closed spec fn may_show(&self, reading: Instant) -> bool {
        exists|passed: std::time::Duration|
            {
                &&& #[trigger] call_ensures(
                    std::time::Instant::elapsed,
                    (&self.start,),
                    passed,
                )
                &&& call_ensures(std::time::Duration::as_nanos, (&passed,), reading.nanos)
            }
    }

    /// Starts a clock at the present reading of the machine.
    pub fn start() -> (clock: Self)
        ensures
            clock.is_started(),
    {
        Clock { start: std::time::Instant::now() }
    }

    /// Reads the clock: the nanoseconds that have passed since it was started, which are at most those
    /// of the longest duration. How the reading compares with earlier ones depends on when they were
    /// taken, and is not stated.
    pub fn now(&self) -> (reading: Instant)
        ensures
            self.may_show(reading),
            reading.nanos <= 18_446_744_073_709_551_615_999_999_999,
    {
        Instant { nanos: self.start.elapsed().as_nanos() }
    }
}

#[verifier::external_type_specification]
#[verifier::external_body]
pub struct ExSystemTime(std::time::SystemTime);

#[verifier::external_type_specification]
#[verifier::external_body]
pub struct ExSystemTimeError(std::time::SystemTimeError);

/// `std::time::SystemTime::now` reads the wall clock of the machine. Nothing is claimed of the
/// reading.
pub assume_specification[ std::time::SystemTime::now ]() -> (reading: std::time::SystemTime)
;

/// `std::time::SystemTimeError::duration` gives how far the later of two times lies ahead. Nothing is
/// claimed of it, since the times are opaque readings.
pub assume_specification[ std::time::SystemTimeError::duration ](
    error: &std::time::SystemTimeError,
) -> (distance: std::time::Duration)
;

/// `std::time::SystemTime::duration_since`, asked for the Unix epoch, gives the distance of a reading
/// from the epoch: `Ok` from the epoch on, `Err` before it. Nothing is claimed of the distance, since
/// the reading is opaque.
#[verifier::external_body]
fn since_epoch(reading: &std::time::SystemTime) -> (distance: Result<
    std::time::Duration,
    std::time::SystemTimeError,
>) {
    reading.duration_since(std::time::UNIX_EPOCH)
}

impl SystemTime {
    /// Whether a time has the distance from the epoch that a reading of `std::time::SystemTime::now`
    /// may have had.
    pub closed spec fn may_be_now(&self) -> bool {
        exists|
            reading: std::time::SystemTime,
            distance: Result<std::time::Duration, std::time::SystemTimeError>,
        |
            {
                &&& call_ensures(std::time::SystemTime::now, (), reading)
                &&& #[trigger] call_ensures(since_epoch, (&reading,), distance)
                &&& is_distance(distance, *self)
            }
    }

    /// The time `nanos` nanoseconds after the epoch (`Ok`) or before it (`Err`).
    pub fn at_distance(nanos: Result<u128, u128>) -> (time: Self)
        requires
            match nanos {
                Ok(n) => n <= i128::MAX,
                Err(n) => n <= i128::MAX,
            },
        ensures
            match nanos {
                Ok(n) => time.nanos == n,
                Err(n) => time.nanos == -n,
            },
    {
        match nanos {
            Ok(n) => SystemTime { nanos: n as i128 },
            Err(n) => SystemTime { nanos: -(n as i128) },
        }
    }

    /// Reads the wall clock: the time at the distance from the epoch that the machine gives, which is
    /// at most the longest duration. Which time it is, is not stated.
    pub fn now() -> (time: Self)
        ensures
            time.may_be_now(),
            -18_446_744_073_709_551_615_999_999_999 <= time.nanos,
            time.nanos <= 18_446_744_073_709_551_615_999_999_999,
    {
        let reading = std::time::SystemTime::now();
        match since_epoch(&reading) {
            Ok(distance) => SystemTime::at_distance(Ok(distance.as_nanos())),
            Err(error) => SystemTime::at_distance(Err(error.duration().as_nanos())),
        }
    }
}

/// Whether a time lies as far after the epoch (`Ok`) or before it (`Err`) as a distance says.
spec fn is_distance(
    distance: Result<std::time::Duration, std::time::SystemTimeError>,
    time: SystemTime,
) -> bool {
    match distance {
        Ok(after) => exists|nanos: u128|
            {
                &&& #[trigger] call_ensures(std::time::Duration::as_nanos, (&after,), nanos)
                &&& time.nanos == nanos
            },
        Err(error) => exists|before: std::time::Duration, nanos: u128|
            {
                &&& call_ensures(std::time::SystemTimeError::duration, (&error,), before)
                &&& #[trigger] call_ensures(std::time::Duration::as_nanos, (&before,), nanos)
                &&& time.nanos == -nanos
            },
    }
}

/// A reading of a clock is the count of the nanoseconds of some duration, as `std` counts them.
pub proof fn law_a_reading_counts_a_duration(clock: Clock, reading: Instant)
    requires
        clock.may_show(reading),
    ensures
        exists|passed: std::time::Duration| #[trigger]
            call_ensures(std::time::Duration::as_nanos, (&passed,), reading.nanos),
{
}

/// A reading of the wall clock lies as many nanoseconds after the epoch, or before it, as `std` counts
/// in the distance that it gives.
pub proof fn law_the_wall_clock_shows_a_distance(time: SystemTime)
    requires
        time.may_be_now(),
    ensures
        (exists|after: std::time::Duration, nanos: u128|
            {
                &&& #[trigger] call_ensures(std::time::Duration::as_nanos, (&after,), nanos)
                &&& time.nanos == nanos
            }) || (exists|
            error: std::time::SystemTimeError,
            before: std::time::Duration,
            nanos: u128,
        |
            {
                &&& #[trigger] call_ensures(
                    std::time::SystemTimeError::duration,
                    (&error,),
                    before,
                )
                &&& #[trigger] call_ensures(std::time::Duration::as_nanos, (&before,), nanos)
                &&& time.nanos == -nanos
            }),
{
}

} // verus!
