//! Time, in nanoseconds since a clock was started.
use vstd::prelude::*;

verus! {

/// `std::time::Instant`, carried without looking inside.
#[verifier::external_type_specification]
#[verifier::external_body]
pub struct ExInstant(std::time::Instant);

/// Nanoseconds in a second.
pub const NANOS_PER_SEC: u128 = 1_000_000_000;

/// Nanoseconds in a millisecond.
pub const NANOS_PER_MILLI: u128 = 1_000_000;

/// The longest time that a `std::time::Duration` holds, in nanoseconds.
pub const MAX_NANOS: u128 = 18_446_744_073_709_551_615_999_999_999;

/// Calls `Instant::now`. Nothing is said of the result.
#[verifier::external_body]
fn instant_now() -> std::time::Instant {
    std::time::Instant::now()
}

/// Calls `Instant::elapsed` and gives the duration in nanoseconds. A duration holds at most
/// `MAX_NANOS`; how much time has passed is left open.
#[verifier::external_body]
fn nanos_since(origin: &std::time::Instant) -> (nanos: u128)
    ensures
        nanos <= MAX_NANOS,
{
    origin.elapsed().as_nanos()
}

/// A monotonic clock that counts from its start.
#[derive(Clone, Copy)]
pub struct Clock {
    origin: std::time::Instant,
}

impl Clock {
    /// Starts a clock at zero.
    pub fn start() -> Clock {
        Clock { origin: instant_now() }
    }

    /// A time that this clock can show. What that is stays in this module, so that elsewhere only a
    /// reading of the very same clock gives one.
    pub closed spec fn shows(self, nanos: u128) -> bool {
        nanos <= MAX_NANOS
    }

    /// The nanoseconds since the start. How many they are depends on when the call is made.
    pub fn now(&self) -> (nanos: u128)
        ensures
            nanos <= MAX_NANOS,
            self.shows(nanos),
    {
        nanos_since(&self.origin)
    }
}

/// A time that was read from a clock.
#[derive(Clone, Copy)]
pub struct Reading {
    nanos: u128,
}

impl Reading {
    #[verifier::type_invariant]
    spec fn inv(self) -> bool {
        self.nanos <= MAX_NANOS
    }

    pub closed spec fn spec_nanos(self) -> u128 {
        self.nanos
    }

    /// Reads the clock.
    pub fn take(clock: &Clock) -> (reading: Reading)
        ensures
            reading.spec_nanos() <= MAX_NANOS,
            clock.shows(reading.spec_nanos()),
    {
        Reading { nanos: clock.now() }
    }

    /// The nanoseconds that the clock showed.
    pub fn nanos(self) -> (nanos: u128)
        ensures
            nanos == self.spec_nanos(),
            nanos <= MAX_NANOS,
    {
        proof {
            use_type_invariant(self);
        }
        self.nanos
    }
}

/// Whole seconds in nanoseconds.
pub fn secs(n: u64) -> (nanos: u128)
    ensures
        nanos == n * 1_000_000_000,
        nanos <= MAX_NANOS,
{
    n as u128 * NANOS_PER_SEC
}

/// Whole milliseconds in nanoseconds.
pub fn millis(n: u64) -> (nanos: u128)
    ensures
        nanos == n * 1_000_000,
        nanos <= MAX_NANOS,
{
    n as u128 * NANOS_PER_MILLI
}

} // verus!
