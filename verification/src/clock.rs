use std::time::Instant;
use vstd::prelude::*;

verus! {

/// A reading of a clock that never goes back.
#[verifier::external_type_specification]
#[verifier::external_body]
pub struct ExInstant(std::time::Instant);

/// Reads the clock with `std::time::Instant::now`. Nothing is claimed of the reading: it
/// depends on when the call is made.
#[verifier::external_body]
fn now() -> (reading: Instant) {
    Instant::now()
}

/// The nanoseconds since a reading, by `std::time::Instant::elapsed`. Nothing is claimed of
/// the number: it depends on when the call is made.
#[verifier::external_body]
fn elapsed_nanos(start: &Instant) -> (nanos: u128) {
    start.elapsed().as_nanos()
}

/// Whether work that has taken so many nanoseconds has reached its limit.
pub fn is_over(seconds: Option<u64>, nanos: u128) -> (over: bool)
    ensures
        over == (seconds matches Some(limit) && nanos >= limit * 1_000_000_000),
{
    match seconds {
        None => false,
        Some(limit) => nanos >= limit as u128 * 1_000_000_000,
    }
}

/// A limit on the time that some work may take.
pub struct Deadline {
    start: Instant,
    seconds: Option<u64>,
}

impl Deadline {
    /// The limit in seconds, where there is one.
    pub closed spec fn limit(&self) -> Option<u64> {
        self.seconds
    }

    /// A limit that counts from now on.
    pub fn new(seconds: Option<u64>) -> (deadline: Self)
        ensures
            deadline.limit() == seconds,
    {
        Self { start: now(), seconds }
    }

    /// Whether the time is up. Without a limit it never is, and a limit of no seconds is
    /// reached at once.
    pub fn has_passed(&self) -> (passed: bool)
        ensures
            self.limit() is None ==> !passed,
            self.limit() == Some(0u64) ==> passed,
    {
        is_over(self.seconds, elapsed_nanos(&self.start))
    }
}

} // verus!
