//! The monotonic clock that limiters read.
use std::time::Instant;
use vstd::prelude::*;

verus! {

/// A reading of the monotonic clock of the standard library. Nothing is
/// known of its value.
#[verifier::external_type_specification]
#[verifier::external_body]
pub struct ExInstant(std::time::Instant);

/// Calls `std::time::Instant::now`. The result depends on the moment of the
/// call alone, so nothing is claimed of it.
#[verifier::external_body]
fn instant_now() -> (now: Instant) {
    Instant::now()
}

/// Calls `std::time::Instant::elapsed` and gives the span in nanoseconds.
/// The result depends on the moment of the call, so nothing is claimed of
/// it.
#[verifier::external_body]
fn nanos_since(origin: &Instant) -> (nanos: u128) {
    origin.elapsed().as_nanos()
}

/// A clock that counts the nanoseconds since it was started.
#[derive(Clone, Copy, Debug)]
pub struct Clock {
    origin: Instant,
}

impl Clock {
    /// Starts a clock. Where it starts depends on the moment of the call
    /// alone.
    pub fn start() -> (clock: Clock) {
        Clock { origin: instant_now() }
    }

    /// The [`reading`] of the clock: nanoseconds since it was started. The
    /// result depends on the moment of the call, so any value is possible.
    pub fn now(&self) -> (nanos: u64) {
        reading(nanos_since(&self.origin))
    }
}

/// What a clock shows once `nanos` nanoseconds have passed: their number, up
/// to the largest that it can show.
pub fn reading(nanos: u128) -> (shown: u64)
    ensures
        shown == if nanos <= u64::MAX {
            nanos as int
        } else {
            u64::MAX as int
        },
{
    if nanos <= 0xFFFF_FFFF_FFFF_FFFF {
        nanos as u64
    } else {
        u64::MAX
    }
}

/// Nanoseconds from `earlier` to `later`; none if the two are out of order.
pub open spec fn elapsed(earlier: nat, later: nat) -> nat {
    if later >= earlier {
        (later - earlier) as nat
    } else {
        0
    }
}

/// Nanoseconds from `earlier` to `later`; none if the two are out of order.
pub fn nanos_between(earlier: u64, later: u64) -> (nanos: u64)
    ensures
        nanos == elapsed(earlier as nat, later as nat),
{
    later.saturating_sub(earlier)
}

/// The time between two instants leads from the earlier to the later one, and
/// is nothing if they are out of order.
pub proof fn elapsed_leads_to_the_later(earlier: nat, later: nat)
    ensures
        earlier <= later ==> earlier + elapsed(earlier, later) == later,
        later <= earlier ==> elapsed(earlier, later) == 0,
{
}

} // verus!
