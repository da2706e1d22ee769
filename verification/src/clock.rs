//! Points in time, and how long a state has to wait between two resets.

use std::time::{Duration, Instant};
use vstd::arithmetic::power2::{lemma2_to64, lemma_pow2_strictly_increases, lemma_pow2_unfold, pow2};
use vstd::prelude::*;

verus! {

/// `std::time::Instant`: a reading of a clock that never goes back.
#[verifier::external_type_specification]
#[verifier::external_body]
pub struct ExInstant(Instant);

/// The nanoseconds that went by from `earlier` to `later`; none where `earlier`
/// is the later of the two.
pub uninterp spec fn nanos_between(earlier: Instant, later: Instant) -> nat;

/// The nanoseconds in `duration`.
pub uninterp spec fn nanos(duration: Duration) -> nat;

/// `Instant::now`: reads the clock. Nothing is promised of the reading.
pub assume_specification[ Instant::now ]() -> (now: Instant);

/// `t` is what a call of `Instant::now` gave.
pub open spec fn clock_reading(t: Instant) -> bool {
    call_ensures(Instant::now, (), t)
}

/// `Instant::duration_since`: the time that went by since `earlier`, or no time
/// at all where `earlier` is the later one. The contract only says that the two
/// instants decide it.
pub assume_specification[ Instant::duration_since ](later: &Instant, earlier: Instant) -> (d:
    Duration)
    ensures
        nanos(d) == nanos_between(earlier, *later),
;

/// `Duration::as_millis`: the whole milliseconds in a duration.
pub assume_specification[ Duration::as_millis ](d: &Duration) -> (millis: u128)
    ensures
        millis == nanos(*d) / 1_000_000,
;

/// The milliseconds that have to go by before another reset, after `attempts`
/// resets in a row: one second, doubled each time, and never more than thirty.
pub open spec fn backoff_millis(attempts: nat) -> nat {
    if 1000 * pow2(attempts) <= 30000 {
        1000 * pow2(attempts)
    } else {
        30000
    }
}

/// The wait is at least a second and at most thirty, and never gets shorter
/// from one reset to the next.
pub proof fn law_backoff_grows(fewer: nat, more: nat)
    requires
        fewer <= more,
    ensures
        1000 <= backoff_millis(fewer) <= backoff_millis(more) <= 30000,
{
    lemma2_to64();
    if 0 < fewer {
        lemma_pow2_strictly_increases(0, fewer);
    }
    if fewer < more {
        lemma_pow2_strictly_increases(fewer, more);
    }
}

/// The wait doubles from one reset to the next, until it is at thirty seconds.
pub proof fn law_backoff_doubles(attempts: nat)
    ensures
        backoff_millis(attempts + 1) == if 2 * backoff_millis(attempts) <= 30000 {
            2 * backoff_millis(attempts)
        } else {
            30000
        },
{
    lemma_pow2_unfold(attempts + 1);
}

/// The waits are 1, 2, 4, 8 and 16 seconds, and 30 seconds from then on.
pub proof fn law_backoff_in_seconds(attempts: nat)
    ensures
        attempts == 0 ==> backoff_millis(attempts) == 1000,
        attempts == 1 ==> backoff_millis(attempts) == 2000,
        attempts == 2 ==> backoff_millis(attempts) == 4000,
        attempts == 3 ==> backoff_millis(attempts) == 8000,
        attempts == 4 ==> backoff_millis(attempts) == 16000,
        attempts >= 5 ==> backoff_millis(attempts) == 30000,
{
    lemma2_to64();
    if attempts > 5 {
        lemma_pow2_strictly_increases(5, attempts);
    }
}

/// Returns the milliseconds to wait after `attempts` resets in a row.
pub fn backoff(attempts: u32) -> (millis: u32)
    ensures
        millis == backoff_millis(attempts as nat),
{
    proof {
        lemma2_to64();
    }
    if attempts < 5 {
        assert(1u32 << 0u32 == 1 && 1u32 << 1u32 == 2 && 1u32 << 2u32 == 4 && 1u32 << 3u32 == 8
            && 1u32 << 4u32 == 16) by (bit_vector);
        1000 * (1u32 << attempts)
    } else {
        proof {
            if attempts > 5 {
                lemma_pow2_strictly_increases(5, attempts as nat);
            }
        }
        30000
    }
}

} // verus!
