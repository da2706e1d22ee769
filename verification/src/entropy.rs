//! Random keys, and comparison in constant time: the `ring` crate.

use ring::error::Unspecified;
use ring::rand::{SecureRandom, SystemRandom};
use vstd::prelude::*;

use crate::cipher::KEY_SIZE;

verus! {

/// `ring::error::Unspecified`: an error without details.
#[verifier::external_type_specification]
#[verifier::external_body]
pub struct ExUnspecified(Unspecified);

/// Calls `fill` (of `SecureRandom`) on a `SystemRandom`, which asks the
/// operating system for random bytes. Nothing is promised of the bytes, nor
/// that there are any to be had.
#[verifier::external_body]
pub(crate) fn fill_random(key: &mut [u8; KEY_SIZE]) -> (r: Result<(), Unspecified>) {
    SystemRandom::new().fill(key)
}

/// Draws a key: what `fill_random` left, where it succeeded.
fn fill_key() -> (r: Result<[u8; KEY_SIZE], Unspecified>)
    ensures
        exists|slot: &mut [u8; KEY_SIZE], filled: Result<(), Unspecified>|
            {
                &&& #[trigger] call_ensures(fill_random, (slot,), filled)
                &&& r is Ok <==> filled is Ok
                &&& r matches Ok(key) ==> final(slot)@ == key@
            },
{
    let mut key: [u8; KEY_SIZE] = [0; KEY_SIZE];
    let filled: Result<(), Unspecified> = fill_random(&mut key);
    assert(exists|slot: &mut [u8; KEY_SIZE]| #[trigger]
        call_ensures(fill_random, (slot,), filled) && final(slot)@ == key@);
    match filled {
        Ok(()) => Ok(key),
        Err(e) => Err(e),
    }
}

/// `outcome` is what filling a key with random bytes gave: the bytes, or none.
pub closed spec fn drawn(outcome: Result<[u8; KEY_SIZE], Unspecified>) -> bool {
    call_ensures(fill_key, (), outcome)
}

/// Draws a key at random.
pub(crate) fn draw_key() -> (r: Result<[u8; KEY_SIZE], Unspecified>)
    ensures
        drawn(r),
{
    fill_key()
}

/// Calls `ring::constant_time::verify_slices_are_equal`, which succeeds if and
/// only if the two slices hold the same bytes.
#[verifier::external_body]
#[allow(deprecated)]
pub(crate) fn verify_slices_are_equal(a: &[u8], b: &[u8]) -> (r: Result<(), Unspecified>)
    ensures
        r is Ok <==> a@ == b@,
{
    ring::constant_time::verify_slices_are_equal(a, b)
}

} // verus!
