//! The receiving window: which nonce a datagram belongs to, given the one byte
//! of it that is transmitted, and whether that nonce may still be used.

use vstd::prelude::*;

verus! {

/// Number of slots in the history: one for each value of the transmitted byte.
pub const HISTORY_SIZE: usize = 256;

/// Where a datagram stands relative to the ones that came before it.
#[derive(Clone, Copy, Debug, PartialEq, Eq, Structural)]
pub enum Arrival {
    /// Ahead of all of them, with `skipped` datagrams in between.
    Ahead { skipped: u8 },
    /// Behind the last one, and not seen so far.
    Late,
    /// Seen before.
    Repeat,
    /// Too far behind to tell.
    TooLate,
}

/// How far the nonce that ends in `low` is ahead of `nonce`: of all such nonces
/// the one from 128 behind to 127 ahead.
pub open spec fn distance(nonce: u128, low: u8) -> int {
    let d = (low - nonce) % 256;
    if d < 128 {
        d
    } else {
        d - 256
    }
}

/// The nonce that ends in `low` and is nearest to `nonce`.
pub open spec fn nearest(nonce: u128, low: u8) -> u128 {
    nonce.wrapping_add_signed(distance(nonce, low) as i128)
}

/// What the history keeps of a nonce: the byte above the transmitted one.
pub open spec fn second_byte(nonce: u128) -> u8 {
    ((nonce / 256) % 256) as u8
}

/// The datagram with the nonce `nearest(nonce, low)` is on record.
pub open spec fn recorded(history: Seq<u8>, nonce: u128, low: u8) -> bool {
    history[low as int] == second_byte(nearest(nonce, low))
}

/// Where a datagram stands whose nonce ends in `low`, after `nonce`.
pub open spec fn arrival(nonce: u128, history: Seq<u8>, low: u8) -> Arrival {
    let d = distance(nonce, low);
    if d > 0 {
        Arrival::Ahead { skipped: (d - 1) as u8 }
    } else if d > -30 {
        if recorded(history, nonce, low) {
            Arrival::Repeat
        } else {
            Arrival::Late
        }
    } else {
        Arrival::TooLate
    }
}

/// The byte of a nonce that is transmitted.
pub open spec fn low_byte(nonce: u128) -> u8 {
    (nonce % 256) as u8
}

/// A nonce from 128 behind to 127 ahead is found again from its last byte: that
/// byte is all of it that has to be transmitted.
pub proof fn law_last_byte_identifies_nonce(nonce: u128, step: int)
    requires
        -128 <= step <= 127,
    ensures
        distance(nonce, low_byte(nonce.wrapping_add_signed(step as i128))) == step,
        nearest(nonce, low_byte(nonce.wrapping_add_signed(step as i128)))
            == nonce.wrapping_add_signed(step as i128),
{
}

/// Of the nonces from 128 behind to 127 ahead, one ends in `low`.
pub proof fn law_every_byte_is_in_the_window(nonce: u128, low: u8)
    ensures
        -128 <= distance(nonce, low) <= 127,
        (nonce + distance(nonce, low)) % 256 == low,
{
}

/// A datagram `step` ahead of the last one has skipped those in between. One that
/// is less than thirty behind is late, unless the second byte of its nonce is what
/// the history holds for its last byte: then it was seen before. Any other is too
/// late. Nonces wrap around at 2^128.
pub proof fn law_arrival(nonce: u128, history: Seq<u8>, low: u8, step: int)
    requires
        -128 <= step <= 127,
        low == (nonce + step) % 256,
    ensures
        ({
            let other = (nonce + step) % 0x1_0000_0000_0000_0000_0000_0000_0000_0000int;
            let seen = history[low as int] == (other / 256) % 256;
            &&& nearest(nonce, low) == other
            &&& low_byte(other as u128) == low
            &&& second_byte(other as u128) == (other / 256) % 256
            &&& 0 < step ==> arrival(nonce, history, low) == (Arrival::Ahead {
                skipped: (step - 1) as u8,
            })
            &&& -30 < step <= 0 && seen ==> arrival(nonce, history, low) == Arrival::Repeat
            &&& -30 < step <= 0 && !seen ==> arrival(nonce, history, low) == Arrival::Late
            &&& step <= -30 ==> arrival(nonce, history, low) == Arrival::TooLate
        }),
{
    lemma_wrapped(nonce, low, step);
    assert(distance(nonce, low) == step) by {
        lemma_step(nonce, low, step);
    }
}

proof fn lemma_step(nonce: u128, low: u8, step: int)
    requires
        -128 <= step <= 127,
        low == (nonce + step) % 256,
    ensures
        distance(nonce, low) == step,
{
}

proof fn lemma_wrapped(nonce: u128, low: u8, step: int)
    requires
        -128 <= step <= 127,
        low == (nonce + step) % 256,
    ensures
        nonce.wrapping_add_signed(step as i128) == (nonce + step)
            % 0x1_0000_0000_0000_0000_0000_0000_0000_0000int,
        nonce.wrapping_add_signed(step as i128) % 256 == low,
{
    let sum = nonce + step;
    let range = 0x1_0000_0000_0000_0000_0000_0000_0000_0000int;
    assert(sum % range == if sum < 0 {
        sum + range
    } else if sum < range {
        sum
    } else {
        sum - range
    });
}

/// Returns the last byte of `nonce`.
pub fn low_byte_of(nonce: u128) -> (r: u8)
    ensures
        r == low_byte(nonce),
{
    assert(nonce as u8 == nonce % 256) by (bit_vector);
    nonce as u8
}

/// Returns the byte above the last one.
pub fn second_byte_of(nonce: u128) -> (r: u8)
    ensures
        r == second_byte(nonce),
{
    assert((nonce >> 8) as u8 == (nonce / 256) % 256) by (bit_vector);
    (nonce >> 8) as u8
}

/// Returns how far the nonce that ends in `low` is ahead of `nonce`.
pub fn distance_to(nonce: u128, low: u8) -> (r: i8)
    ensures
        r == distance(nonce, low),
{
    let d: u8 = low.wrapping_sub(low_byte_of(nonce));
    assert(d as i8 == if d < 128 {
        d as int
    } else {
        d - 256
    }) by (bit_vector);
    d as i8
}

/// Returns the nonce that ends in `low` and is nearest to `nonce`.
pub fn nearest_to(nonce: u128, low: u8) -> (r: u128)
    ensures
        r == nearest(nonce, low),
{
    nonce.wrapping_add_signed(distance_to(nonce, low) as i128)
}

/// Returns where a datagram stands whose nonce ends in `low`, after `nonce`.
pub fn classify(nonce: u128, history: &[u8; HISTORY_SIZE], low: u8) -> (r: Arrival)
    ensures
        r == arrival(nonce, history@, low),
{
    let d: i8 = distance_to(nonce, low);
    if d > 0 {
        Arrival::Ahead { skipped: (d - 1) as u8 }
    } else if d > -30 {
        if history[low as usize] == second_byte_of(nearest_to(nonce, low)) {
            Arrival::Repeat
        } else {
            Arrival::Late
        }
    } else {
        Arrival::TooLate
    }
}

} // verus!
