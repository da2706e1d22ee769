//! The byte order of the machine, which decides how a nonce is enciphered.

use vstd::prelude::*;

use crate::block::{
    be_bytes, be_value, from_be_bytes, le_bytes, lemma_bytes_of_value, to_le_bytes,
};

verus! {

/// Which byte of a number comes first in memory.
#[derive(Clone, Copy, Debug, PartialEq, Eq, Structural)]
pub enum ByteOrder {
    /// The least significant one.
    Little,
    /// The most significant one.
    Big,
}

/// `u128::to_be`: nothing on a machine with the most significant byte first,
/// and the bytes swapped on any other. The contract does not say which of the
/// two machines this is.
pub assume_specification[ u128::to_be ](x: u128) -> (r: u128)
    ensures
        r == x || r == be_value(le_bytes(x)),
;

/// The block that is enciphered for a nonce, on a machine of the given order:
/// the nonce as it is in memory.
pub open spec fn nonce_block(order: ByteOrder, nonce: u128) -> u128 {
    match order {
        ByteOrder::Little => be_value(le_bytes(nonce)),
        ByteOrder::Big => nonce,
    }
}

/// The order of a machine on which `u128::to_be` turns one into `converted`.
pub open spec fn order_shown_by(converted: u128) -> ByteOrder {
    if converted == 1 {
        ByteOrder::Big
    } else {
        ByteOrder::Little
    }
}

/// `order` is the one that a call of `u128::to_be` on one shows.
pub open spec fn machine_order(order: ByteOrder) -> bool {
    exists|converted: u128|
        {
            &&& #[trigger] call_ensures(u128::to_be, (1u128,), converted)
            &&& order == if converted == 1 {
                ByteOrder::Big
            } else {
                ByteOrder::Little
            }
        }
}

/// The bytes that are enciphered for a nonce are those of the nonce, the first in
/// memory first.
pub proof fn law_nonce_is_enciphered_as_in_memory(nonce: u128)
    ensures
        be_bytes(nonce_block(ByteOrder::Little, nonce)) == le_bytes(nonce),
        be_bytes(nonce_block(ByteOrder::Big, nonce)) == be_bytes(nonce),
        nonce_block(ByteOrder::Big, nonce) == nonce,
{
    lemma_bytes_of_value(le_bytes(nonce));
}

/// Returns the order of a machine on which `u128::to_be` turns one into
/// `converted`.
pub fn order_of(converted: u128) -> (r: ByteOrder)
    ensures
        r == order_shown_by(converted),
{
    if converted == 1 {
        ByteOrder::Big
    } else {
        ByteOrder::Little
    }
}

/// Returns the block that is enciphered for a nonce.
pub fn block_of(order: ByteOrder, nonce: u128) -> (r: u128)
    ensures
        r == nonce_block(order, nonce),
{
    match order {
        ByteOrder::Little => from_be_bytes(&to_le_bytes(nonce)),
        ByteOrder::Big => nonce,
    }
}

} // verus!
