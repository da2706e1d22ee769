//! What can go wrong.

use vstd::prelude::*;

verus! {

/// Why a datagram was not accepted.
#[derive(Clone, Copy, Debug, PartialEq, Eq, Structural)]
pub enum DecryptError {
    /// The datagram is too short to hold a header.
    Eof,
    /// A datagram with this nonce was accepted before.
    Repeat,
    /// The datagram is too far behind.
    Late,
    /// The tag does not match.
    Mac,
}

/// Why no state could be made.
#[derive(Clone, Copy, Debug, PartialEq, Eq, Structural)]
pub enum KeyError {
    /// The system gave no random bytes.
    NoRandomness,
}

} // verus!
