//! Event counts, kept until they are handed to a metrics registry.

use vstd::prelude::*;

verus! {

/// How often each event happened since the counts were last taken.
#[derive(Clone, Copy, Debug, PartialEq, Eq, Structural)]
pub struct CryptMetrics {
    /// Resets of the state.
    pub resets: u64,
    /// Datagrams refused because they were accepted before.
    pub repeat_errors: u64,
    /// Datagrams refused because they were too far behind.
    pub too_late_errors: u64,
    /// Datagrams refused because of their tag.
    pub mac_errors: u64,
    /// Jumps of the nonce by more than a hundred.
    pub nonce_wraps: u64,
    /// Datagrams that came late, but not too late.
    pub late_packets: u64,
    /// Datagrams that were skipped.
    pub lost_packets: u64,
}

impl CryptMetrics {
    /// No events at all.
    pub open spec fn zero() -> CryptMetrics {
        CryptMetrics {
            resets: 0,
            repeat_errors: 0,
            too_late_errors: 0,
            mac_errors: 0,
            nonce_wraps: 0,
            late_packets: 0,
            lost_packets: 0,
        }
    }

    /// Returns counts that are all zero.
    pub fn new() -> (r: CryptMetrics)
        ensures
            r == CryptMetrics::zero(),
    {
        CryptMetrics {
            resets: 0,
            repeat_errors: 0,
            too_late_errors: 0,
            mac_errors: 0,
            nonce_wraps: 0,
            late_packets: 0,
            lost_packets: 0,
        }
    }

    /// Returns the counts and starts again from zero.
    pub fn take(&mut self) -> (r: CryptMetrics)
        ensures
            r == *old(self),
            *final(self) == CryptMetrics::zero(),
    {
        let counts = *self;
        *self = CryptMetrics::new();
        counts
    }
}

} // verus!
