//! What an encryption state is and what becomes of it, in terms of numbers and
//! sequences of bytes.

use std::time::Instant;
use vstd::prelude::*;

use crate::block::{be_bytes, le_value};
use crate::cipher::{reversible, KEY_SIZE};
use crate::clock::{backoff_millis, nanos_between};
use crate::error::DecryptError;
use crate::metrics::CryptMetrics;
use crate::ocb::{ocb_tag, opened_text, sealed_text};
use crate::order::{nonce_block, ByteOrder};
use crate::window::{arrival, low_byte, nearest, second_byte, Arrival, HISTORY_SIZE};

verus! {

/// Where the nonce of the opposite direction starts: half the range away from
/// zero, where one's own starts.
pub const INITIAL_DECRYPT_NONCE: u128 = 0x8000_0000_0000_0000_0000_0000_0000_0000;

/// A history in which no slot was written to.
pub open spec fn blank_history() -> Seq<u8> {
    Seq::new(HISTORY_SIZE as nat, |i: int| 0u8)
}

/// The bytes of the tag that are transmitted.
pub open spec fn short_tag(tag: u128) -> Seq<u8> {
    be_bytes(tag).take(3)
}

/// The datagram in which `packet` is sent under `nonce`: a byte of the nonce,
/// three bytes of the tag, and the ciphertext.
pub open spec fn datagram(
    key: Seq<u8>,
    order: ByteOrder,
    nonce: u128,
    packet: Seq<u8>,
) -> Seq<u8> {
    let start = nonce_block(order, nonce);
    seq![low_byte(nonce)] + short_tag(ocb_tag(key, start, packet)) + sealed_text(
        key,
        start,
        packet,
    )
}

/// An encryption state.
pub struct CryptModel {
    /// The key that is told to the other side.
    pub key: Seq<u8>,
    /// The key that is encrypted and decrypted with.
    pub cipher_key: Seq<u8>,
    /// The byte order in which nonces are enciphered.
    pub order: ByteOrder,
    /// The nonce of the last datagram sent.
    pub encrypt_nonce: u128,
    /// The highest nonce of a datagram accepted.
    pub decrypt_nonce: u128,
    /// For each last byte, the byte above it in the last nonce accepted.
    pub history: Seq<u8>,
    /// Datagrams accepted.
    pub good: u32,
    /// Datagrams accepted that came late.
    pub late: u32,
    /// Datagrams skipped that have not come since.
    pub lost: u32,
    /// How often the other side's nonce was taken over.
    pub resync: u32,
    /// When a datagram was last accepted.
    pub last_good: Instant,
    /// What the other side says of the datagrams that it received.
    pub remote_late: u32,
    pub remote_good: u32,
    pub remote_lost: u32,
    pub remote_resync: u32,
    /// Resets since a datagram was last accepted.
    pub reset_attempts: u32,
    /// When the state was last reset.
    pub last_reset: Instant,
    /// Events that were not reported yet.
    pub metrics: CryptMetrics,
}

impl CryptModel {
    /// A state that was just made from `key`.
    pub open spec fn initial(
        key: Seq<u8>,
        order: ByteOrder,
        last_good: Instant,
        last_reset: Instant,
    ) -> CryptModel {
        CryptModel {
            key,
            cipher_key: key,
            order,
            encrypt_nonce: 0,
            decrypt_nonce: INITIAL_DECRYPT_NONCE,
            history: blank_history(),
            good: 0,
            late: 0,
            lost: 0,
            resync: 0,
            last_good,
            remote_late: 0,
            remote_good: 0,
            remote_lost: 0,
            remote_resync: 0,
            reset_attempts: 0,
            last_reset,
            metrics: CryptMetrics::zero(),
        }
    }

    /// What holds of every state: the keys have the length of a key, there is a
    /// slot for each last byte, and the cipher can be undone.
    pub open spec fn valid(self) -> bool {
        &&& self.key.len() == KEY_SIZE
        &&& self.cipher_key.len() == KEY_SIZE
        &&& self.history.len() == HISTORY_SIZE
        &&& reversible(self.cipher_key)
    }

    /// Enough time went by since the last reset for another one.
    pub open spec fn reset_due(self, now: Instant) -> bool {
        nanos_between(self.last_reset, now) / 1_000_000 > backoff_millis(
            self.reset_attempts as nat,
        )
    }

    /// The state after a reset.
    pub open spec fn after_reset(self, last_good: Instant, last_reset: Instant) -> CryptModel {
        CryptModel {
            key: self.key,
            cipher_key: self.cipher_key,
            reset_attempts: self.reset_attempts.wrapping_add(1),
            metrics: CryptMetrics {
                resets: self.metrics.resets.wrapping_add(1),
                ..self.metrics
            },
            ..CryptModel::initial(self.key, self.order, last_good, last_reset)
        }
    }

    /// The state after the other side's nonce was learned.
    pub open spec fn after_resync(self, nonce: Seq<u8>) -> CryptModel {
        CryptModel {
            decrypt_nonce: le_value(nonce),
            history: blank_history(),
            resync: self.resync.wrapping_add(1),
            ..self
        }
    }

    /// The state after a packet was sent.
    pub open spec fn after_encrypt(self) -> CryptModel {
        CryptModel { encrypt_nonce: self.encrypt_nonce.wrapping_add(1), ..self }
    }

    /// The datagram in which the next packet is sent.
    pub open spec fn next_datagram(self, packet: Seq<u8>) -> Seq<u8> {
        datagram(self.cipher_key, self.order, self.encrypt_nonce.wrapping_add(1), packet)
    }

    /// Where a datagram stands relative to those accepted.
    pub open spec fn arrival(self, received: Seq<u8>) -> Arrival {
        arrival(self.decrypt_nonce, self.history, received[0])
    }

    /// The nonce that a datagram is decrypted with.
    pub open spec fn nonce_of(self, received: Seq<u8>) -> u128 {
        nearest(self.decrypt_nonce, received[0])
    }

    /// The block that is enciphered for that nonce.
    pub open spec fn start_of(self, received: Seq<u8>) -> u128 {
        nonce_block(self.order, self.nonce_of(received))
    }

    /// What the ciphertext in a datagram is decrypted to.
    pub open spec fn plaintext(self, received: Seq<u8>) -> Seq<u8> {
        opened_text(self.cipher_key, self.start_of(received), received.skip(4))
    }

    /// The tag in a datagram is that of its plaintext.
    pub open spec fn authentic(self, received: Seq<u8>) -> bool {
        received.subrange(1, 4) == short_tag(
            ocb_tag(self.cipher_key, self.start_of(received), self.plaintext(received)),
        )
    }

    /// Whether a datagram is accepted, and if not, why.
    pub open spec fn verdict(self, received: Seq<u8>) -> Result<(), DecryptError> {
        if received.len() < 4 {
            Err(DecryptError::Eof)
        } else {
            match self.arrival(received) {
                Arrival::Repeat => Err(DecryptError::Repeat),
                Arrival::TooLate => Err(DecryptError::Late),
                _ => if self.authentic(received) {
                    Ok(())
                } else {
                    Err(DecryptError::Mac)
                },
            }
        }
    }

    /// What is left in the buffer that a datagram was in: the plaintext where
    /// decryption was tried, and else the ciphertext.
    pub open spec fn left_over(self, received: Seq<u8>) -> Seq<u8> {
        match self.verdict(received) {
            Ok(()) => self.plaintext(received),
            Err(DecryptError::Mac) => self.plaintext(received),
            Err(DecryptError::Eof) => received,
            Err(_) => received.skip(4),
        }
    }

    /// The events that a datagram counts as.
    pub open spec fn metrics_after(self, received: Seq<u8>) -> CryptMetrics {
        let m = self.metrics;
        if received.len() < 4 {
            m
        } else {
            let arrived = match self.arrival(received) {
                Arrival::Ahead { skipped } => CryptMetrics {
                    lost_packets: m.lost_packets.wrapping_add(skipped as u64),
                    nonce_wraps: if skipped >= 100 {
                        m.nonce_wraps.wrapping_add(1)
                    } else {
                        m.nonce_wraps
                    },
                    ..m
                },
                Arrival::Late => CryptMetrics { late_packets: m.late_packets.wrapping_add(1), ..m },
                Arrival::Repeat => CryptMetrics {
                    repeat_errors: m.repeat_errors.wrapping_add(1),
                    ..m
                },
                Arrival::TooLate => CryptMetrics {
                    too_late_errors: m.too_late_errors.wrapping_add(1),
                    ..m
                },
            };
            if self.verdict(received) == Err::<(), _>(DecryptError::Mac) {
                CryptMetrics { mac_errors: m.mac_errors.wrapping_add(1), ..arrived }
            } else {
                arrived
            }
        }
    }

    /// The state after a datagram was accepted, but for the event counts.
    pub open spec fn after_accepting(self, received: Seq<u8>, now: Instant) -> CryptModel {
        let nonce = self.nonce_of(received);
        let common = CryptModel {
            history: self.history.update(received[0] as int, second_byte(nonce)),
            good: self.good.wrapping_add(1),
            last_good: now,
            reset_attempts: 0,
            ..self
        };
        match self.arrival(received) {
            Arrival::Ahead { skipped } => CryptModel {
                decrypt_nonce: nonce,
                lost: self.lost.wrapping_add(skipped as u32),
                ..common
            },
            _ => CryptModel {
                late: self.late.wrapping_add(1),
                lost: self.lost.wrapping_sub(1),
                ..common
            },
        }
    }

    /// The state after a datagram was received, accepted or not.
    pub open spec fn after_decrypt(self, received: Seq<u8>, now: Instant) -> CryptModel {
        CryptModel {
            metrics: self.metrics_after(received),
            ..if self.verdict(received) is Ok {
                self.after_accepting(received, now)
            } else {
                self
            }
        }
    }
}

} // verus!
