//! The encryption state of a connection.

use aes::Aes128;
use bytes::BytesMut;
use ring::error::Unspecified;
use std::time::{Duration, Instant};
use vstd::prelude::*;
use vstd::slice::slice_to_vec;

use crate::block::{
    be_bytes, be_value, from_be_bytes, from_le_bytes, le_bytes, lemma_bytes_of_value,
    lemma_xor_bytes, read_bytes, s2, to_be_bytes, to_le_bytes, write_bytes, BLOCK_SIZE,
};
use crate::buffer::{as_mut_slice, as_slice, contents};
use crate::cipher::{cipher_key, decrypt_block, encrypt_block, new_cipher, KEY_SIZE};
use crate::clock::{backoff, clock_reading};
use crate::entropy::{draw_key, drawn, verify_slices_are_equal};
use crate::error::{DecryptError, KeyError};
use crate::metrics::CryptMetrics;
use crate::model::{blank_history, short_tag, CryptModel, INITIAL_DECRYPT_NONCE};
use crate::ocb::{
    deciphered, enciphered, last_block, last_pad, leading_blocks, lemma_opened_block,
    lemma_opened_last_block, lemma_sealed_last_block, ocb_tag, offset, opened_block, opened_text,
    sealed_block, sealed_text, xor_of_blocks, zero_filled,
};
use crate::order::{block_of, machine_order, nonce_block, order_of, ByteOrder};
use crate::window::{
    classify, low_byte_of, nearest_to, second_byte, second_byte_of, Arrival, HISTORY_SIZE,
};

verus! {

/// The part of a state that encrypts and decrypts. It can be made, looked into
/// and changed only here.
pub struct CryptEngine {
    encrypt_nonce: u128,
    decrypt_nonce: u128,
    decrypt_history: [u8; HISTORY_SIZE],
    order: ByteOrder,
    aes: Aes128,
}

impl CryptEngine {
    /// The nonce of the last datagram sent.
    pub closed spec fn encrypt_nonce(&self) -> u128 {
        self.encrypt_nonce
    }

    /// The highest nonce of a datagram accepted.
    pub closed spec fn decrypt_nonce(&self) -> u128 {
        self.decrypt_nonce
    }

    /// For each last byte, the byte above it in the last nonce accepted.
    pub closed spec fn history(&self) -> Seq<u8> {
        self.decrypt_history@
    }

    /// The byte order in which nonces are enciphered.
    pub closed spec fn order(&self) -> ByteOrder {
        self.order
    }

    /// The key that is encrypted and decrypted with.
    pub closed spec fn cipher_key(&self) -> Seq<u8> {
        cipher_key(self.aes)
    }
}

/// The state of one end of a connection: its key, a nonce for each direction,
/// and statistics. Nonces and counters wrap around.
pub struct CryptState {
    /// The key that is told to the other end. The cipher keeps the one it was
    /// made from.
    pub key: [u8; KEY_SIZE],
    /// The cipher, the nonces and the history.
    pub engine: CryptEngine,
    /// Datagrams accepted.
    pub good: u32,
    /// Datagrams accepted that came late.
    pub late: u32,
    /// Datagrams skipped that have not come since.
    pub lost: u32,
    /// How often the other end's nonce was taken over.
    pub resync: u32,
    /// When a datagram was last accepted.
    pub last_good: Instant,
    /// What the other end says of the datagrams that it received.
    pub remote_late: u32,
    pub remote_good: u32,
    pub remote_lost: u32,
    pub remote_resync: u32,
    /// Resets since a datagram was last accepted.
    pub reset_attempts: u32,
    /// When the state was last reset.
    pub last_reset: Instant,
    /// Events that were not reported yet.
    pub metrics: CryptMetrics,
}

/// What the other end is told when a connection is set up.
#[derive(Debug)]
pub struct CryptSetup {
    pub key: Vec<u8>,
    pub client_nonce: Vec<u8>,
    pub server_nonce: Vec<u8>,
}

impl View for CryptState {
    type V = CryptModel;

    open spec fn view(&self) -> CryptModel {
        CryptModel {
            key: self.key@,
            cipher_key: self.engine.cipher_key(),
            order: self.engine.order(),
            encrypt_nonce: self.engine.encrypt_nonce(),
            decrypt_nonce: self.engine.decrypt_nonce(),
            history: self.engine.history(),
            good: self.good,
            late: self.late,
            lost: self.lost,
            resync: self.resync,
            last_good: self.last_good,
            remote_late: self.remote_late,
            remote_good: self.remote_good,
            remote_lost: self.remote_lost,
            remote_resync: self.remote_resync,
            reset_attempts: self.reset_attempts,
            last_reset: self.last_reset,
            metrics: self.metrics,
        }
    }
}

impl CryptState {
    /// Makes a state from a key. It starts now, and has the byte order of the
    /// machine.
    pub fn with_key(key: [u8; KEY_SIZE]) -> (r: CryptState)
        ensures
            r@ == CryptModel::initial(key@, r@.order, r@.last_good, r@.last_reset),
            r@.valid(),
            machine_order(r@.order),
            clock_reading(r@.last_good),
            clock_reading(r@.last_reset),
    {
        let order: ByteOrder = order_of(1u128.to_be());
        CryptState::with_key_at(key, order, Instant::now(), Instant::now())
    }

    /// Makes a state from a key, with the byte order of the machine and the times
    /// that it starts from.
    pub fn with_key_at(
        key: [u8; KEY_SIZE],
        order: ByteOrder,
        last_good: Instant,
        last_reset: Instant,
    ) -> (r: CryptState)
        ensures
            r@ == CryptModel::initial(key@, order, last_good, last_reset),
            r@.valid(),
    {
        let decrypt_history: [u8; HISTORY_SIZE] = [0; HISTORY_SIZE];
        assert(decrypt_history@ =~= blank_history());
        CryptState {
            engine: CryptEngine {
                encrypt_nonce: 0,
                decrypt_nonce: INITIAL_DECRYPT_NONCE,
                decrypt_history,
                order,
                aes: new_cipher(&key),
            },
            key,
            good: 0,
            late: 0,
            lost: 0,
            resync: 0,
            last_good,
            remote_late: 0,
            remote_good: 0,
            remote_lost: 0,
            remote_resync: 0,
            reset_attempts: 0,
            last_reset,
            metrics: CryptMetrics::new(),
        }
    }

    /// Makes a state from a random key, if the system has one to give.
    pub fn generate() -> (r: Result<CryptState, KeyError>)
        ensures
            r matches Ok(s) ==> {
                &&& s@ == CryptModel::initial(s@.key, s@.order, s@.last_good, s@.last_reset)
                &&& s@.valid()
                &&& machine_order(s@.order)
                &&& clock_reading(s@.last_good)
                &&& clock_reading(s@.last_reset)
            },
            r matches Err(e) ==> e == KeyError::NoRandomness,
            exists|outcome: Result<[u8; KEY_SIZE], Unspecified>|
                {
                    &&& #[trigger] drawn(outcome)
                    &&& r is Ok <==> outcome is Ok
                    &&& r matches Ok(s) ==> s@.key == outcome->Ok_0@
                },
    {
        let outcome: Result<[u8; KEY_SIZE], Unspecified> = draw_key();
        match outcome {
            Ok(key) => CryptState::from_filled(key, Ok(())),
            Err(e) => CryptState::from_filled([0; KEY_SIZE], Err(e)),
        }
    }

    /// Makes a state from `key` where `filled` says that the key was filled with
    /// random bytes, and fails where it says that there were none.
    pub fn from_filled(key: [u8; KEY_SIZE], filled: Result<(), Unspecified>) -> (r: Result<
        CryptState,
        KeyError,
    >)
        ensures
            r is Ok <==> filled is Ok,
            r matches Ok(s) ==> {
                &&& s@ == CryptModel::initial(key@, s@.order, s@.last_good, s@.last_reset)
                &&& s@.valid()
                &&& machine_order(s@.order)
                &&& clock_reading(s@.last_good)
                &&& clock_reading(s@.last_reset)
            },
            r matches Err(e) ==> e == KeyError::NoRandomness,
    {
        match filled {
            Ok(()) => Ok(CryptState::with_key(key)),
            Err(_) => Err(KeyError::NoRandomness),
        }
    }

    /// Starts over with the same key: nonces, history and statistics go back to
    /// where they were in the beginning, and the reset is counted.
    pub fn reset(&mut self)
        ensures
            final(self)@ == old(self)@.after_reset(final(self)@.last_good, final(self)@.last_reset),
            clock_reading(final(self)@.last_good),
            clock_reading(final(self)@.last_reset),
    {
        self.reset_at(Instant::now(), Instant::now());
    }

    /// Starts over with the same key, at the times given.
    pub fn reset_at(&mut self, last_good: Instant, last_reset: Instant)
        ensures
            final(self)@ == old(self)@.after_reset(last_good, last_reset),
    {
        self.metrics.resets = self.metrics.resets.wrapping_add(1);

        self.engine.encrypt_nonce = 0;
        self.engine.decrypt_nonce = INITIAL_DECRYPT_NONCE;
        self.engine.decrypt_history = [0; HISTORY_SIZE];
        assert(self.engine.decrypt_history@ =~= blank_history());
        self.good = 0;
        self.late = 0;
        self.lost = 0;
        self.resync = 0;
        self.last_good = last_good;

        self.remote_late = 0;
        self.remote_good = 0;
        self.remote_lost = 0;
        self.remote_resync = 0;

        self.reset_attempts = self.reset_attempts.wrapping_add(1);
        self.last_reset = last_reset;
    }

    /// Tells whether a reset is due now, given how many there were in a row and
    /// when the last one was.
    pub fn should_allow_reset(&self) -> (r: bool)
        ensures
            exists|now: Instant| clock_reading(now) && r == #[trigger] self@.reset_due(now),
    {
        let now: Instant = Instant::now();
        self.should_allow_reset_at(now)
    }

    /// Tells whether a reset is due at `now`.
    pub fn should_allow_reset_at(&self, now: Instant) -> (r: bool)
        ensures
            r == self@.reset_due(now),
    {
        let time_since_last_reset: Duration = now.duration_since(self.last_reset);
        time_since_last_reset.as_millis() > backoff(self.reset_attempts) as u128
    }

    /// Forgets the resets there were in a row.
    pub fn reset_attempt_counter(&mut self)
        ensures
            final(self)@ == (CryptModel { reset_attempts: 0, ..old(self)@ }),
    {
        if self.reset_attempts > 0 {
            self.reset_attempts = 0;
        }
    }

    /// Returns the nonce for sending.
    pub fn get_encrypt_nonce(&self) -> (r: [u8; BLOCK_SIZE])
        ensures
            r@ == le_bytes(self@.encrypt_nonce),
    {
        to_le_bytes(self.engine.encrypt_nonce)
    }

    /// Returns the nonce for receiving.
    pub fn get_decrypt_nonce(&self) -> (r: [u8; BLOCK_SIZE])
        ensures
            r@ == le_bytes(self@.decrypt_nonce),
    {
        to_le_bytes(self.engine.decrypt_nonce)
    }

    /// Takes over the other end's nonce for sending, and forgets the datagrams
    /// that were accepted so far.
    pub fn set_decrypt_nonce(&mut self, nonce: &[u8])
        requires
            nonce@.len() == BLOCK_SIZE,
        ensures
            final(self)@ == old(self)@.after_resync(nonce@),
    {
        let mut bytes: [u8; BLOCK_SIZE] = [0; BLOCK_SIZE];
        read_bytes(nonce, 0, BLOCK_SIZE, &mut bytes);
        assert(bytes@ =~= nonce@);
        self.engine.decrypt_nonce = from_le_bytes(&bytes);
        self.resync = self.resync.wrapping_add(1);
        self.engine.decrypt_history = [0; HISTORY_SIZE];
        assert(self.engine.decrypt_history@ =~= blank_history());
    }

    /// Returns what the other end has to be told.
    pub fn get_crypt_setup(&self) -> (r: CryptSetup)
        ensures
            r.key@ == self@.key,
            r.client_nonce@ == le_bytes(self@.decrypt_nonce),
            r.server_nonce@ == le_bytes(self@.encrypt_nonce),
    {
        CryptSetup {
            key: slice_to_vec(self.key.as_slice()),
            client_nonce: slice_to_vec(self.get_decrypt_nonce().as_slice()),
            server_nonce: slice_to_vec(self.get_encrypt_nonce().as_slice()),
        }
    }

    /// Encrypts an encoded voice packet under the next nonce. `dst` holds the
    /// datagram afterwards, and nothing else.
    pub fn encrypt(&mut self, packet: &[u8], dst: &mut BytesMut)
        requires
            packet@.len() + 4 <= isize::MAX,
        ensures
            final(self)@ == old(self)@.after_encrypt(),
            contents(*final(dst)) == old(self)@.next_datagram(packet@),
    {
        self.engine.encrypt_nonce = self.engine.encrypt_nonce.wrapping_add(1);

        // Leave four bytes for the header.
        dst.resize(4, 0);
        let mut inner: BytesMut = dst.split_off(4);
        inner.extend_from_slice(packet);
        assert(contents(inner) =~= packet@);

        let tag: u128 = self.ocb_encrypt(as_mut_slice(&mut inner));
        dst.unsplit(inner);

        let mut header: [u8; BLOCK_SIZE] = [0; BLOCK_SIZE];
        header[0] = low_byte_of(self.engine.encrypt_nonce);
        let tag_bytes: [u8; BLOCK_SIZE] = to_be_bytes(tag);
        header[1] = tag_bytes[0];
        header[2] = tag_bytes[1];
        header[3] = tag_bytes[2];
        write_bytes(as_mut_slice(dst), 0, 4, &header);
        assert(contents(*dst) =~= old(self)@.next_datagram(packet@));
    }

    /// Decrypts a datagram. Where it is accepted, `buf` holds the encoded voice
    /// packet afterwards.
    pub fn decrypt(&mut self, buf: &mut BytesMut) -> (r: Result<(), DecryptError>)
        ensures
            r == old(self)@.verdict(contents(*old(buf))),
            contents(*final(buf)) == old(self)@.left_over(contents(*old(buf))),
            final(self)@ == old(self)@.after_decrypt(contents(*old(buf)), final(self)@.last_good),
            r is Ok ==> clock_reading(final(self)@.last_good),
    {
        self.decrypt_at(buf, Instant::now())
    }

    /// Decrypts a datagram that is received at `now`. Where it is accepted, `buf`
    /// holds the encoded voice packet afterwards.
    pub fn decrypt_at(&mut self, buf: &mut BytesMut, now: Instant) -> (r: Result<
        (),
        DecryptError,
    >)
        ensures
            r == old(self)@.verdict(contents(*old(buf))),
            contents(*final(buf)) == old(self)@.left_over(contents(*old(buf))),
            final(self)@ == old(self)@.after_decrypt(contents(*old(buf)), now),
    {
        if buf.len() < 4 {
            return Err(DecryptError::Eof);
        }
        let ghost received = contents(*buf);
        let header: BytesMut = buf.split_to(4);
        let header_bytes: &[u8] = as_slice(&header);
        let nonce_0: u8 = header_bytes[0];

        // Put back unless the datagram turns out to be the newest one.
        let saved_nonce: u128 = self.engine.decrypt_nonce;
        let arrival: Arrival = classify(
            self.engine.decrypt_nonce,
            &self.engine.decrypt_history,
            nonce_0,
        );
        match arrival {
            Arrival::Ahead { skipped } => {
                self.metrics.lost_packets = self.metrics.lost_packets.wrapping_add(skipped as u64);
                if skipped >= 100 {
                    self.metrics.nonce_wraps = self.metrics.nonce_wraps.wrapping_add(1);
                }
            },
            Arrival::Late => {
                self.metrics.late_packets = self.metrics.late_packets.wrapping_add(1);
            },
            Arrival::Repeat => {
                self.metrics.repeat_errors = self.metrics.repeat_errors.wrapping_add(1);
                return Err(DecryptError::Repeat);
            },
            Arrival::TooLate => {
                self.metrics.too_late_errors = self.metrics.too_late_errors.wrapping_add(1);
                return Err(DecryptError::Late);
            },
        }

        self.engine.decrypt_nonce = nearest_to(self.engine.decrypt_nonce, nonce_0);
        let tag: u128 = self.ocb_decrypt(as_mut_slice(buf));
        let tag_bytes: [u8; BLOCK_SIZE] = to_be_bytes(tag);
        assert(header_bytes@.subrange(1, 4) =~= received.subrange(1, 4));
        assert(tag_bytes@.subrange(0, 3) =~= short_tag(tag));
        if verify_slices_are_equal(&header_bytes[1..4], &tag_bytes[0..3]).is_err() {
            self.engine.decrypt_nonce = saved_nonce;
            self.metrics.mac_errors = self.metrics.mac_errors.wrapping_add(1);
            return Err(DecryptError::Mac);
        }

        self.accept(nonce_0, arrival, saved_nonce, now);
        Ok(())
    }

    /// Takes note of a datagram that was decrypted with the current nonce for
    /// receiving, and accepted at `now`.
    fn accept(&mut self, nonce_0: u8, arrival: Arrival, saved_nonce: u128, now: Instant)
        ensures
            final(self)@ == (CryptModel {
                history: old(self)@.history.update(
                    nonce_0 as int,
                    second_byte(old(self)@.decrypt_nonce),
                ),
                good: old(self)@.good.wrapping_add(1),
                last_good: now,
                reset_attempts: 0,
                decrypt_nonce: if arrival is Ahead {
                    old(self)@.decrypt_nonce
                } else {
                    saved_nonce
                },
                late: if arrival is Ahead {
                    old(self)@.late
                } else {
                    old(self)@.late.wrapping_add(1)
                },
                lost: if arrival is Ahead {
                    old(self)@.lost.wrapping_add(arrival->skipped as u32)
                } else {
                    old(self)@.lost.wrapping_sub(1)
                },
                ..old(self)@
            }),
    {
        self.engine.decrypt_history[nonce_0 as usize] = second_byte_of(self.engine.decrypt_nonce);
        self.good = self.good.wrapping_add(1);
        self.last_good = now;
        self.reset_attempt_counter();
        match arrival {
            Arrival::Ahead { skipped } => {
                self.lost = self.lost.wrapping_add(skipped as u32);
            },
            _ => {
                self.late = self.late.wrapping_add(1);
                self.lost = self.lost.wrapping_sub(1);
                self.engine.decrypt_nonce = saved_nonce;
            },
        }
    }

    /// Encrypts `buf` in place under the nonce for sending, and returns the tag
    /// of what was in it.
    pub fn ocb_encrypt(&self, buf: &mut [u8]) -> (tag: u128)
        ensures
            final(buf)@ == sealed_text(
                self@.cipher_key,
                nonce_block(self@.order, self@.encrypt_nonce),
                old(buf)@,
            ),
            tag == ocb_tag(
                self@.cipher_key,
                nonce_block(self@.order, self@.encrypt_nonce),
                old(buf)@,
            ),
    {
        let ghost key = self@.cipher_key;
        let ghost start = nonce_block(self@.order, self@.encrypt_nonce);
        let ghost plain_text = old(buf)@;
        let ghost n = leading_blocks(plain_text.len());
        let ghost mut i: nat = 0;
        let len: usize = buf.len();
        let mut pos: usize = 0;
        let mut delta: u128 = self.aes_encrypt(
            block_of(self.engine.order, self.engine.encrypt_nonce),
        );
        let mut checksum: u128 = 0;

        while len - pos > BLOCK_SIZE
            invariant
                key == self@.cipher_key,
                start == nonce_block(self@.order, self@.encrypt_nonce),
                len == buf@.len() == plain_text.len(),
                n == leading_blocks(plain_text.len()),
                pos == 16 * i,
                i <= n,
                pos <= len,
                delta == offset(key, start, i),
                checksum == xor_of_blocks(plain_text, i),
                forall|j: int|
                    0 <= j < pos ==> buf@[j] == sealed_text(key, start, plain_text)[j],
                forall|j: int| pos <= j < len ==> buf@[j] == plain_text[j],
            decreases len - pos,
        {
            delta = s2(delta);
            let mut block: [u8; BLOCK_SIZE] = [0; BLOCK_SIZE];
            read_bytes(buf, pos, BLOCK_SIZE, &mut block);
            assert(block@ =~= plain_text.subrange(16 * (i as int), 16 * (i as int) + 16));
            let plain: u128 = from_be_bytes(&block);
            let encrypted: u128 = self.aes_encrypt(delta ^ plain) ^ delta;
            write_bytes(buf, pos, BLOCK_SIZE, &to_be_bytes(encrypted));
            checksum = checksum ^ plain;
            pos = pos + BLOCK_SIZE;
            proof {
                assert(encrypted == sealed_block(key, start, plain_text, i));
                assert forall|j: int| 0 <= j < pos implies buf@[j] == sealed_text(
                    key,
                    start,
                    plain_text,
                )[j] by {
                    if 16 * i <= j {
                        assert(j / 16 == i);
                    }
                }
                i = i + 1;
            }
        }
        assert(i == n);

        delta = s2(delta);
        let rest: usize = len - pos;
        let pad: u128 = self.aes_encrypt(((rest * 8) as u128) ^ delta);
        let mut block: [u8; BLOCK_SIZE] = to_be_bytes(pad);
        read_bytes(buf, pos, rest, &mut block);
        let plain: u128 = from_be_bytes(&block);
        proof {
            assert(pad == last_pad(key, start, plain_text.len()));
            let filled = Seq::new(
                16,
                |k: int|
                    if k < plain_text.len() - 16 * n {
                        plain_text[16 * n + k]
                    } else {
                        be_bytes(pad)[k]
                    },
            );
            assert(block@ =~= filled);
            assert(plain == last_block(plain_text, pad));
            lemma_sealed_last_block(plain_text, pad);
        }
        let encrypted: u128 = pad ^ plain;
        write_bytes(buf, pos, rest, &to_be_bytes(encrypted));
        assert(buf@ =~= sealed_text(key, start, plain_text));
        checksum = checksum ^ plain;

        self.aes_encrypt(delta ^ s2(delta) ^ checksum)
    }

    /// Decrypts `buf` in place under the nonce for receiving, and returns the
    /// tag of what is then in it. Whether that tag matches is for the caller to
    /// check.
    pub fn ocb_decrypt(&self, buf: &mut [u8]) -> (tag: u128)
        ensures
            final(buf)@ == opened_text(
                self@.cipher_key,
                nonce_block(self@.order, self@.decrypt_nonce),
                old(buf)@,
            ),
            tag == ocb_tag(
                self@.cipher_key,
                nonce_block(self@.order, self@.decrypt_nonce),
                final(buf)@,
            ),
    {
        let ghost key = self@.cipher_key;
        let ghost start = nonce_block(self@.order, self@.decrypt_nonce);
        let ghost cipher_text = old(buf)@;
        let ghost plain_text = opened_text(key, start, cipher_text);
        let ghost n = leading_blocks(cipher_text.len());
        let ghost mut i: nat = 0;
        let len: usize = buf.len();
        let mut pos: usize = 0;
        let mut delta: u128 = self.aes_encrypt(
            block_of(self.engine.order, self.engine.decrypt_nonce),
        );
        let mut checksum: u128 = 0;

        while len - pos > BLOCK_SIZE
            invariant
                key == self@.cipher_key,
                start == nonce_block(self@.order, self@.decrypt_nonce),
                len == buf@.len() == cipher_text.len(),
                plain_text == opened_text(key, start, cipher_text),
                n == leading_blocks(cipher_text.len()),
                pos == 16 * i,
                i <= n,
                pos <= len,
                delta == offset(key, start, i),
                checksum == xor_of_blocks(plain_text, i),
                forall|j: int| 0 <= j < pos ==> buf@[j] == plain_text[j],
                forall|j: int| pos <= j < len ==> buf@[j] == cipher_text[j],
            decreases len - pos,
        {
            delta = s2(delta);
            let mut block: [u8; BLOCK_SIZE] = [0; BLOCK_SIZE];
            read_bytes(buf, pos, BLOCK_SIZE, &mut block);
            assert(block@ =~= cipher_text.subrange(16 * (i as int), 16 * (i as int) + 16));
            let encrypted: u128 = from_be_bytes(&block);
            let plain: u128 = self.aes_decrypt(delta ^ encrypted) ^ delta;
            write_bytes(buf, pos, BLOCK_SIZE, &to_be_bytes(plain));
            checksum = checksum ^ plain;
            pos = pos + BLOCK_SIZE;
            proof {
                assert(plain == opened_block(key, start, cipher_text, i));
                lemma_opened_block(key, start, cipher_text, i);
                assert forall|j: int| 0 <= j < pos implies buf@[j] == plain_text[j] by {
                    if 16 * i <= j {
                        assert(j / 16 == i);
                    }
                }
                i = i + 1;
            }
        }
        assert(i == n);

        delta = s2(delta);
        let rest: usize = len - pos;
        let pad: u128 = self.aes_encrypt(((rest * 8) as u128) ^ delta);
        let mut block: [u8; BLOCK_SIZE] = [0; BLOCK_SIZE];
        read_bytes(buf, pos, rest, &mut block);
        let plain: u128 = from_be_bytes(&block) ^ pad;
        proof {
            assert(pad == last_pad(key, start, cipher_text.len()));
            assert(block@ =~= zero_filled(cipher_text));
            lemma_opened_last_block(key, start, cipher_text);
            lemma_xor_bytes(be_value(zero_filled(cipher_text)), pad);
            lemma_bytes_of_value(zero_filled(cipher_text));
        }
        write_bytes(buf, pos, rest, &to_be_bytes(plain));
        assert(buf@ =~= plain_text);
        checksum = checksum ^ plain;

        self.aes_encrypt(delta ^ s2(delta) ^ checksum)
    }

    /// AES-128 on a block that is held as a number.
    pub fn aes_encrypt(&self, data: u128) -> (r: u128)
        ensures
            r == enciphered(self@.cipher_key, data),
    {
        let mut data_bytes: [u8; BLOCK_SIZE] = to_be_bytes(data);
        encrypt_block(&self.engine.aes, &mut data_bytes);
        from_be_bytes(&data_bytes)
    }

    /// The inverse of AES-128 on a block that is held as a number.
    pub fn aes_decrypt(&self, data: u128) -> (r: u128)
        ensures
            r == deciphered(self@.cipher_key, data),
    {
        let mut data_bytes: [u8; BLOCK_SIZE] = to_be_bytes(data);
        decrypt_block(&self.engine.aes, &mut data_bytes);
        from_be_bytes(&data_bytes)
    }
}

/// Every public field of a state is what its view says, and the history has a
/// slot for each last byte.
pub proof fn law_view_shows_fields(state: CryptState)
    ensures
        state@.key == state.key@,
        state@.key.len() == KEY_SIZE,
        state@.history.len() == HISTORY_SIZE,
        state@.good == state.good,
        state@.late == state.late,
        state@.lost == state.lost,
        state@.resync == state.resync,
        state@.last_good == state.last_good,
        state@.remote_late == state.remote_late,
        state@.remote_good == state.remote_good,
        state@.remote_lost == state.remote_lost,
        state@.remote_resync == state.remote_resync,
        state@.reset_attempts == state.reset_attempts,
        state@.last_reset == state.last_reset,
        state@.metrics == state.metrics,
{
}

} // verus!
