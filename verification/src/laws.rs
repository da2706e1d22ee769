//! What holds across operations: of two ends of a connection, and of a state
//! over time.

use bytes::BytesMut;
use ring::error::Unspecified;
use std::time::Instant;
use vstd::arithmetic::div_mod::{lemma_fundamental_div_mod, lemma_mod_multiples_vanish};
use vstd::prelude::*;

use crate::block::{
    be_bytes, be_value, law_bytes_are_digits, le_bytes, le_value, lemma_value_of_bytes, BLOCK_SIZE,
};
use crate::buffer::contents;
use crate::cipher::{aes128_decrypted, aes128_encrypted, KEY_SIZE};
use crate::clock::{law_backoff_in_seconds, nanos_between};
use crate::crypt::{CryptSetup, CryptState};
use crate::entropy::drawn;
use crate::error::{DecryptError, KeyError};
use crate::metrics::CryptMetrics;
use crate::model::CryptModel;
use crate::ocb::{
    law_opening_undoes_sealing, law_sealing_undoes_opening, ocb_tag, opened_text, sealed_text,
};
use crate::order::{machine_order, nonce_block, ByteOrder};
use crate::window::{
    distance, law_arrival, law_last_byte_identifies_nonce, low_byte, nearest, recorded,
    second_byte, Arrival,
};

verus! {

/// Every operation keeps a state valid.
pub proof fn law_validity_is_kept(
    state: CryptModel,
    received: Seq<u8>,
    nonce: Seq<u8>,
    now: Instant,
    later: Instant,
)
    requires
        state.valid(),
    ensures
        state.after_encrypt().valid(),
        state.after_decrypt(received, now).valid(),
        state.after_reset(now, later).valid(),
        state.after_resync(nonce).valid(),
        (CryptModel { reset_attempts: 0, ..state }).valid(),
{
}

/// 2^32: the statistics count modulo this.
pub open spec fn counter_range() -> int {
    0x1_0000_0000int
}

/// 2^64: the events count modulo this.
pub open spec fn event_range() -> int {
    0x1_0000_0000_0000_0000int
}

/// A new state has one key, for the cipher and to be told. It sends from nonce 0 on
/// and receives from 2^127 on, has accepted nothing, and counted nothing.
pub proof fn law_new_state(key: Seq<u8>, order: ByteOrder, last_good: Instant, last_reset: Instant)
    ensures
        ({
            let state = CryptModel::initial(key, order, last_good, last_reset);
            &&& state.key == key
            &&& state.cipher_key == key
            &&& state.order == order
            &&& state.encrypt_nonce == 0
            &&& state.decrypt_nonce == 0x8000_0000_0000_0000_0000_0000_0000_0000
            &&& state.history.len() == 256
            &&& forall|i: int| 0 <= i < 256 ==> #[trigger] state.history[i] == 0
            &&& state.good == 0 && state.late == 0 && state.lost == 0 && state.resync == 0
            &&& state.remote_good == 0 && state.remote_late == 0
            &&& state.remote_lost == 0 && state.remote_resync == 0
            &&& state.last_good == last_good
            &&& state.last_reset == last_reset
            &&& state.reset_attempts == 0
            &&& state.metrics.resets == 0 && state.metrics.repeat_errors == 0
            &&& state.metrics.too_late_errors == 0 && state.metrics.mac_errors == 0
            &&& state.metrics.nonce_wraps == 0 && state.metrics.late_packets == 0
            &&& state.metrics.lost_packets == 0
        }),
{
}

/// A reset takes any state back to nonce 0 for sending and 2^127 for receiving, with
/// nothing on record and all statistics at zero. Keys and byte order stay. The reset
/// itself is counted, and its time is noted.
pub proof fn law_reset(state: CryptModel, last_good: Instant, last_reset: Instant)
    ensures
        ({
            let after = state.after_reset(last_good, last_reset);
            &&& after.key == state.key
            &&& after.cipher_key == state.cipher_key
            &&& after.order == state.order
            &&& after.encrypt_nonce == 0
            &&& after.decrypt_nonce == 0x8000_0000_0000_0000_0000_0000_0000_0000
            &&& after.history.len() == 256
            &&& forall|i: int| 0 <= i < 256 ==> #[trigger] after.history[i] == 0
            &&& after.good == 0 && after.late == 0 && after.lost == 0 && after.resync == 0
            &&& after.remote_good == 0 && after.remote_late == 0
            &&& after.remote_lost == 0 && after.remote_resync == 0
            &&& after.last_good == last_good
            &&& after.last_reset == last_reset
            &&& after.reset_attempts == (state.reset_attempts + 1) % counter_range()
            &&& after.metrics.resets == (state.metrics.resets + 1) % event_range()
            &&& after.metrics == (CryptMetrics { resets: after.metrics.resets, ..state.metrics })
        }),
{
}

/// Two states with the same keys, byte order, attempts and events are the same after a
/// reset, whatever became of them before.
pub proof fn law_reset_forgets(
    a: CryptModel,
    b: CryptModel,
    last_good: Instant,
    last_reset: Instant,
)
    requires
        a.key == b.key,
        a.cipher_key == b.cipher_key,
        a.order == b.order,
        a.reset_attempts == b.reset_attempts,
        a.metrics == b.metrics,
    ensures
        a.after_reset(last_good, last_reset) == b.after_reset(last_good, last_reset),
{
}

/// A reset is due once more than the wait went by since the last one, in whole
/// milliseconds: 1, 2, 4, 8 or 16 seconds after up to four resets in a row, and 30
/// after more. Nothing else decides it.
pub proof fn law_reset_is_due_after_the_wait(state: CryptModel, now: Instant)
    ensures
        ({
            let passed = nanos_between(state.last_reset, now);
            &&& state.reset_attempts == 0 ==> (state.reset_due(now) <==> passed >= 1_001_000_000)
            &&& state.reset_attempts == 1 ==> (state.reset_due(now) <==> passed >= 2_001_000_000)
            &&& state.reset_attempts == 2 ==> (state.reset_due(now) <==> passed >= 4_001_000_000)
            &&& state.reset_attempts == 3 ==> (state.reset_due(now) <==> passed >= 8_001_000_000)
            &&& state.reset_attempts == 4 ==> (state.reset_due(now) <==> passed >= 16_001_000_000)
            &&& state.reset_attempts >= 5 ==> (state.reset_due(now) <==> passed >= 30_001_000_000)
        }),
{
    law_backoff_in_seconds(state.reset_attempts as nat);
}

/// A resync takes over the nonce whose bytes it is given, clears every slot of the
/// history, is counted, and leaves all else as it was.
pub proof fn law_resync(state: CryptModel, nonce: Seq<u8>)
    requires
        nonce.len() == 16,
    ensures
        ({
            let after = state.after_resync(nonce);
            &&& le_bytes(after.decrypt_nonce) == nonce
            &&& after.history.len() == 256
            &&& forall|i: int| 0 <= i < 256 ==> #[trigger] after.history[i] == 0
            &&& after.resync == (state.resync + 1) % counter_range()
            &&& after == (CryptModel {
                decrypt_nonce: after.decrypt_nonce,
                history: after.history,
                resync: after.resync,
                ..state
            })
        }),
{
    law_bytes_are_digits(nonce);
}

/// What is answered after a resync does not depend on the datagrams before it: two
/// states that differ in nonce and history only are the same afterwards.
pub proof fn law_resync_forgets(
    a: CryptModel,
    b: CryptModel,
    nonce: Seq<u8>,
    received: Seq<u8>,
    now: Instant,
)
    requires
        a == (CryptModel { decrypt_nonce: a.decrypt_nonce, history: a.history, ..b }),
    ensures
        a.after_resync(nonce) == b.after_resync(nonce),
        a.after_resync(nonce).verdict(received) == b.after_resync(nonce).verdict(received),
        a.after_resync(nonce).left_over(received) == b.after_resync(nonce).left_over(received),
        a.after_resync(nonce).after_decrypt(received, now) == b.after_resync(nonce).after_decrypt(
            received,
            now,
        ),
{
}

/// Right after a resync, a datagram less than thirty behind is no repetition, unless
/// the second byte of its nonce is zero, as in a slot that was never written to.
pub proof fn law_resync_leaves_no_repetition(
    state: CryptModel,
    nonce: Seq<u8>,
    received: Seq<u8>,
    step: int,
)
    requires
        received.len() >= 4,
        -30 < step <= 0,
        received[0] == (state.after_resync(nonce).decrypt_nonce + step) % 256,
        (((state.after_resync(nonce).decrypt_nonce + step) % nonce_range()) / 256) % 256 != 0,
    ensures
        state.after_resync(nonce).arrival(received) == Arrival::Late,
        state.after_resync(nonce).verdict(received) != Err::<(), _>(DecryptError::Repeat),
{
    let after = state.after_resync(nonce);
    law_arrival(after.decrypt_nonce, after.history, received[0], step);
}

/// Sending a packet takes the next nonce, from 2^128 - 1 back to 0, and changes
/// nothing else. The datagram is the last byte of that nonce, the first three bytes of
/// the tag, and the ciphertext, both of the whole packet under that nonce.
pub proof fn law_sending(state: CryptModel, packet: Seq<u8>)
    ensures
        ({
            let nonce = ((state.encrypt_nonce + 1) % nonce_range()) as u128;
            let start = nonce_block(state.order, nonce);
            let sent = state.next_datagram(packet);
            &&& state.after_encrypt() == (CryptModel { encrypt_nonce: nonce, ..state })
            &&& sent.len() == packet.len() + 4
            &&& sent[0] == nonce % 256
            &&& sent.subrange(1, 4) == be_bytes(ocb_tag(state.cipher_key, start, packet)).take(3)
            &&& sent.skip(4) == sealed_text(state.cipher_key, start, packet)
        }),
{
    let nonce = ((state.encrypt_nonce + 1) % nonce_range()) as u128;
    let start = nonce_block(state.order, nonce);
    let sent = state.next_datagram(packet);
    assert(state.encrypt_nonce.wrapping_add(1) == nonce);
    assert(sent.subrange(1, 4) =~= be_bytes(ocb_tag(state.cipher_key, start, packet)).take(3));
    assert(sent.skip(4) =~= sealed_text(state.cipher_key, start, packet));
}

/// No datagram is accepted, ahead or late, but with the first three bytes of the tag
/// of the text that it decrypts to.
pub proof fn law_acceptance_takes_the_tag(state: CryptModel, received: Seq<u8>)
    requires
        state.verdict(received) is Ok,
    ensures
        received.len() >= 4,
        ({
            let start = nonce_block(state.order, nearest(state.decrypt_nonce, received[0]));
            let text = opened_text(state.cipher_key, start, received.skip(4));
            received.subrange(1, 4) == be_bytes(ocb_tag(state.cipher_key, start, text)).take(3)
        }),
{
}

/// Every answer, with the datagrams that get it. `step` is how far the datagram is
/// ahead of the last one accepted.
pub proof fn law_verdict(state: CryptModel, received: Seq<u8>, step: int)
    requires
        -128 <= step <= 127,
        received.len() >= 4 ==> received[0] == (state.decrypt_nonce + step) % 256,
    ensures
        ({
            let nonce = ((state.decrypt_nonce + step) % nonce_range()) as u128;
            let start = nonce_block(state.order, nonce);
            let text = opened_text(state.cipher_key, start, received.skip(4));
            let genuine = received.subrange(1, 4) == be_bytes(
                ocb_tag(state.cipher_key, start, text),
            ).take(3);
            let seen = state.history[received[0] as int] == (nonce / 256) % 256;
            let whole = received.len() >= 4;
            let usable = 0 < step || (-30 < step && !seen);
            let verdict = state.verdict(received);
            &&& verdict == Err::<(), _>(DecryptError::Eof) <==> !whole
            &&& verdict == Err::<(), _>(DecryptError::Late) <==> whole && step <= -30
            &&& verdict == Err::<(), _>(DecryptError::Repeat) <==> whole && -30 < step <= 0 && seen
            &&& verdict == Err::<(), _>(DecryptError::Mac) <==> whole && usable && !genuine
            &&& verdict is Ok <==> whole && usable && genuine
        }),
{
    if received.len() >= 4 {
        law_arrival(state.decrypt_nonce, state.history, received[0], step);
    }
}

/// What is left in the buffer: all of a datagram that is too short, the decrypted text
/// where decryption was tried, and else the ciphertext.
pub proof fn law_left_over(state: CryptModel, received: Seq<u8>, step: int)
    requires
        -128 <= step <= 127,
        received.len() >= 4 ==> received[0] == (state.decrypt_nonce + step) % 256,
    ensures
        ({
            let nonce = ((state.decrypt_nonce + step) % nonce_range()) as u128;
            let start = nonce_block(state.order, nonce);
            let seen = state.history[received[0] as int] == (nonce / 256) % 256;
            let usable = 0 < step || (-30 < step && !seen);
            let left = state.left_over(received);
            &&& received.len() < 4 ==> left == received
            &&& received.len() >= 4 && usable ==> left == opened_text(
                state.cipher_key,
                start,
                received.skip(4),
            )
            &&& received.len() >= 4 && !usable ==> left == received.skip(4)
        }),
{
    law_verdict(state, received, step);
    if received.len() >= 4 {
        law_arrival(state.decrypt_nonce, state.history, received[0], step);
    }
}

/// What an accepted datagram does to the state. Its slot of the history holds the
/// second byte of its nonce. The nonce for receiving moves on to the datagram's, or
/// stays where the datagram is late. Skipped datagrams count as lost, and a late one
/// makes up for one of them.
pub proof fn law_acceptance(state: CryptModel, received: Seq<u8>, now: Instant, step: int)
    requires
        state.valid(),
        state.verdict(received) is Ok,
        -128 <= step <= 127,
        received[0] == (state.decrypt_nonce + step) % 256,
    ensures
        ({
            let nonce = ((state.decrypt_nonce + step) % nonce_range()) as u128;
            let after = state.after_decrypt(received, now);
            &&& after.history.len() == 256
            &&& forall|slot: int|
                0 <= slot < 256 && slot != received[0] ==> #[trigger] after.history[slot]
                    == state.history[slot]
            &&& after.history[received[0] as int] == (nonce / 256) % 256
            &&& after.good == (state.good + 1) % counter_range()
            &&& after.last_good == now
            &&& after.reset_attempts == 0
            &&& 0 < step ==> {
                &&& after.decrypt_nonce == nonce
                &&& after.lost == (state.lost + step - 1) % counter_range()
                &&& after.late == state.late
            }
            &&& step <= 0 ==> {
                &&& after.decrypt_nonce == state.decrypt_nonce
                &&& after.lost == (state.lost - 1) % counter_range()
                &&& after.late == (state.late + 1) % counter_range()
            }
            &&& after == (CryptModel {
                history: after.history,
                good: after.good,
                late: after.late,
                lost: after.lost,
                last_good: after.last_good,
                reset_attempts: after.reset_attempts,
                decrypt_nonce: after.decrypt_nonce,
                metrics: after.metrics,
                ..state
            })
        }),
{
    law_verdict(state, received, step);
    law_arrival(state.decrypt_nonce, state.history, received[0], step);
}

/// The events that a datagram counts as, accepted or not: those it skipped, a jump of
/// more than a hundred, a late one, and each reason for a refusal but that it is short.
pub proof fn law_events(state: CryptModel, received: Seq<u8>, now: Instant, step: int)
    requires
        -128 <= step <= 127,
        received.len() >= 4 ==> received[0] == (state.decrypt_nonce + step) % 256,
    ensures
        ({
            let nonce = ((state.decrypt_nonce + step) % nonce_range()) as u128;
            let seen = state.history[received[0] as int] == (nonce / 256) % 256;
            let whole = received.len() >= 4;
            let verdict = state.verdict(received);
            let before = state.metrics;
            let after = state.after_decrypt(received, now).metrics;
            &&& after.resets == before.resets
            &&& after.lost_packets == if whole && 0 < step {
                (before.lost_packets + step - 1) % event_range()
            } else {
                before.lost_packets as int
            }
            &&& after.nonce_wraps == if whole && 100 < step {
                (before.nonce_wraps + 1) % event_range()
            } else {
                before.nonce_wraps as int
            }
            &&& after.late_packets == if whole && -30 < step <= 0 && !seen {
                (before.late_packets + 1) % event_range()
            } else {
                before.late_packets as int
            }
            &&& after.repeat_errors == if verdict == Err::<(), _>(DecryptError::Repeat) {
                (before.repeat_errors + 1) % event_range()
            } else {
                before.repeat_errors as int
            }
            &&& after.too_late_errors == if verdict == Err::<(), _>(DecryptError::Late) {
                (before.too_late_errors + 1) % event_range()
            } else {
                before.too_late_errors as int
            }
            &&& after.mac_errors == if verdict == Err::<(), _>(DecryptError::Mac) {
                (before.mac_errors + 1) % event_range()
            } else {
                before.mac_errors as int
            }
        }),
{
    law_verdict(state, received, step);
    if received.len() >= 4 {
        law_arrival(state.decrypt_nonce, state.history, received[0], step);
    }
}

/// What one end sends, the other end receives: a datagram whose nonce is in the
/// receiver's window, and not on record there, is accepted, and the packet that
/// was put in comes out. The two ends need the same cipher key and byte order.
pub proof fn law_delivery(sender: CryptModel, receiver: CryptModel, packet: Seq<u8>, step: int)
    requires
        receiver.valid(),
        sender.cipher_key == receiver.cipher_key,
        sender.order == receiver.order,
        -30 < step <= 127,
        sender.encrypt_nonce.wrapping_add(1) == receiver.decrypt_nonce.wrapping_add_signed(
            step as i128,
        ),
        step <= 0 ==> !recorded(
            receiver.history,
            receiver.decrypt_nonce,
            low_byte(sender.encrypt_nonce.wrapping_add(1)),
        ),
    ensures
        receiver.verdict(sender.next_datagram(packet)) is Ok,
        receiver.left_over(sender.next_datagram(packet)) == packet,
        receiver.nonce_of(sender.next_datagram(packet)) == sender.encrypt_nonce.wrapping_add(1),
        step > 0 ==> receiver.arrival(sender.next_datagram(packet)) == (Arrival::Ahead {
            skipped: (step - 1) as u8,
        }),
        step <= 0 ==> receiver.arrival(sender.next_datagram(packet)) == Arrival::Late,
{
    let key = sender.cipher_key;
    let nonce = sender.encrypt_nonce.wrapping_add(1);
    let start = nonce_block(sender.order, nonce);
    let sent = sender.next_datagram(packet);
    assert(sent[0] == low_byte(nonce));
    law_last_byte_identifies_nonce(receiver.decrypt_nonce, step);
    assert(sent.skip(4) =~= sealed_text(key, start, packet));
    assert(sent.subrange(1, 4) =~= be_bytes(ocb_tag(key, start, packet)).take(3));
    law_opening_undoes_sealing(key, start, packet);
}

/// What one end encrypts in place, the other end decrypts in place, and the other
/// way round, with the same tag each time, where the nonce of the one for sending
/// is that of the other for receiving. The two ends need the same cipher key and
/// byte order.
pub proof fn law_sealing_and_opening_undo_one_another(
    sender: CryptModel,
    receiver: CryptModel,
    text: Seq<u8>,
)
    requires
        receiver.valid(),
        sender.cipher_key == receiver.cipher_key,
        sender.order == receiver.order,
        sender.encrypt_nonce == receiver.decrypt_nonce,
    ensures
        ({
            let sending = nonce_block(sender.order, sender.encrypt_nonce);
            let receiving = nonce_block(receiver.order, receiver.decrypt_nonce);
            let sealed = sealed_text(sender.cipher_key, sending, text);
            let opened = opened_text(receiver.cipher_key, receiving, text);
            &&& sealed.len() == opened.len() == text.len()
            &&& opened_text(receiver.cipher_key, receiving, sealed) == text
            &&& ocb_tag(
                receiver.cipher_key,
                receiving,
                opened_text(receiver.cipher_key, receiving, sealed),
            ) == ocb_tag(sender.cipher_key, sending, text)
            &&& sealed_text(sender.cipher_key, sending, opened) == text
            &&& ocb_tag(sender.cipher_key, sending, opened) == ocb_tag(
                receiver.cipher_key,
                receiving,
                opened,
            )
        }),
{
    let start = nonce_block(sender.order, sender.encrypt_nonce);
    law_opening_undoes_sealing(sender.cipher_key, start, text);
    law_sealing_undoes_opening(sender.cipher_key, start, text);
}

/// Two ends that are in step stay in step: the next datagram is accepted, no
/// datagram counts as lost, and the receiver has caught up with the sender.
pub proof fn law_staying_in_step(
    sender: CryptModel,
    receiver: CryptModel,
    packet: Seq<u8>,
    now: Instant,
)
    requires
        receiver.valid(),
        sender.cipher_key == receiver.cipher_key,
        sender.order == receiver.order,
        sender.encrypt_nonce == receiver.decrypt_nonce,
    ensures
        receiver.verdict(sender.next_datagram(packet)) is Ok,
        receiver.left_over(sender.next_datagram(packet)) == packet,
        sender.after_encrypt().encrypt_nonce == receiver.after_decrypt(
            sender.next_datagram(packet),
            now,
        ).decrypt_nonce,
        receiver.after_decrypt(sender.next_datagram(packet), now).lost == receiver.lost,
        receiver.after_decrypt(sender.next_datagram(packet), now).valid(),
{
    law_delivery(sender, receiver, packet, 1);
}

/// An end that takes over the nonce of the other end is in step with it.
pub proof fn law_resync_brings_in_step(sender: CryptModel, receiver: CryptModel)
    ensures
        receiver.after_resync(le_bytes(sender.encrypt_nonce)).decrypt_nonce
            == sender.encrypt_nonce,
        le_bytes(receiver.after_resync(le_bytes(sender.encrypt_nonce)).decrypt_nonce) == le_bytes(
            sender.encrypt_nonce,
        ),
{
    lemma_value_of_bytes(sender.encrypt_nonce);
}

/// An end that was set up with what `state` tells it is in step with `state`, in
/// both directions. The key that is told has to be the one of the cipher.
pub proof fn law_setup_brings_in_step(state: CryptModel, peer: CryptModel)
    requires
        state.cipher_key == state.key,
        peer.cipher_key == state.key,
        peer.encrypt_nonce == le_value(le_bytes(state.decrypt_nonce)),
        peer.decrypt_nonce == le_value(le_bytes(state.encrypt_nonce)),
    ensures
        peer.cipher_key == state.cipher_key,
        peer.encrypt_nonce == state.decrypt_nonce,
        state.encrypt_nonce == peer.decrypt_nonce,
{
    lemma_value_of_bytes(state.decrypt_nonce);
    lemma_value_of_bytes(state.encrypt_nonce);
}

/// The sender after `k` packets.
pub open spec fn sender_after(sender: CryptModel, k: nat) -> CryptModel
    decreases k,
{
    if k == 0 {
        sender
    } else {
        sender_after(sender, (k - 1) as nat).after_encrypt()
    }
}

/// The datagrams in which `packets` are sent, each with the time at which it is
/// received.
pub open spec fn stream(
    sender: CryptModel,
    packets: Seq<Seq<u8>>,
    times: Seq<Instant>,
) -> Seq<(Seq<u8>, Instant)> {
    Seq::new(
        packets.len(),
        |i: int| (sender_after(sender, i as nat).next_datagram(packets[i]), times[i]),
    )
}

/// The receiver after the first `k` of some datagrams, each of which comes with
/// the time at which it is received.
pub open spec fn receiver_after(
    receiver: CryptModel,
    received: Seq<(Seq<u8>, Instant)>,
    k: nat,
) -> CryptModel
    decreases k,
{
    if k == 0 {
        receiver
    } else {
        let i = (k - 1) as nat;
        receiver_after(receiver, received, i).after_decrypt(
            received[i as int].0,
            received[i as int].1,
        )
    }
}

/// The `i`th datagram is accepted.
pub open spec fn accepted(
    receiver: CryptModel,
    received: Seq<(Seq<u8>, Instant)>,
    i: nat,
) -> bool {
    receiver_after(receiver, received, i).verdict(received[i as int].0) is Ok
}

/// The nonce that the `i`th datagram is decrypted with.
pub open spec fn nonce_used(
    receiver: CryptModel,
    received: Seq<(Seq<u8>, Instant)>,
    i: nat,
) -> u128 {
    receiver_after(receiver, received, i).nonce_of(received[i as int].0)
}

/// All packets that one end sends come out at the other end, where the two
/// start in step and the datagrams are delivered in order.
pub proof fn law_stream_is_delivered(
    sender: CryptModel,
    receiver: CryptModel,
    packets: Seq<Seq<u8>>,
    times: Seq<Instant>,
    i: nat,
)
    requires
        receiver.valid(),
        sender.cipher_key == receiver.cipher_key,
        sender.order == receiver.order,
        sender.encrypt_nonce == receiver.decrypt_nonce,
        i < packets.len(),
    ensures
        ({
            let received = stream(sender, packets, times);
            &&& accepted(receiver, received, i)
            &&& receiver_after(receiver, received, i).left_over(received[i as int].0)
                == packets[i as int]
        }),
{
    lemma_in_step(sender, receiver, packets, times, i);
    law_staying_in_step(
        sender_after(sender, i),
        receiver_after(receiver, stream(sender, packets, times), i),
        packets[i as int],
        times[i as int],
    );
}

proof fn lemma_in_step(
    sender: CryptModel,
    receiver: CryptModel,
    packets: Seq<Seq<u8>>,
    times: Seq<Instant>,
    k: nat,
)
    requires
        receiver.valid(),
        sender.cipher_key == receiver.cipher_key,
        sender.order == receiver.order,
        sender.encrypt_nonce == receiver.decrypt_nonce,
        k <= packets.len(),
    ensures
        ({
            let s = sender_after(sender, k);
            let r = receiver_after(receiver, stream(sender, packets, times), k);
            &&& r.valid()
            &&& s.cipher_key == r.cipher_key
            &&& s.order == r.order
            &&& s.encrypt_nonce == r.decrypt_nonce
        }),
    decreases k,
{
    if k > 0 {
        let i = (k - 1) as nat;
        lemma_in_step(sender, receiver, packets, times, i);
        law_staying_in_step(
            sender_after(sender, i),
            receiver_after(receiver, stream(sender, packets, times), i),
            packets[i as int],
            times[i as int],
        );
    }
}

/// A sender uses no nonce twice, up to 2^128 packets.
pub proof fn law_sender_uses_each_nonce_once(sender: CryptModel, i: nat, j: nat)
    requires
        i < j,
        j - i <= u128::MAX,
    ensures
        sender_after(sender, i).encrypt_nonce != sender_after(sender, j).encrypt_nonce,
{
    lemma_sender_nonce(sender, i);
    lemma_sender_nonce(sender, j);
    if sender_after(sender, i).encrypt_nonce == sender_after(sender, j).encrypt_nonce {
        lemma_same_residue(sender.encrypt_nonce + i, sender.encrypt_nonce + j);
    }
}

/// 2^128: nonces count modulo this.
pub open spec fn nonce_range() -> int {
    0x1_0000_0000_0000_0000_0000_0000_0000_0000int
}

proof fn lemma_sender_nonce(sender: CryptModel, k: nat)
    ensures
        sender_after(sender, k).encrypt_nonce == (sender.encrypt_nonce + k) % nonce_range(),
    decreases k,
{
    if k > 0 {
        lemma_sender_nonce(sender, (k - 1) as nat);
    }
}

proof fn lemma_same_residue(a: int, b: int)
    requires
        a % nonce_range() == b % nonce_range(),
        -nonce_range() < a - b < nonce_range(),
    ensures
        a == b,
{
}

/// A datagram that is not accepted leaves no trace but in the event counts.
pub proof fn law_refusal_leaves_no_trace(state: CryptModel, received: Seq<u8>, now: Instant)
    requires
        state.verdict(received) is Err,
    ensures
        state.after_decrypt(received, now) == (CryptModel {
            metrics: state.after_decrypt(received, now).metrics,
            ..state
        }),
{
}

/// Right after a datagram was accepted, it is refused as a repetition, and so is
/// any other one with the same first byte.
pub proof fn law_repetition_is_refused(
    state: CryptModel,
    first: Seq<u8>,
    second: Seq<u8>,
    now: Instant,
)
    requires
        state.valid(),
        state.verdict(first) is Ok,
        second.len() >= 4,
        second[0] == first[0],
    ensures
        state.after_decrypt(first, now).verdict(second) == Err::<(), _>(DecryptError::Repeat),
{
}

/// Of the datagrams that were skipped, one that comes late makes up for having
/// been counted as lost.
pub proof fn law_late_arrival_is_not_lost(
    state: CryptModel,
    newer: Seq<u8>,
    older: Seq<u8>,
    skipped: u8,
    now: Instant,
    later: Instant,
)
    requires
        skipped >= 1,
        state.verdict(newer) is Ok,
        state.arrival(newer) == (Arrival::Ahead { skipped }),
        state.after_decrypt(newer, now).verdict(older) is Ok,
        state.after_decrypt(newer, now).arrival(older) is Late,
    ensures
        ({
            let end = state.after_decrypt(newer, now).after_decrypt(older, later);
            &&& end.lost == state.lost.wrapping_add((skipped - 1) as u32)
            &&& end.good == state.good.wrapping_add(1).wrapping_add(1)
            &&& end.late == state.late.wrapping_add(1)
            &&& end.decrypt_nonce == state.nonce_of(newer)
        }),
{
}

/// How far the `i`th datagram is ahead of those accepted before it.
spec fn step(receiver: CryptModel, received: Seq<(Seq<u8>, Instant)>, i: nat) -> int {
    distance(receiver_after(receiver, received, i).decrypt_nonce, received[i as int].0[0])
}

/// How far the receiver got with `k` datagrams, on a scale that does not wrap.
spec fn position(receiver: CryptModel, received: Seq<(Seq<u8>, Instant)>, k: nat) -> int
    decreases k,
{
    if k == 0 {
        receiver.decrypt_nonce as int
    } else {
        let i = (k - 1) as nat;
        let before = position(receiver, received, i);
        if accepted(receiver, received, i) && step(receiver, received, i) > 0 {
            before + step(receiver, received, i)
        } else {
            before
        }
    }
}

/// Where the `i`th datagram belongs, on the same scale.
spec fn place(receiver: CryptModel, received: Seq<(Seq<u8>, Instant)>, i: nat) -> int {
    position(receiver, received, i) + step(receiver, received, i)
}

/// The scale agrees with the nonces, and has room for what was received.
proof fn lemma_position(receiver: CryptModel, received: Seq<(Seq<u8>, Instant)>, k: nat)
    requires
        receiver.valid(),
    ensures
        receiver_after(receiver, received, k).valid(),
        receiver_after(receiver, received, k).decrypt_nonce == position(receiver, received, k)
            % nonce_range(),
        receiver.decrypt_nonce <= position(receiver, received, k) <= receiver.decrypt_nonce + 127
            * k,
    decreases k,
{
    if k > 0 {
        lemma_position(receiver, received, (k - 1) as nat);
    }
}

/// On a scale that does not wrap, the nearest nonce is as far away as it is in
/// the window.
proof fn lemma_nearest_on_scale(nonce: u128, low: u8, at: int)
    requires
        nonce == at % nonce_range(),
    ensures
        nearest(nonce, low) == (at + distance(nonce, low)) % nonce_range(),
        (at + distance(nonce, low)) % 256 == low,
        nearest(nonce, low) % 256 == low,
{
    let turns = at / nonce_range();
    let ahead = nonce + distance(nonce, low);
    lemma_fundamental_div_mod(at, nonce_range());
    lemma_mod_multiples_vanish(turns, ahead, nonce_range());
    assert(ahead % 256 == low) by {
        lemma_distance(nonce, low);
    }
    let blocks = turns * 0x100_0000_0000_0000_0000_0000_0000_0000;
    assert(256 * blocks + ahead == at + distance(nonce, low));
    lemma_mod_multiples_vanish(blocks, ahead, 256);
    assert(nearest(nonce, low) == if ahead < 0 {
        ahead + nonce_range()
    } else if ahead < nonce_range() {
        ahead
    } else {
        ahead - nonce_range()
    });
}

/// Counting on from a nonce by its distance from a last byte leads to that byte.
proof fn lemma_distance(nonce: u128, low: u8)
    ensures
        (nonce + distance(nonce, low)) % 256 == low,
        -128 <= distance(nonce, low) <= 127,
{
}

/// A datagram is decrypted with the nonce of its place.
proof fn lemma_place(receiver: CryptModel, received: Seq<(Seq<u8>, Instant)>, i: nat)
    requires
        receiver.valid(),
    ensures
        nonce_used(receiver, received, i) == place(receiver, received, i) % nonce_range(),
        place(receiver, received, i) % 256 == received[i as int].0[0],
        nonce_used(receiver, received, i) % 256 == received[i as int].0[0],
        accepted(receiver, received, i) ==> {
            &&& -30 < step(receiver, received, i) <= 127
            &&& place(receiver, received, i) <= position(receiver, received, i + 1)
        },
{
    lemma_position(receiver, received, i);
    lemma_nearest_on_scale(
        receiver_after(receiver, received, i).decrypt_nonce,
        received[i as int].0[0],
        position(receiver, received, i),
    );
}

proof fn lemma_position_grows(
    receiver: CryptModel,
    received: Seq<(Seq<u8>, Instant)>,
    i: nat,
    k: nat,
)
    requires
        i <= k,
    ensures
        position(receiver, received, i) <= position(receiver, received, k),
    decreases k,
{
    if i < k {
        lemma_position_grows(receiver, received, i, (k - 1) as nat);
    }
}

/// What a datagram does to a slot of the history.
proof fn lemma_slot_after(state: CryptModel, received: Seq<u8>, now: Instant, slot: u8)
    requires
        state.valid(),
    ensures
        state.after_decrypt(received, now).history[slot as int] == if state.verdict(received) is Ok
            && received[0] == slot {
            second_byte(state.nonce_of(received))
        } else {
            state.history[slot as int]
        },
{
}

/// Two places less than a window apart that share the last byte are one.
proof fn lemma_same_place(a: int, b: int)
    requires
        a % 256 == b % 256,
        -256 < a - b < 256,
    ensures
        a == b,
{
}

/// An accepted datagram stays on record for as long as it is in the window.
proof fn lemma_on_record(receiver: CryptModel, received: Seq<(Seq<u8>, Instant)>, i: nat, k: nat)
    requires
        receiver.valid(),
        accepted(receiver, received, i),
        i < k,
        position(receiver, received, k) - 30 < place(receiver, received, i),
    ensures
        receiver_after(receiver, received, k).history[received[i as int].0[0] as int]
            == second_byte(nonce_used(receiver, received, i)),
    decreases k,
{
    let last = (k - 1) as nat;
    lemma_position(receiver, received, last);
    lemma_slot_after(
        receiver_after(receiver, received, last),
        received[last as int].0,
        received[last as int].1,
        received[i as int].0[0],
    );
    if i < last {
        lemma_place(receiver, received, i);
        lemma_place(receiver, received, last);
        lemma_position_grows(receiver, received, last, k);
        lemma_position_grows(receiver, received, i + 1, last);
        lemma_on_record(receiver, received, i, last);
        if accepted(receiver, received, last) && received[last as int].0[0]
            == received[i as int].0[0] {
            lemma_same_place(place(receiver, received, i), place(receiver, received, last));
        }
    }
}

/// A receiver accepts no nonce twice, however the datagrams are ordered, delayed
/// or repeated, up to 2^121 of them between two resynchronisations.
pub proof fn law_no_nonce_is_accepted_twice(
    receiver: CryptModel,
    received: Seq<(Seq<u8>, Instant)>,
    i: nat,
    j: nat,
)
    requires
        receiver.valid(),
        i < j < received.len(),
        received.len() <= 0x200_0000_0000_0000_0000_0000_0000_0000,
        accepted(receiver, received, i),
        accepted(receiver, received, j),
    ensures
        nonce_used(receiver, received, i) != nonce_used(receiver, received, j),
{
    if nonce_used(receiver, received, i) == nonce_used(receiver, received, j) {
        lemma_place(receiver, received, i);
        lemma_place(receiver, received, j);
        lemma_position(receiver, received, i);
        lemma_position(receiver, received, j);
        lemma_same_residue(place(receiver, received, i), place(receiver, received, j));
        lemma_position_grows(receiver, received, i + 1, j);
        lemma_on_record(receiver, received, i, j);
        assert(receiver_after(receiver, received, j).arrival(received[j as int].0)
            == Arrival::Repeat);
    }
}

/// A datagram that was accepted is answered as a repetition whenever it is
/// received again while its nonce is less than thirty behind, whatever came in
/// between, up to 2^121 datagrams.
pub proof fn law_repetition_in_window_is_refused(
    receiver: CryptModel,
    received: Seq<(Seq<u8>, Instant)>,
    i: nat,
)
    requires
        receiver.valid(),
        i < received.len(),
        received.len() <= 0x200_0000_0000_0000_0000_0000_0000_0000,
        accepted(receiver, received, i),
        receiver_after(receiver, received, received.len()).decrypt_nonce.wrapping_sub(
            nonce_used(receiver, received, i),
        ) < 30,
    ensures
        receiver_after(receiver, received, received.len()).verdict(received[i as int].0)
            == Err::<(), _>(DecryptError::Repeat),
{
    let k = received.len();
    let end = receiver_after(receiver, received, k);
    let nonce = nonce_used(receiver, received, i);
    let behind = end.decrypt_nonce.wrapping_sub(nonce) as int;
    lemma_place(receiver, received, i);
    lemma_position(receiver, received, i);
    lemma_position(receiver, received, k);
    lemma_position_grows(receiver, received, i + 1, k);
    lemma_gap(position(receiver, received, k), place(receiver, received, i));
    lemma_on_record(receiver, received, i, k);
    assert(end.decrypt_nonce.wrapping_add_signed(-behind as i128) == nonce);
    law_last_byte_identifies_nonce(end.decrypt_nonce, -behind);
}

/// A gap that is less than the range of the nonces shows in their difference.
proof fn lemma_gap(ahead: int, behind: int)
    requires
        0 <= ahead - behind < nonce_range(),
    ensures
        ahead - behind == if ahead % nonce_range() >= behind % nonce_range() {
            ahead % nonce_range() - behind % nonce_range()
        } else {
            ahead % nonce_range() - behind % nonce_range() + nonce_range()
        },
{
}

/// Whatever makes a state makes a new one, from the key that it is given or drew, and
/// with the clock and the byte order of the machine where it is given none.
pub proof fn law_calls_that_make_a_state()
    ensures
        forall|key: [u8; KEY_SIZE], r: CryptState| #[trigger]
            call_ensures(CryptState::with_key, (key,), r) ==> {
                &&& r@ == CryptModel::initial(key@, r@.order, r@.last_good, r@.last_reset)
                &&& r@.valid()
                &&& machine_order(r@.order)
                &&& call_ensures(Instant::now, (), r@.last_good)
                &&& call_ensures(Instant::now, (), r@.last_reset)
            },
        forall|
            key: [u8; KEY_SIZE],
            order: ByteOrder,
            last_good: Instant,
            last_reset: Instant,
            r: CryptState,
        | #[trigger]
            call_ensures(CryptState::with_key_at, (key, order, last_good, last_reset), r) ==> {
                &&& r@ == CryptModel::initial(key@, order, last_good, last_reset)
                &&& r@.valid()
            },
        forall|
            key: [u8; KEY_SIZE],
            filled: Result<(), Unspecified>,
            r: Result<CryptState, KeyError>,
        | #[trigger]
            call_ensures(CryptState::from_filled, (key, filled), r) ==> match r {
                Ok(state) => {
                    &&& filled is Ok
                    &&& state@ == CryptModel::initial(
                        key@,
                        state@.order,
                        state@.last_good,
                        state@.last_reset,
                    )
                    &&& state@.valid()
                    &&& machine_order(state@.order)
                    &&& call_ensures(Instant::now, (), state@.last_good)
                    &&& call_ensures(Instant::now, (), state@.last_reset)
                },
                Err(e) => filled is Err && e == KeyError::NoRandomness,
            },
        forall|r: Result<CryptState, KeyError>| #[trigger]
            call_ensures(CryptState::generate, (), r) ==> exists|
                outcome: Result<[u8; KEY_SIZE], Unspecified>,
            |
                {
                    &&& #[trigger] drawn(outcome)
                    &&& match (outcome, r) {
                        (Ok(key), Ok(state)) => {
                            &&& state@ == CryptModel::initial(
                                key@,
                                state@.order,
                                state@.last_good,
                                state@.last_reset,
                            )
                            &&& state@.valid()
                            &&& machine_order(state@.order)
                            &&& call_ensures(Instant::now, (), state@.last_good)
                            &&& call_ensures(Instant::now, (), state@.last_reset)
                        },
                        (Err(_), Err(e)) => e == KeyError::NoRandomness,
                        _ => false,
                    }
                },
{
}

/// A reset and a resync change a state as `law_reset` and `law_resync` say, and the
/// times of a reset are read off the clock where none are given.
pub proof fn law_calls_that_start_over()
    ensures
        forall|state: &mut CryptState, last_good: Instant, last_reset: Instant| #[trigger]
            call_ensures(CryptState::reset_at, (state, last_good, last_reset), ()) ==> {
                final(state)@ == state@.after_reset(last_good, last_reset)
            },
        forall|state: &mut CryptState| #[trigger]
            call_ensures(CryptState::reset, (state,), ()) ==> {
                &&& call_ensures(Instant::now, (), final(state)@.last_good)
                &&& call_ensures(Instant::now, (), final(state)@.last_reset)
                &&& final(state)@ == state@.after_reset(
                    final(state)@.last_good,
                    final(state)@.last_reset,
                )
            },
        forall|state: &mut CryptState, nonce: &[u8]| #[trigger]
            call_ensures(CryptState::set_decrypt_nonce, (state, nonce), ()) ==> final(state)@
                == state@.after_resync(nonce@),
        forall|state: &mut CryptState| #[trigger]
            call_ensures(CryptState::reset_attempt_counter, (state,), ()) ==> final(state)@ == (
            CryptModel { reset_attempts: 0, ..state@ }),
{
}

/// Whether a reset is allowed is decided at the time given, or else at a reading of the
/// clock.
pub proof fn law_calls_that_allow_a_reset()
    ensures
        forall|state: &CryptState, now: Instant, r: bool| #[trigger]
            call_ensures(CryptState::should_allow_reset_at, (state, now), r) ==> r
                == state@.reset_due(now),
        forall|state: &CryptState, r: bool| #[trigger]
            call_ensures(CryptState::should_allow_reset, (state,), r) ==> exists|now: Instant|
                {
                    &&& call_ensures(Instant::now, (), now)
                    &&& r == #[trigger] state@.reset_due(now)
                },
{
}

/// A packet is sent as `law_sending` says, and a datagram is received as `law_verdict`,
/// `law_left_over`, `law_acceptance`, `law_refusal_leaves_no_trace` and `law_events` say.
/// The time of an acceptance is read off the clock where none is given.
pub proof fn law_calls_that_send_and_receive()
    ensures
        forall|state: &mut CryptState, packet: &[u8], dst: &mut BytesMut| #[trigger]
            call_ensures(CryptState::encrypt, (state, packet, dst), ()) ==> {
                &&& final(state)@ == state@.after_encrypt()
                &&& contents(*final(dst)) == state@.next_datagram(packet@)
            },
        forall|
            state: &mut CryptState,
            buf: &mut BytesMut,
            now: Instant,
            r: Result<(), DecryptError>,
        | #[trigger]
            call_ensures(CryptState::decrypt_at, (state, buf, now), r) ==> {
                &&& r == state@.verdict(contents(*buf))
                &&& contents(*final(buf)) == state@.left_over(contents(*buf))
                &&& final(state)@ == state@.after_decrypt(contents(*buf), now)
            },
        forall|state: &mut CryptState, buf: &mut BytesMut, r: Result<(), DecryptError>| #[trigger]
            call_ensures(CryptState::decrypt, (state, buf), r) ==> {
                &&& r == state@.verdict(contents(*buf))
                &&& contents(*final(buf)) == state@.left_over(contents(*buf))
                &&& final(state)@ == state@.after_decrypt(
                    contents(*buf),
                    final(state)@.last_good,
                )
                &&& r is Ok ==> call_ensures(Instant::now, (), final(state)@.last_good)
            },
{
}

/// A buffer is encrypted under the nonce for sending and decrypted under the one for
/// receiving, with the tag of the plain text either way. Blocks go through the cipher
/// of the state.
pub proof fn law_calls_of_the_cipher()
    ensures
        forall|state: &CryptState, buf: &mut [u8], tag: u128| #[trigger]
            call_ensures(CryptState::ocb_encrypt, (state, buf), tag) ==> {
                let start = nonce_block(state@.order, state@.encrypt_nonce);
                &&& final(buf)@ == sealed_text(state@.cipher_key, start, buf@)
                &&& tag == ocb_tag(state@.cipher_key, start, buf@)
            },
        forall|state: &CryptState, buf: &mut [u8], tag: u128| #[trigger]
            call_ensures(CryptState::ocb_decrypt, (state, buf), tag) ==> {
                let start = nonce_block(state@.order, state@.decrypt_nonce);
                &&& final(buf)@ == opened_text(state@.cipher_key, start, buf@)
                &&& tag == ocb_tag(state@.cipher_key, start, final(buf)@)
            },
        forall|state: &CryptState, data: u128, r: u128| #[trigger]
            call_ensures(CryptState::aes_encrypt, (state, data), r) ==> r == be_value(
                aes128_encrypted(state@.cipher_key, be_bytes(data)),
            ),
        forall|state: &CryptState, data: u128, r: u128| #[trigger]
            call_ensures(CryptState::aes_decrypt, (state, data), r) ==> r == be_value(
                aes128_decrypted(state@.cipher_key, be_bytes(data)),
            ),
{
}

/// The nonces are told as bytes from the lowest to the highest, the one for sending as
/// the server's and the one for receiving as the client's, together with the key.
pub proof fn law_calls_that_tell_the_setup()
    ensures
        forall|state: &CryptState, r: [u8; BLOCK_SIZE]| #[trigger]
            call_ensures(CryptState::get_encrypt_nonce, (state,), r) ==> r@.len() == 16
                && le_value(r@) == state@.encrypt_nonce,
        forall|state: &CryptState, r: [u8; BLOCK_SIZE]| #[trigger]
            call_ensures(CryptState::get_decrypt_nonce, (state,), r) ==> r@.len() == 16
                && le_value(r@) == state@.decrypt_nonce,
        forall|state: &CryptState, r: CryptSetup| #[trigger]
            call_ensures(CryptState::get_crypt_setup, (state,), r) ==> {
                &&& r.key@ == state@.key
                &&& r.server_nonce@.len() == 16 && le_value(r.server_nonce@)
                    == state@.encrypt_nonce
                &&& r.client_nonce@.len() == 16 && le_value(r.client_nonce@)
                    == state@.decrypt_nonce
            },
{
    assert forall|x: u128| le_value(#[trigger] le_bytes(x)) == x by {
        lemma_value_of_bytes(x);
    }
}

/// Taking the event counts gives them out and leaves each at zero.
pub proof fn law_calls_that_take_the_counts()
    ensures
        forall|counts: &mut CryptMetrics, r: CryptMetrics| #[trigger]
            call_ensures(CryptMetrics::take, (counts,), r) ==> {
                &&& r == *counts
                &&& final(counts).resets == 0 && final(counts).repeat_errors == 0
                &&& final(counts).too_late_errors == 0 && final(counts).mac_errors == 0
                &&& final(counts).nonce_wraps == 0 && final(counts).late_packets == 0
                &&& final(counts).lost_packets == 0
            },
{
}

} // verus!
