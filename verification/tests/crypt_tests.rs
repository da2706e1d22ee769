use bytes::BytesMut;
use ring::error::Unspecified;
use std::time::{Duration, Instant};
use zumble_crypt::crypt::CryptState;
use zumble_crypt::error::{DecryptError, KeyError};
use zumble_crypt::metrics::CryptMetrics;
use zumble_crypt::order::{block_of, order_of, ByteOrder};

const KEY: [u8; 16] = [0, 1, 2, 3, 4, 5, 6, 7, 8, 9, 10, 11, 12, 13, 14, 15];

/// Two ends with one key, the second in step with what the first sends.
fn pair() -> (CryptState, CryptState) {
    let sender = CryptState::with_key(KEY);
    let mut receiver = CryptState::with_key(KEY);
    receiver.set_decrypt_nonce(&sender.get_encrypt_nonce());
    (sender, receiver)
}

/// A pair that is so far on that late datagrams are not taken for repetitions.
fn seasoned_pair() -> (CryptState, CryptState) {
    let (mut sender, mut receiver) = pair();
    for i in 0..300u32 {
        let mut datagram = send(&mut sender, &i.to_le_bytes());
        assert_eq!(receiver.decrypt(&mut datagram), Ok(()));
    }
    receiver.metrics.take();
    (sender, receiver)
}

fn send(sender: &mut CryptState, packet: &[u8]) -> BytesMut {
    let mut dst = BytesMut::new();
    sender.encrypt(packet, &mut dst);
    dst
}

fn skip(sender: &mut CryptState, count: usize) {
    for _ in 0..count {
        send(sender, b"skipped");
    }
}

#[test]
fn aes_matches_published_vector() {
    let state = CryptState::with_key(KEY);
    let plain = 0x0011_2233_4455_6677_8899_aabb_ccdd_eeff;
    let cipher = 0x69c4_e0d8_6a7b_0430_d8cd_b780_70b4_c55a;
    assert_eq!(state.aes_encrypt(plain), cipher);
    assert_eq!(state.aes_decrypt(cipher), plain);
}

#[test]
fn ocb_decrypts_published_vector() {
    let mut state = CryptState::with_key(KEY);
    state.set_decrypt_nonce(&KEY);
    let mut buf = [
        0xF7, 0x5D, 0x6B, 0xC8, 0xB4, 0xDC, 0x8D, 0x66, 0xB8, 0x36, 0xA2, 0xB0, 0x8B, 0x32, 0xA6, 0x36, 0x9F, 0x1C,
        0xD3, 0xC5, 0x22, 0x8D, 0x79, 0xFD, 0x6C, 0x26, 0x7F, 0x5F, 0x6A, 0xA7, 0xB2, 0x31, 0xC7, 0xDF, 0xB9, 0xD5,
        0x99, 0x51, 0xAE, 0x9C,
    ];
    let tag = state.ocb_decrypt(&mut buf);
    let expected: Vec<u8> = (0..40).collect();
    assert_eq!(buf.to_vec(), expected);
    assert_eq!(tag, 0x9DB0_CDF8_80F7_3E3E_10D4_EB32_1776_6688);
}

#[test]
fn ocb_tags_the_empty_message() {
    let mut state = CryptState::with_key(KEY);
    state.set_decrypt_nonce(&KEY);
    assert_eq!(state.ocb_decrypt(&mut []), 0xBF31_0813_0773_AD5E_C70E_C69E_7875_A7B0);
}

#[test]
fn ocb_undoes_itself_at_every_length() {
    let mut state = CryptState::with_key(KEY);
    state.set_decrypt_nonce(&state.get_encrypt_nonce());
    for len in 0..=80usize {
        let plain: Vec<u8> = (0..len).map(|i| (i * 7 + len) as u8).collect();
        let mut buf = plain.clone();
        let tag = state.ocb_encrypt(&mut buf);
        if len > 0 {
            assert_ne!(buf, plain);
        }
        assert_eq!(state.ocb_decrypt(&mut buf), tag);
        assert_eq!(buf, plain);
    }
}

#[test]
fn new_state_is_blank() {
    let state = CryptState::with_key(KEY);
    assert_eq!(state.key, KEY);
    assert_eq!(state.get_encrypt_nonce(), [0; 16]);
    let mut half = [0; 16];
    half[15] = 0x80;
    assert_eq!(state.get_decrypt_nonce(), half);
    assert_eq!((state.good, state.late, state.lost, state.resync), (0, 0, 0, 0));
    assert_eq!((state.remote_good, state.remote_late, state.remote_lost, state.remote_resync), (0, 0, 0, 0));
    assert_eq!(state.reset_attempts, 0);
    assert_eq!(state.metrics, CryptMetrics::new());
}

#[test]
fn generated_keys_differ() {
    let first = CryptState::generate().unwrap();
    let second = CryptState::generate().unwrap();
    assert_ne!(first.key, [0; 16]);
    assert_ne!(first.key, second.key);
    assert_eq!(first.get_encrypt_nonce(), [0; 16]);
    // The cipher uses the key that the state shows.
    assert_eq!(CryptState::with_key(first.key).aes_encrypt(1), first.aes_encrypt(1));
    assert_ne!(first.aes_encrypt(1), second.aes_encrypt(1));
}

#[test]
fn packets_of_every_length_arrive() {
    let (mut sender, mut receiver) = pair();
    for len in 0..100usize {
        let packet: Vec<u8> = (0..len).map(|i| i as u8 ^ 0x5a).collect();
        let mut datagram = send(&mut sender, &packet);
        assert_eq!(datagram.len(), len + 4);
        assert_eq!(datagram[0], (len + 1) as u8);
        assert_eq!(receiver.decrypt(&mut datagram), Ok(()));
        assert_eq!(&datagram[..], &packet[..]);
        assert_eq!(receiver.get_decrypt_nonce(), sender.get_encrypt_nonce());
    }
    assert_eq!((receiver.good, receiver.late, receiver.lost), (100, 0, 0));
}

#[test]
fn datagram_replaces_what_was_in_the_buffer() {
    let (mut sender, mut receiver) = pair();
    let mut dst = BytesMut::from(&[0xee; 50][..]);
    sender.encrypt(b"hello", &mut dst);
    assert_eq!(dst.len(), 9);
    assert_eq!(dst[0], 1);
    assert_eq!(receiver.decrypt(&mut dst), Ok(()));
    assert_eq!(&dst[..], b"hello");
}

#[test]
fn nonce_advances_past_byte_borders() {
    let (mut sender, mut receiver) = pair();
    for i in 0..1000u32 {
        let mut datagram = send(&mut sender, &i.to_be_bytes());
        assert_eq!(receiver.decrypt(&mut datagram), Ok(()));
        assert_eq!(&datagram[..], &i.to_be_bytes());
    }
    assert_eq!(&receiver.get_decrypt_nonce()[..2], &[0xe8, 0x03]);
}

#[test]
fn short_datagrams_hold_no_header() {
    let mut state = CryptState::with_key(KEY);
    for len in 0..4usize {
        let mut buf = BytesMut::from(&[7u8; 3][..len]);
        assert_eq!(state.decrypt(&mut buf), Err(DecryptError::Eof));
        assert_eq!(&buf[..], &[7u8; 3][..len]);
    }
    assert_eq!(state.metrics, CryptMetrics::new());
}

#[test]
fn tampering_is_noticed() {
    let (mut sender, mut receiver) = pair();
    let datagram = send(&mut sender, b"a packet that spans three blocks, more or less");
    let nonce = receiver.get_decrypt_nonce();
    for i in 1..datagram.len() {
        let mut forged = datagram.clone();
        forged[i] ^= 1;
        assert_eq!(receiver.decrypt(&mut forged), Err(DecryptError::Mac));
        assert_eq!(receiver.get_decrypt_nonce(), nonce);
    }
    assert_eq!(receiver.good, 0);
    assert_eq!(receiver.metrics.mac_errors, datagram.len() as u64 - 1);
    let mut genuine = datagram.clone();
    assert_eq!(receiver.decrypt(&mut genuine), Ok(()));
}

#[test]
fn other_keys_do_not_decrypt() {
    let (mut sender, _) = pair();
    let mut stranger = CryptState::with_key([0x77; 16]);
    stranger.set_decrypt_nonce(&sender.get_encrypt_nonce());
    let mut datagram = send(&mut sender, b"secret");
    assert_eq!(stranger.decrypt(&mut datagram), Err(DecryptError::Mac));
    assert_ne!(&datagram[..], b"secret");
}

#[test]
fn repeated_datagrams_are_refused() {
    let (mut sender, mut receiver) = seasoned_pair();
    let datagram = send(&mut sender, b"once");
    assert_eq!(receiver.decrypt(&mut datagram.clone()), Ok(()));
    let mut again = datagram.clone();
    assert_eq!(receiver.decrypt(&mut again), Err(DecryptError::Repeat));
    assert_eq!(&again[..], &datagram[4..]);
    for _ in 0..29 {
        let mut next = send(&mut sender, b"next");
        assert_eq!(receiver.decrypt(&mut next), Ok(()));
        assert_eq!(receiver.decrypt(&mut datagram.clone()).is_ok(), false);
    }
    assert_eq!(receiver.metrics.repeat_errors, 30);
    let mut next = send(&mut sender, b"next");
    assert_eq!(receiver.decrypt(&mut next), Ok(()));
    assert_eq!(receiver.decrypt(&mut datagram.clone()), Err(DecryptError::Late));
}

#[test]
fn skipped_datagrams_count_as_lost_until_they_come() {
    let (mut sender, mut receiver) = seasoned_pair();
    let good = receiver.good;
    let older = send(&mut sender, b"older");
    let newer = send(&mut sender, b"newer");
    assert_eq!(receiver.decrypt(&mut newer.clone()), Ok(()));
    assert_eq!(receiver.lost, 1);
    assert_eq!(receiver.metrics.lost_packets, 1);
    let nonce = receiver.get_decrypt_nonce();
    let mut buf = older.clone();
    assert_eq!(receiver.decrypt(&mut buf), Ok(()));
    assert_eq!(&buf[..], b"older");
    assert_eq!((receiver.good, receiver.late, receiver.lost), (good + 2, 1, 0));
    assert_eq!(receiver.metrics.late_packets, 1);
    assert_eq!(receiver.get_decrypt_nonce(), nonce);
    assert_eq!(receiver.decrypt(&mut older.clone()), Err(DecryptError::Repeat));
    assert_eq!(receiver.decrypt(&mut newer.clone()), Err(DecryptError::Repeat));
}

#[test]
fn lost_count_goes_below_zero_and_wraps() {
    let (mut sender, mut receiver) = seasoned_pair();
    let older = send(&mut sender, b"older");
    let mut newer = send(&mut sender, b"newer");
    assert_eq!(receiver.decrypt(&mut newer), Ok(()));
    receiver.lost = 0;
    assert_eq!(receiver.decrypt(&mut older.clone()), Ok(()));
    assert_eq!(receiver.lost, u32::MAX);
}

#[test]
fn blank_history_stands_for_a_zero_byte() {
    // With the second byte of the nonce at zero, a late datagram looks like one
    // that was seen before.
    let (mut sender, mut receiver) = pair();
    let older = send(&mut sender, b"older");
    let mut newer = send(&mut sender, b"newer");
    assert_eq!(receiver.decrypt(&mut newer), Ok(()));
    assert_eq!(receiver.decrypt(&mut older.clone()), Err(DecryptError::Repeat));
}

#[test]
fn datagrams_thirty_behind_are_too_late() {
    let (mut sender, mut receiver) = seasoned_pair();
    let oldest = send(&mut sender, b"thirty behind");
    let old = send(&mut sender, b"twenty-nine behind");
    skip(&mut sender, 28);
    let mut newest = send(&mut sender, b"newest");
    assert_eq!(receiver.decrypt(&mut newest), Ok(()));
    assert_eq!(receiver.lost, 30);
    let mut buf = oldest.clone();
    assert_eq!(receiver.decrypt(&mut buf), Err(DecryptError::Late));
    assert_eq!(&buf[..], &oldest[4..]);
    assert_eq!(receiver.metrics.too_late_errors, 1);
    assert_eq!(receiver.decrypt(&mut old.clone()), Ok(()));
    assert_eq!(receiver.lost, 29);
}

#[test]
fn window_reaches_127_ahead() {
    let (mut sender, mut receiver) = seasoned_pair();
    skip(&mut sender, 126);
    let mut datagram = send(&mut sender, b"127 ahead");
    assert_eq!(receiver.decrypt(&mut datagram), Ok(()));
    assert_eq!(receiver.lost, 126);
    assert_eq!(receiver.metrics.nonce_wraps, 1);
    assert_eq!(receiver.get_decrypt_nonce(), sender.get_encrypt_nonce());
    skip(&mut sender, 127);
    let mut datagram = send(&mut sender, b"128 ahead");
    assert_eq!(receiver.decrypt(&mut datagram), Err(DecryptError::Late));
}

#[test]
fn large_jumps_are_counted() {
    let (mut sender, mut receiver) = seasoned_pair();
    skip(&mut sender, 99);
    let mut datagram = send(&mut sender, b"100 ahead");
    assert_eq!(receiver.decrypt(&mut datagram), Ok(()));
    assert_eq!(receiver.metrics.nonce_wraps, 0);
    skip(&mut sender, 100);
    let mut datagram = send(&mut sender, b"101 ahead");
    assert_eq!(receiver.decrypt(&mut datagram), Ok(()));
    assert_eq!(receiver.metrics.nonce_wraps, 1);
    assert_eq!(receiver.metrics.lost_packets, 199);
}

#[test]
fn forged_jump_is_metered_but_not_followed() {
    let (mut sender, mut receiver) = seasoned_pair();
    skip(&mut sender, 10);
    let mut datagram = send(&mut sender, b"ahead");
    let nonce = receiver.get_decrypt_nonce();
    datagram[1] ^= 0x80;
    assert_eq!(receiver.decrypt(&mut datagram), Err(DecryptError::Mac));
    assert_eq!(receiver.get_decrypt_nonce(), nonce);
    assert_eq!(receiver.lost, 0);
    assert_eq!(receiver.metrics.lost_packets, 10);
    assert_eq!(receiver.metrics.mac_errors, 1);
}

#[test]
fn resync_brings_in_step_and_clears_history() {
    let (mut sender, mut receiver) = seasoned_pair();
    let before = send(&mut sender, b"before");
    assert_eq!(receiver.decrypt(&mut before.clone()), Ok(()));
    assert_eq!(receiver.resync, 1);
    skip(&mut sender, 1000);
    let mut lost = send(&mut sender, b"out of step");
    assert!(receiver.decrypt(&mut lost).is_err());
    receiver.set_decrypt_nonce(&sender.get_encrypt_nonce());
    assert_eq!(receiver.resync, 2);
    assert_eq!(receiver.get_decrypt_nonce(), sender.get_encrypt_nonce());
    let mut datagram = send(&mut sender, b"in step");
    assert_eq!(receiver.decrypt(&mut datagram), Ok(()));
    assert_eq!(&datagram[..], b"in step");
}

#[test]
fn resync_forgets_accepted_datagrams() {
    let (mut sender, mut receiver) = seasoned_pair();
    let datagram = send(&mut sender, b"twice");
    assert_eq!(receiver.decrypt(&mut datagram.clone()), Ok(()));
    receiver.set_decrypt_nonce(&sender.get_encrypt_nonce());
    assert_eq!(receiver.decrypt(&mut datagram.clone()), Ok(()));
}

#[test]
fn setup_tells_key_and_nonces() {
    let mut state = CryptState::with_key(KEY);
    skip(&mut state, 3);
    state.set_decrypt_nonce(&[9; 16]);
    let setup = state.get_crypt_setup();
    assert_eq!(setup.key, KEY.to_vec());
    assert_eq!(setup.client_nonce, vec![9; 16]);
    let mut three = vec![0; 16];
    three[0] = 3;
    assert_eq!(setup.server_nonce, three);
}

#[test]
fn setup_brings_in_step() {
    let mut server = CryptState::with_key(KEY);
    skip(&mut server, 300);
    let setup = server.get_crypt_setup();
    let mut key = [0; 16];
    key.copy_from_slice(&setup.key);
    let mut client = CryptState::with_key(key);
    client.set_decrypt_nonce(&setup.server_nonce);
    let mut datagram = send(&mut server, b"welcome");
    assert_eq!(client.decrypt(&mut datagram), Ok(()));
    assert_eq!(&datagram[..], b"welcome");
}

#[test]
fn changing_the_shown_key_leaves_the_cipher() {
    let mut state = CryptState::with_key(KEY);
    let before = state.aes_encrypt(5);
    state.key = [1; 16];
    assert_eq!(state.aes_encrypt(5), before);
    assert_eq!(state.get_crypt_setup().key, vec![1; 16]);
}

#[test]
fn reset_starts_over() {
    let (mut sender, mut receiver) = seasoned_pair();
    skip(&mut sender, 2);
    let mut datagram = send(&mut sender, b"x");
    assert_eq!(receiver.decrypt(&mut datagram), Ok(()));
    receiver.remote_good = 1;
    receiver.remote_late = 2;
    receiver.remote_lost = 3;
    receiver.remote_resync = 4;
    let events = receiver.metrics.take();
    assert_eq!(events.lost_packets, 2);
    let (good_at, reset_at) = (receiver.last_good, receiver.last_reset);
    receiver.reset();
    let fresh = CryptState::with_key(KEY);
    assert_eq!(receiver.key, KEY);
    assert_eq!(receiver.aes_encrypt(9), fresh.aes_encrypt(9));
    assert_eq!(receiver.get_encrypt_nonce(), fresh.get_encrypt_nonce());
    assert_eq!(receiver.get_decrypt_nonce(), fresh.get_decrypt_nonce());
    assert_eq!((receiver.good, receiver.late, receiver.lost, receiver.resync), (0, 0, 0, 0));
    assert_eq!(
        (receiver.remote_good, receiver.remote_late, receiver.remote_lost, receiver.remote_resync),
        (0, 0, 0, 0)
    );
    assert_eq!(receiver.reset_attempts, 1);
    assert_eq!(receiver.metrics.resets, 1);
    assert!(receiver.last_good >= good_at);
    assert!(receiver.last_reset >= reset_at);
    receiver.reset();
    assert_eq!(receiver.reset_attempts, 2);
    assert_eq!(receiver.metrics.resets, 2);
}

#[test]
fn accepted_datagram_clears_reset_attempts() {
    let (mut sender, mut receiver) = pair();
    receiver.reset_attempts = 4;
    let mut forged = send(&mut sender, b"y");
    forged[3] ^= 1;
    assert_eq!(receiver.decrypt(&mut forged), Err(DecryptError::Mac));
    assert_eq!(receiver.reset_attempts, 4);
    let mut datagram = send(&mut sender, b"y");
    let good_at = receiver.last_good;
    assert_eq!(receiver.decrypt(&mut datagram), Ok(()));
    assert_eq!(receiver.reset_attempts, 0);
    assert!(receiver.last_good >= good_at);
    receiver.reset_attempts = 3;
    receiver.reset_attempt_counter();
    assert_eq!(receiver.reset_attempts, 0);
}

#[test]
fn resets_have_to_wait() {
    let mut state = CryptState::with_key(KEY);
    let start = state.last_reset;
    let after = |millis: u64| start + Duration::from_millis(millis);
    assert!(!state.should_allow_reset_at(start));
    assert!(!state.should_allow_reset_at(after(1000)));
    assert!(!state.should_allow_reset_at(after(1000) + Duration::from_micros(999)));
    assert!(state.should_allow_reset_at(after(1001)));
    state.reset_attempts = 3;
    assert!(!state.should_allow_reset_at(after(8000)));
    assert!(state.should_allow_reset_at(after(8001)));
    for attempts in [5, 21, 22, 29, 32, 64, u32::MAX] {
        state.reset_attempts = attempts;
        assert!(!state.should_allow_reset_at(after(30000)));
        assert!(state.should_allow_reset_at(after(30001)));
    }
}

#[test]
fn resets_wait_on_the_clock() {
    let mut state = CryptState::with_key(KEY);
    assert!(!state.should_allow_reset());
    state.last_reset = Instant::now() + Duration::from_secs(60);
    assert!(!state.should_allow_reset());
    if let Some(earlier) = Instant::now().checked_sub(Duration::from_secs(2)) {
        state.last_reset = earlier;
        assert!(state.should_allow_reset());
        state.reset_attempts = 2;
        assert!(!state.should_allow_reset());
    }
}

#[test]
fn counters_wrap() {
    let (mut sender, mut receiver) = pair();
    receiver.good = u32::MAX;
    let mut datagram = send(&mut sender, b"z");
    assert_eq!(receiver.decrypt(&mut datagram), Ok(()));
    assert_eq!(receiver.good, 0);
    receiver.resync = u32::MAX;
    receiver.set_decrypt_nonce(&[0; 16]);
    assert_eq!(receiver.resync, 0);
    receiver.reset_attempts = u32::MAX;
    receiver.reset();
    assert_eq!(receiver.reset_attempts, 0);
}

#[test]
fn nonces_wrap() {
    let mut receiver = CryptState::with_key(KEY);
    receiver.set_decrypt_nonce(&[0xff; 16]);
    let mut sender = CryptState::with_key(KEY);
    skip(&mut sender, 1);
    let mut datagram = send(&mut sender, b"past the end");
    assert_eq!(datagram[0], 2);
    assert_eq!(receiver.decrypt(&mut datagram), Ok(()));
    assert_eq!(receiver.lost, 2);
    assert_eq!(receiver.get_decrypt_nonce(), sender.get_encrypt_nonce());
}

#[test]
fn no_nonce_is_accepted_twice() {
    // Every datagram is offered again and again, in a shuffled order.
    let (mut sender, mut receiver) = seasoned_pair();
    let datagrams: Vec<BytesMut> = (0..200u8).map(|i| send(&mut sender, &[i])).collect();
    let mut accepted = vec![0u32; datagrams.len()];
    for round in 0..3usize {
        for i in 0..datagrams.len() {
            for offset in [0usize, 7, 3, 20] {
                let k = (i + offset * (round + 1)) % datagrams.len();
                let mut buf = datagrams[k].clone();
                if receiver.decrypt(&mut buf).is_ok() {
                    assert_eq!(&buf[..], &[k as u8]);
                    accepted[k] += 1;
                }
            }
        }
    }
    assert!(accepted.iter().all(|count| *count <= 1));
    assert!(accepted.iter().filter(|count| **count == 1).count() > 150);
}

#[test]
fn sender_nonces_count_up() {
    let mut sender = CryptState::with_key(KEY);
    let mut seen: Vec<[u8; 16]> = vec![sender.get_encrypt_nonce()];
    for i in 1..=600u128 {
        skip(&mut sender, 1);
        assert_eq!(sender.get_encrypt_nonce(), i.to_le_bytes());
        assert!(!seen.contains(&sender.get_encrypt_nonce()));
        seen.push(sender.get_encrypt_nonce());
    }
}

#[test]
fn taking_the_counts_clears_them() {
    let mut state = CryptState::with_key(KEY);
    state.reset();
    let counts = state.metrics.take();
    assert_eq!(counts.resets, 1);
    assert_eq!(state.metrics, CryptMetrics::new());
}

#[test]
fn times_are_noted() {
    let start = Instant::now();
    let after = |secs: u64| start + Duration::from_secs(secs);
    let mut state = CryptState::with_key_at(KEY, ByteOrder::Little, after(1), after(2));
    assert_eq!((state.last_good, state.last_reset), (after(1), after(2)));
    let mut sender = CryptState::with_key_at(KEY, ByteOrder::Little, after(1), after(2));
    state.set_decrypt_nonce(&sender.get_encrypt_nonce());
    let mut forged = send(&mut sender, b"t");
    forged[2] ^= 4;
    assert_eq!(state.decrypt_at(&mut forged, after(3)), Err(DecryptError::Mac));
    assert_eq!(state.last_good, after(1));
    let mut datagram = send(&mut sender, b"t");
    assert_eq!(state.decrypt_at(&mut datagram, after(4)), Ok(()));
    assert_eq!((state.last_good, state.last_reset), (after(4), after(2)));
    state.reset_at(after(5), after(6));
    assert_eq!((state.last_good, state.last_reset), (after(5), after(6)));
}

#[test]
fn clock_is_read_on_reset_and_on_acceptance() {
    let (mut sender, mut receiver) = pair();
    let start = Instant::now();
    if let Some(long_ago) = start.checked_sub(Duration::from_secs(100)) {
        receiver.last_good = long_ago;
        receiver.last_reset = long_ago;
        let mut datagram = send(&mut sender, b"t");
        assert_eq!(receiver.decrypt(&mut datagram), Ok(()));
        assert!(receiver.last_good >= start);
        assert_eq!(receiver.last_reset, long_ago);
        receiver.reset();
        assert!(receiver.last_reset >= start);
    }
}

#[test]
fn state_needs_a_filled_key() {
    let state = CryptState::from_filled(KEY, Ok(())).unwrap();
    assert_eq!(state.key, KEY);
    assert_eq!(state.aes_encrypt(3), CryptState::with_key(KEY).aes_encrypt(3));
    assert_eq!(CryptState::from_filled(KEY, Err(Unspecified)).err(), Some(KeyError::NoRandomness));
}

#[test]
fn aes_maps_blocks_one_to_one() {
    let state = CryptState::with_key(KEY);
    let blocks = [0u128, 1, 2, 0x86, 1 << 127, u128::MAX, 0x0123_4567_89ab_cdef_0123_4567_89ab_cdef];
    for x in blocks {
        assert_eq!(state.aes_decrypt(state.aes_encrypt(x)), x);
        assert_eq!(state.aes_encrypt(state.aes_decrypt(x)), x);
        for y in blocks {
            assert_eq!(state.aes_encrypt(x) == state.aes_encrypt(y), x == y);
            assert_eq!(state.aes_decrypt(x) == state.aes_decrypt(y), x == y);
        }
    }
}

#[test]
fn sealing_gives_back_what_was_opened() {
    let (sender, receiver) = pair();
    for len in 0..=80usize {
        let cipher: Vec<u8> = (0..len).map(|i| (i * 11 + len) as u8).collect();
        let mut buf = cipher.clone();
        let opened_tag = receiver.ocb_decrypt(&mut buf);
        if len > 0 {
            assert_ne!(buf, cipher);
        }
        assert_eq!(sender.ocb_encrypt(&mut buf), opened_tag);
        assert_eq!(buf, cipher);
    }
}

#[test]
fn accepted_datagrams_are_repetitions_while_in_the_window() {
    let (mut sender, mut receiver) = seasoned_pair();
    let datagram = send(&mut sender, b"first");
    assert_eq!(receiver.decrypt(&mut datagram.clone()), Ok(()));
    let late = send(&mut sender, b"late");
    skip(&mut sender, 20);
    let mut newer = send(&mut sender, b"newer");
    assert_eq!(receiver.decrypt(&mut newer), Ok(()));
    assert_eq!(receiver.decrypt(&mut datagram.clone()), Err(DecryptError::Repeat));
    assert_eq!(receiver.decrypt(&mut late.clone()), Ok(()));
    assert_eq!(receiver.decrypt(&mut datagram.clone()), Err(DecryptError::Repeat));
    skip(&mut sender, 6);
    let mut newest = send(&mut sender, b"twenty-nine ahead");
    assert_eq!(receiver.decrypt(&mut newest), Ok(()));
    assert_eq!(receiver.decrypt(&mut datagram.clone()), Err(DecryptError::Repeat));
    assert_eq!(receiver.decrypt(&mut late.clone()), Err(DecryptError::Repeat));
}

#[test]
fn each_late_arrival_takes_one_off_the_lost() {
    let (mut sender, mut receiver) = seasoned_pair();
    let skipped: Vec<BytesMut> = (0..5u8).map(|i| send(&mut sender, &[i])).collect();
    let mut newer = send(&mut sender, b"newer");
    assert_eq!(receiver.decrypt(&mut newer), Ok(()));
    assert_eq!(receiver.lost, 5);
    assert_eq!(receiver.decrypt(&mut skipped[3].clone()), Ok(()));
    assert_eq!((receiver.late, receiver.lost), (1, 4));
    assert_eq!(receiver.decrypt(&mut skipped[0].clone()), Ok(()));
    assert_eq!((receiver.late, receiver.lost), (2, 3));
}

#[test]
fn byte_order_decides_how_nonces_are_enciphered() {
    let now = Instant::now();
    let mut reversed = KEY;
    reversed.reverse();
    let mut little = CryptState::with_key_at(KEY, ByteOrder::Little, now, now);
    let mut big = CryptState::with_key_at(KEY, ByteOrder::Big, now, now);
    little.set_decrypt_nonce(&KEY);
    big.set_decrypt_nonce(&reversed);
    let tag = 0xBF31_0813_0773_AD5E_C70E_C69E_7875_A7B0;
    assert_eq!(little.ocb_decrypt(&mut []), tag);
    assert_eq!(big.ocb_decrypt(&mut []), tag);
    big.set_decrypt_nonce(&KEY);
    assert_ne!(big.ocb_decrypt(&mut []), tag);
}

#[test]
fn ends_need_the_same_byte_order() {
    let now = Instant::now();
    let mut sender = CryptState::with_key_at(KEY, ByteOrder::Big, now, now);
    let mut same = CryptState::with_key_at(KEY, ByteOrder::Big, now, now);
    let mut other = CryptState::with_key_at(KEY, ByteOrder::Little, now, now);
    same.set_decrypt_nonce(&sender.get_encrypt_nonce());
    other.set_decrypt_nonce(&sender.get_encrypt_nonce());
    let datagram = send(&mut sender, b"packet");
    let mut buf = datagram.clone();
    assert_eq!(same.decrypt(&mut buf), Ok(()));
    assert_eq!(&buf[..], b"packet");
    assert_eq!(other.decrypt(&mut datagram.clone()), Err(DecryptError::Mac));
    // A reset leaves the byte order as it is.
    sender.reset();
    same.reset();
    same.set_decrypt_nonce(&sender.get_encrypt_nonce());
    let mut datagram = send(&mut sender, b"again");
    assert_eq!(same.decrypt(&mut datagram), Ok(()));
}

#[test]
fn machine_has_the_order_that_its_numbers_have() {
    let now = Instant::now();
    let native = order_of(1u128.to_be());
    assert_eq!(native == ByteOrder::Big, 1u16.to_ne_bytes() == [0, 1]);
    let mut state = CryptState::with_key(KEY);
    let mut same = CryptState::with_key_at(KEY, native, now, now);
    skip(&mut state, 5);
    skip(&mut same, 5);
    assert_eq!(send(&mut state, b"packet"), send(&mut same, b"packet"));
    let nonce: u128 = 0x0102_0304_0506_0708_090a_0b0c_0d0e_0f10;
    assert_eq!(block_of(native, nonce), nonce.to_be());
    assert_eq!(order_of(1), ByteOrder::Big);
    assert_eq!(order_of(1 << 120), ByteOrder::Little);
    assert_eq!(block_of(ByteOrder::Big, nonce), nonce);
    assert_eq!(block_of(ByteOrder::Little, nonce), 0x100f_0e0d_0c0b_0a09_0807_0605_0403_0201);
}
