use zumble_crypt::clock::backoff;
use zumble_crypt::window::{classify, distance_to, low_byte_of, nearest_to, second_byte_of, Arrival};

#[test]
fn parts_of_a_nonce() {
    assert_eq!(low_byte_of(0x1234), 0x34);
    assert_eq!(second_byte_of(0x1234), 0x12);
    assert_eq!(second_byte_of(0xab_1234), 0x12);
}

#[test]
fn distances_are_signed() {
    assert_eq!(distance_to(0x1234, 0x35), 1);
    assert_eq!(distance_to(0x1234, 0x34), 0);
    assert_eq!(distance_to(0x1234, 0x33), -1);
    assert_eq!(distance_to(0x12ff, 0x00), 1);
    assert_eq!(distance_to(0x1200, 0xff), -1);
    assert_eq!(distance_to(0x1200, 127), 127);
    assert_eq!(distance_to(0x1200, 128), -128);
}

#[test]
fn nearest_nonce_crosses_byte_borders_and_wraps() {
    assert_eq!(nearest_to(0x12ff, 0x02), 0x1302);
    assert_eq!(nearest_to(0x1201, 0xfe), 0x11fe);
    assert_eq!(nearest_to(u128::MAX, 0x00), 0);
    assert_eq!(nearest_to(0, 0xff), u128::MAX);
}

#[test]
fn last_byte_identifies_nonce_in_window() {
    for nonce in [0u128, 1, 0x1234, 1 << 127, u128::MAX] {
        for step in -128i128..=127 {
            let wanted = nonce.wrapping_add_signed(step);
            assert_eq!(nearest_to(nonce, wanted as u8), wanted);
        }
    }
}

#[test]
fn arrivals() {
    let mut history = [0u8; 256];
    let nonce = 0x0550u128;
    assert_eq!(classify(nonce, &history, 0x51), Arrival::Ahead { skipped: 0 });
    assert_eq!(classify(nonce, &history, 0x53), Arrival::Ahead { skipped: 2 });
    assert_eq!(classify(nonce, &history, 0xcf), Arrival::Ahead { skipped: 126 });
    assert_eq!(classify(nonce, &history, 0x50), Arrival::Late);
    assert_eq!(classify(nonce, &history, 0x50 - 29), Arrival::Late);
    assert_eq!(classify(nonce, &history, 0x50 - 30), Arrival::TooLate);
    assert_eq!(classify(nonce, &history, 0xd0), Arrival::TooLate);
    history[0x4f] = 5;
    assert_eq!(classify(nonce, &history, 0x4f), Arrival::Repeat);
    history[0x4f] = 4;
    assert_eq!(classify(nonce, &history, 0x4f), Arrival::Late);
}

#[test]
fn backoff_doubles_up_to_thirty_seconds() {
    let waits: Vec<u32> = (0..8).map(backoff).collect();
    assert_eq!(waits, vec![1000, 2000, 4000, 8000, 16000, 30000, 30000, 30000]);
    assert_eq!(backoff(22), 30000);
    assert_eq!(backoff(32), 30000);
    assert_eq!(backoff(u32::MAX), 30000);
}
