use zumble_crypt::block::{from_be_bytes, from_le_bytes, read_bytes, s2, to_be_bytes, to_le_bytes, write_bytes};

const NUMBER: u128 = 0x0011_2233_4455_6677_8899_aabb_ccdd_eeff;

#[test]
fn doubling_shifts_and_folds() {
    assert_eq!(s2(0), 0);
    assert_eq!(s2(1), 2);
    assert_eq!(s2(NUMBER), NUMBER << 1);
    assert_eq!(s2(1 << 127), 0x87);
    assert_eq!(s2(u128::MAX), (u128::MAX << 1) ^ 0x87);
}

#[test]
fn doubling_is_linear() {
    let other: u128 = 0xfedc_ba98_7654_3210_0123_4567_89ab_cdef;
    assert_eq!(s2(NUMBER ^ other), s2(NUMBER) ^ s2(other));
    assert_ne!(s2(NUMBER), s2(other));
}

#[test]
fn bytes_most_significant_first() {
    let bytes = to_be_bytes(NUMBER);
    assert_eq!(bytes, NUMBER.to_be_bytes());
    assert_eq!(bytes[1], 0x11);
    assert_eq!(from_be_bytes(&bytes), NUMBER);
}

#[test]
fn bytes_least_significant_first() {
    let bytes = to_le_bytes(NUMBER);
    assert_eq!(bytes, NUMBER.to_le_bytes());
    assert_eq!(bytes[0], 0xff);
    assert_eq!(from_le_bytes(&bytes), NUMBER);
}

#[test]
fn copying_parts_of_blocks() {
    let data = [1u8, 2, 3, 4, 5];
    let mut block = [9u8; 16];
    read_bytes(&data, 1, 3, &mut block);
    assert_eq!(&block[..5], &[2, 3, 4, 9, 9]);
    let mut out = [0u8; 6];
    write_bytes(&mut out, 2, 4, &block);
    assert_eq!(out, [0, 0, 2, 3, 4, 9]);
}
