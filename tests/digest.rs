use collision_search::digest::{fingerprint_key, truncate_hash};
use collision_search::generator::shift_left;

fn digest_bytes() -> Vec<u8> {
    (0u8..32).map(|i| i.wrapping_mul(37).wrapping_add(0xc5)).collect()
}

#[test]
fn truncate_eight_bits_is_last_byte() {
    let d = digest_bytes();
    assert_eq!(truncate_hash(&d, 8), vec![d[31]]);
}

#[test]
fn truncate_fifty_bits_keeps_seven_tail_bytes() {
    let d = digest_bytes();
    let t = truncate_hash(&d, 50);
    assert_eq!(t.len(), 7);
    assert_eq!(t[0], d[25] & 0x03);
    assert_eq!(&t[1..], &d[26..]);
}

#[test]
fn truncate_masks_top_byte() {
    let d = vec![0xffu8, 0xab, 0xcd];
    assert_eq!(truncate_hash(&d, 12), vec![0x0b, 0xcd]);
    assert_eq!(truncate_hash(&d, 16), vec![0xab, 0xcd]);
    assert_eq!(truncate_hash(&d, 17), vec![0x01, 0xab, 0xcd]);
    assert_eq!(truncate_hash(&d, 1), vec![0x01]);
}

#[test]
fn truncate_zero_bits_is_empty() {
    let d = digest_bytes();
    assert!(truncate_hash(&d, 0).is_empty());
}

#[test]
fn truncate_byte_counts() {
    let d = digest_bytes();
    for bits in 0..=256usize {
        let t = truncate_hash(&d, bits);
        assert_eq!(t.len(), (bits + 7) / 8);
        if bits % 8 != 0 {
            assert_eq!(t[0] >> (bits % 8), 0);
        }
    }
}

#[test]
fn key_is_big_endian() {
    assert_eq!(fingerprint_key(&[]), 0);
    assert_eq!(fingerprint_key(&[0x12, 0x34]), 0x1234);
    assert_eq!(fingerprint_key(&[0xff; 8]), u64::MAX);
    assert_eq!(fingerprint_key(&[1, 2, 3, 4, 5, 6, 7]), 0x01020304050607);
}

#[test]
fn shift_left_moves_bytes_forward() {
    let mut data = [1u8, 2, 3, 4];
    shift_left(&mut data);
    assert_eq!(data, [2, 3, 4, 4]);
    let mut one = [9u8];
    shift_left(&mut one);
    assert_eq!(one, [9]);
}
