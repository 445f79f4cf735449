use uint256_precompile::bigint::{bytes_all_zero, bytes_equal, mul_mod_le_bytes, mul_mod_words};
use uint256_precompile::utils::{bytes_to_words_le, words_to_bytes_le};

#[test]
fn words_to_bytes_is_little_endian() {
    let bytes = words_to_bytes_le(&[0x0403_0201, 0xdead_beef]);
    assert_eq!(bytes, vec![1, 2, 3, 4, 0xef, 0xbe, 0xad, 0xde]);
}

#[test]
fn words_to_bytes_of_nothing_is_empty() {
    assert_eq!(words_to_bytes_le(&[]), Vec::<u8>::new());
}

#[test]
fn bytes_to_words_is_little_endian() {
    let words = bytes_to_words_le(&[1, 2, 3, 4, 0xef, 0xbe, 0xad, 0xde]);
    assert_eq!(words, vec![0x0403_0201, 0xdead_beef]);
}

#[test]
fn bytes_to_words_ignores_incomplete_group() {
    assert_eq!(bytes_to_words_le(&[1, 0, 0, 0, 9, 9]), vec![1]);
    assert_eq!(bytes_to_words_le(&[7, 7, 7]), Vec::<u32>::new());
}

#[test]
fn bytes_round_trip_through_words() {
    let bytes: Vec<u8> = (0..64u32).map(|i| (i * 37 + 11) as u8).collect();
    assert_eq!(words_to_bytes_le(&bytes_to_words_le(&bytes)), bytes);
}

#[test]
fn words_round_trip_through_bytes() {
    let words = vec![0, 1, u32::MAX, 0x8000_0000, 0x0102_0304];
    assert_eq!(bytes_to_words_le(&words_to_bytes_le(&words)), words);
}

#[test]
fn mul_mod_le_bytes_small_values() {
    // 7 * 6 mod 5 = 2, padded to the length of the modulus.
    assert_eq!(mul_mod_le_bytes(&[7], &[6], &[5, 0, 0]), vec![2, 0, 0]);
    // 300 * 300 mod 1000 = 90000 mod 1000 = 0.
    assert_eq!(mul_mod_le_bytes(&[44, 1], &[44, 1], &[232, 3]), vec![0, 0]);
    // 255 * 255 mod 65535 = 65025.
    assert_eq!(mul_mod_le_bytes(&[255], &[255], &[255, 255]), vec![1, 254]);
}

#[test]
fn mul_mod_le_bytes_with_empty_operand_is_zero() {
    assert_eq!(mul_mod_le_bytes(&[], &[9], &[7]), vec![0]);
}

#[test]
fn mul_mod_words_small_values() {
    let r = mul_mod_words(&[7, 0], &[6, 0], &[5, 0]);
    assert_eq!(r, vec![2, 0]);
}

#[test]
fn mul_mod_words_wraps_around_modulus() {
    // 2^255 * 2 = 2^256 = 1 mod (2^256 - 1).
    let x = [0, 0, 0, 0, 0, 0, 0, 0x8000_0000];
    let y = [2, 0, 0, 0, 0, 0, 0, 0];
    let m = [u32::MAX; 8];
    assert_eq!(mul_mod_words(&x, &y, &m), vec![1, 0, 0, 0, 0, 0, 0, 0]);
}

#[test]
fn mul_mod_words_crosses_word_boundary() {
    // (2^32 + 1) * (2^32 + 1) = 2^64 + 2^33 + 1, below the modulus 2^96.
    let r = mul_mod_words(&[1, 1, 0, 0], &[1, 1, 0, 0], &[0, 0, 0, 1]);
    assert_eq!(r, vec![1, 2, 1, 0]);
}

#[test]
fn byte_helpers() {
    assert!(bytes_all_zero(&[0, 0, 0]));
    assert!(bytes_all_zero(&[]));
    assert!(!bytes_all_zero(&[0, 1, 0]));
    assert!(bytes_equal(&[1, 2], &[1, 2]));
    assert!(!bytes_equal(&[1, 2], &[1, 3]));
    assert!(!bytes_equal(&[1, 2], &[1, 2, 0]));
}
