//! Tests of the 200-bit integer and the digit classifier.

use recover58::big::u200;
use recover58::classify::classify;
use recover58::classify::RecoverError;
use recover58::search::suffix_sums_of;

/// Serialization puts the value big-endian in the last bytes.
#[test]
fn u200_to_be_bytes_small() {
    let v = u200::from_u64(0x0102030405060708);
    let bytes = v.to_be_bytes();
    let mut expected = [0u8; 25];
    expected[17..].copy_from_slice(&[1, 2, 3, 4, 5, 6, 7, 8]);
    assert_eq!(bytes, expected);
}

/// Addition carries across the 64-bit limb boundary.
#[test]
fn u200_plus_carries() {
    let v = u200::from_u64(u64::MAX).plus(u200::from_u64(1));
    let mut expected = [0u8; 25];
    expected[16] = 1;
    assert_eq!(v.to_be_bytes(), expected);
}

/// Multiplication by a scalar carries across the limb boundary.
#[test]
fn u200_times_carries() {
    let v = u200::from_u64(1u64 << 63).times(4);
    let mut expected = [0u8; 25];
    expected[16] = 2;
    assert_eq!(v.to_be_bytes(), expected);
}

/// An exact multi-limb product: (2^64 + 5) * 58.
#[test]
fn u200_times_exact() {
    let v = u200::from_u64(u64::MAX).plus(u200::from_u64(6)).times(58);
    let expected: u128 = ((1u128 << 64) + 5) * 58;
    let bytes = v.to_be_bytes();
    let mut got: u128 = 0;
    for &b in &bytes[9..] {
        got = (got << 8) | b as u128;
    }
    assert_eq!(got, expected);
}

/// The low 32 bits are the checksum field.
#[test]
fn u200_low32() {
    let v = u200::from_u64(0xAABBCCDD11223344);
    assert_eq!(v.low32(), 0x11223344);
}

/// Values that differ only inside the checksum field share their high
/// part; values that differ above it do not.
#[test]
fn u200_high168_comparison() {
    let a = u200::from_u64(0x500000000);
    let b = u200::from_u64(0x5FFFFFFFF);
    let c = u200::from_u64(0x600000000);
    assert!(a.high168_equals(b));
    assert!(!a.high168_equals(c));
    assert!(a.high168_equals(a));
}

/// Limb-wise bit operations.
#[test]
fn u200_bit_ops() {
    let a = u200::from_u64(0xF0F0);
    let m = u200::from_u64(0xFF00);
    let and = a.bitand(m);
    assert_eq!(and.0, 0xF000);
    let not = m.bitnot();
    assert_eq!(not.0, !0xFF00u64);
    assert_eq!(not.1, u64::MAX);
    assert_eq!(not.3, 0xFF);
}

/// The classifier parses digits, records ambiguities most significant
/// first, and builds the canonical-case string.
#[test]
fn classify_small_input() {
    let input: Vec<u8> = b"1az".to_vec();
    let parsed = classify(&input).unwrap();
    assert_eq!(parsed.base_address, b"1AZ".to_vec());
    // value: 0 * 58^2 + 9 * 58 + 32
    assert_eq!(parsed.parsed_number.0, 9 * 58 + 32);
    assert_eq!(parsed.possible_differences.len(), 2);
    assert_eq!(parsed.possible_differences[0].position, 1);
    assert_eq!(parsed.possible_differences[0].fixup.0, (33 - 9) * 58);
    assert_eq!(parsed.possible_differences[1].position, 2);
    assert_eq!(parsed.possible_differences[1].fixup.0, 57 - 32);
}

/// Characters valid only in one case keep that case's digit.
#[test]
fn classify_one_sided_characters() {
    // 'L' is a digit but 'l' is not; 'o' is a digit but 'O' is not.
    let input: Vec<u8> = b"Lo".to_vec();
    let parsed = classify(&input).unwrap();
    assert_eq!(parsed.base_address, b"Lo".to_vec());
    assert_eq!(parsed.possible_differences.len(), 0);
    assert_eq!(parsed.parsed_number.0, 19 * 58 + 46);
}

/// The invalid-character error is reported for a byte valid in neither
/// case.
#[test]
fn classify_invalid_character() {
    let input: Vec<u8> = b"1a0z".to_vec();
    assert_eq!(classify(&input).err(), Some(RecoverError::InvalidCharacter));
}

/// Suffix sums run from the total weight down to zero.
#[test]
fn suffix_sums_of_records() {
    let input: Vec<u8> = b"1az".to_vec();
    let parsed = classify(&input).unwrap();
    let sums = suffix_sums_of(&parsed.possible_differences);
    assert_eq!(sums.len(), 3);
    assert_eq!(sums[0].0, (33 - 9) * 58 + 25);
    assert_eq!(sums[1].0, 25);
    assert_eq!(sums[2].0, 0);
}

/// The largest accepted input size still parses: 34 maximal digits reach
/// close to the 200-bit limit without overflowing.
#[test]
fn classify_longest_input() {
    let input: Vec<u8> = vec![b'z'; 34];
    let parsed = classify(&input).unwrap();
    assert_eq!(parsed.base_address, vec![b'Z'; 34]);
    assert_eq!(parsed.possible_differences.len(), 34);
}
