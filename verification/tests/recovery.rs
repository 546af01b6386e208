//! End-to-end tests of the recovery pipeline, cross-checked against an
//! independent double-SHA-256 Base58Check validator built on the `sha2` and
//! `base58` crates.

use base58::FromBase58;
use recover58::recover;
use recover58::RecoverError;
use sha2::Digest;
use sha2::Sha256;

const ALPHABET: &[u8] = b"123456789ABCDEFGHJKLMNPQRSTUVWXYZabcdefghijkmnopqrstuvwxyz";

fn is_b58(c: u8) -> bool {
    ALPHABET.contains(&c)
}

/// Reference validator: decodes a candidate with the `base58` crate, pads
/// it to the 25-byte payload, and checks the double-SHA-256 checksum with
/// the `sha2` crate.
fn reference_valid(candidate: &str) -> bool {
    let decoded = match candidate.from_base58() {
        Ok(d) => d,
        Err(_) => return false,
    };
    if decoded.len() > 25 {
        return false;
    }
    let mut payload = [0u8; 25];
    payload[25 - decoded.len()..].copy_from_slice(&decoded);
    let round1 = Sha256::digest(&payload[..21]);
    let round2 = Sha256::digest(&round1);
    round2[..4] == payload[21..]
}

/// Brute-force enumeration of every case combination of the garbled input,
/// keeping the ones the reference validator accepts.
fn brute_force(garbled: &str) -> Vec<String> {
    let bytes = garbled.as_bytes();
    let mut variant_positions: Vec<usize> = Vec::new();
    let mut base: Vec<u8> = Vec::new();
    for (i, &b) in bytes.iter().enumerate() {
        let up = b.to_ascii_uppercase();
        let lo = b.to_ascii_lowercase();
        if is_b58(up) && is_b58(lo) && up != lo {
            variant_positions.push(i);
            base.push(up);
        } else if is_b58(up) {
            base.push(up);
        } else if is_b58(lo) {
            base.push(lo);
        } else {
            panic!("invalid character in brute-force input");
        }
    }
    let k = variant_positions.len();
    assert!(k <= 16, "brute force only feasible for small k");
    let mut found = Vec::new();
    for mask in 0u32..(1u32 << k) {
        let mut candidate = base.clone();
        for (j, &pos) in variant_positions.iter().enumerate() {
            if (mask >> j) & 1 == 1 {
                candidate[pos] = candidate[pos].to_ascii_lowercase();
            }
        }
        let s = String::from_utf8(candidate).unwrap();
        if reference_valid(&s) {
            found.push(s);
        }
    }
    found.sort();
    found
}

fn recover_strings(garbled: &str) -> Result<Vec<String>, RecoverError> {
    let input: Vec<u8> = garbled.as_bytes().to_vec();
    assert!(input.len() <= 34);
    let found = recover(&input)?;
    Ok(found.into_iter().map(|v| String::from_utf8(v).unwrap()).collect())
}

/// The literal scenario: the garbled address has exactly one valid casing,
/// pinned here after deriving it once from the reference double-SHA-256
/// Base58Check validator.
#[test]
fn literal_scenario() {
    let out = recover_strings("18ryviovmwfyzhrzktjkqgycjkujoxh3k6").unwrap();
    assert_eq!(out, vec!["18ryVioVmwFYzhRZKTjKqGYCjkUjoxH3k6".to_string()]);
    assert!(reference_valid(&out[0]));
}

/// A character outside the Base58 alphabet in both case forms is the fatal
/// invalid-character error, and nothing is recovered.
#[test]
fn invalid_input_zero_digit() {
    let r = recover_strings("10ryviovmwfyzhrzktjkqgycjkujoxh3k6");
    assert_eq!(r, Err(RecoverError::InvalidCharacter));
}

/// Other excluded characters are rejected too, wherever they stand.
#[test]
fn invalid_input_excluded_letters() {
    // 'l' and 'L' are a valid pair ('L' is a digit), but '0', 'I'/'i' pairs
    // differ: 'i' is valid lowercase, so the only fatal bytes are those
    // valid in neither case, such as '0' and punctuation.
    assert_eq!(recover_strings("1a+b"), Err(RecoverError::InvalidCharacter));
    assert_eq!(recover_strings("0"), Err(RecoverError::InvalidCharacter));
}

/// Round trip with zero ambiguous digits: a valid address whose every
/// character is unambiguous is recovered as exactly itself, the unique
/// output.
#[test]
fn round_trip_unambiguous() {
    let addr = "1111111111111111114oo785669";
    assert!(reference_valid(addr));
    let out = recover_strings(addr).unwrap();
    assert_eq!(out, vec![addr.to_string()]);
}

/// Feeding an already-correct mixed-case address through the pipeline
/// recovers that same address: the search is insensitive to the input's
/// own casing at ambiguous positions.
#[test]
fn round_trip_recased() {
    let answer = "18ryVioVmwFYzhRZKTjKqGYCjkUjoxH3k6";
    let out = recover_strings(answer).unwrap();
    assert_eq!(out, vec![answer.to_string()]);
}

/// Combination completeness and pruning soundness on a synthetic address
/// with twelve ambiguous digits: the pruned pipeline and the brute-force
/// enumerator over all 2^12 case combinations emit identical sets.
#[test]
fn completeness_against_brute_force() {
    let garbled = "111111111111111bwiubc2ttwggtw";
    let expected = brute_force(garbled);
    assert!(expected.contains(&"111111111111111BWiubC2tTWGgtW".to_string()));
    let mut out = recover_strings(garbled).unwrap();
    out.sort();
    assert_eq!(out, expected);
}

/// Pruning soundness on inputs with no valid casing at all: both
/// enumerators agree on the empty set.
#[test]
fn no_solution_matches_brute_force() {
    // A slightly corrupted digit makes every casing fail the checksum.
    let garbled = "111111111111111bwiubc2ttwggtx";
    let expected = brute_force(garbled);
    assert!(expected.is_empty());
    let out = recover_strings(garbled).unwrap();
    assert!(out.is_empty());
}

/// A single-character address decodes, fails the checksum, and produces no
/// output rather than an error.
#[test]
fn single_digit_no_solution() {
    let out = recover_strings("7").unwrap();
    assert!(out.is_empty());
}

/// The empty input has no invalid character and no valid casing: it
/// succeeds with no output.
#[test]
fn empty_input_no_solution() {
    let out = recover_strings("").unwrap();
    assert!(out.is_empty());
}
