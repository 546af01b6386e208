//! Tests of the batched double-hash engine and the greedy fixup resolver,
//! with the `sha2` crate as the hash oracle.

use recover58::big::u200;
use recover58::classify::AmbiguityRecord;
use recover58::engine::ParallelChecksum;
use recover58::engine::PendingVerification;
use recover58::resolver::resolve;
use recover58::sha256::sha256_adapt_iterated;
use recover58::sha256::sha256_core;
use recover58::sha256::sha256_load_six_words;
use recover58::sha256::sha256_parallel_8;
use recover58::sha256::sha256_store_leading_four_bytes;
use sha2::Digest;
use sha2::Sha256;

/// The reference checksum: leading four bytes of the double SHA-256 of a
/// 21-byte prefix, as a big-endian integer.
fn oracle_checksum(prefix: &[u8; 21]) -> u32 {
    let round1 = Sha256::digest(prefix);
    let round2 = Sha256::digest(&round1);
    u32::from_be_bytes([round2[0], round2[1], round2[2], round2[3]])
}

/// Eight independent lanes of single SHA-256 agree with the `sha2` crate.
#[test]
fn parallel_8_matches_sha2() {
    let mut inputs = [[0u8; 21]; 8];
    for (l, input) in inputs.iter_mut().enumerate() {
        for (i, byte) in input.iter_mut().enumerate() {
            *byte = (l * 31 + i * 7 + 3) as u8;
        }
    }
    let digests = sha256_parallel_8(&inputs);
    for l in 0..8 {
        let expected = Sha256::digest(&inputs[l]);
        assert_eq!(digests[l][..], expected[..]);
    }
}

/// The staged pipeline (load, core, adapt, core, store) computes the
/// double-hash checksum of each lane.
#[test]
fn staged_pipeline_matches_oracle() {
    let mut inputs = [[0u8; 21]; 8];
    for (l, input) in inputs.iter_mut().enumerate() {
        for (i, byte) in input.iter_mut().enumerate() {
            *byte = (l * 13 + i) as u8;
        }
    }
    let mut blocks = [[0u32; 16]; 8];
    for l in 0..8 {
        blocks[l] = sha256_load_six_words(&inputs[l]);
    }
    let round1 = sha256_core(&blocks);
    let mut blocks2 = [[0u32; 16]; 8];
    for l in 0..8 {
        blocks2[l] = sha256_adapt_iterated(&round1[l]);
    }
    let round2 = sha256_core(&blocks2);
    for l in 0..8 {
        let checksum = sha256_store_leading_four_bytes(&round2[l]);
        assert_eq!(checksum, oracle_checksum(&inputs[l]));
    }
}

fn test_prefix(tag: u8) -> [u8; 21] {
    let mut p = [0u8; 21];
    for (i, byte) in p.iter_mut().enumerate() {
        *byte = tag.wrapping_mul(17).wrapping_add(i as u8);
    }
    p
}

/// Queues `n` pending verifications whose provisional checksums sit at a
/// chosen offset below their true checksums, over a one-record list, and
/// returns the recovered strings.
fn run_batch(n: usize, offsets: &[u32]) -> Vec<String> {
    let base: Vec<u8> = b"AZ".to_vec();
    let records = vec![AmbiguityRecord { position: 0, fixup: u200::from_u64(1) }];
    let mut engine = ParallelChecksum::new(base, records);
    for j in 0..n {
        let prefix = test_prefix(j as u8);
        let target = oracle_checksum(&prefix);
        let offset = offsets[j % offsets.len()];
        engine.compute_later(PendingVerification {
            prefix,
            provisional: target.wrapping_sub(offset),
            idx: 0,
            subset_bitmask: 0,
        });
    }
    engine
        .finalize()
        .into_iter()
        .map(|v| String::from_utf8(v).unwrap())
        .collect()
}

/// Batch boundaries: one less than the lane count, exactly the lane count,
/// and one more must each produce the correct outcome for every queued
/// item, including the forced final partial flush.
#[test]
fn batch_boundary_lane_count_minus_one() {
    let out = run_batch(7, &[0]);
    assert_eq!(out, vec!["AZ"; 7]);
}

#[test]
fn batch_boundary_lane_count() {
    let out = run_batch(8, &[0]);
    assert_eq!(out, vec!["AZ"; 8]);
}

#[test]
fn batch_boundary_lane_count_plus_one() {
    let out = run_batch(9, &[0]);
    assert_eq!(out, vec!["AZ"; 9]);
}

/// Each continuation receives the checksum of its own prefix: an offset of
/// one is repaired by the single unit fixup (lowercasing position 0), an
/// offset of two cannot be repaired, and an exact match applies no fixup.
#[test]
fn batch_members_resolved_individually() {
    let out = run_batch(6, &[0, 1, 2]);
    assert_eq!(out, vec!["AZ", "aZ", "AZ", "aZ"]);
}

fn resolver_records() -> Vec<AmbiguityRecord> {
    vec![
        AmbiguityRecord { position: 2, fixup: u200::from_u64(5) },
        AmbiguityRecord { position: 5, fixup: u200::from_u64(3) },
        AmbiguityRecord { position: 7, fixup: u200::from_u64(1) },
    ]
}

/// Greedy resolver exactness: a reachable target is reconciled by the
/// unique fixup subset, and the matching positions are re-cased.
#[test]
fn resolver_finds_exact_subset() {
    let records = resolver_records();
    let base: Vec<u8> = b"ABCDEFGH".to_vec();
    let r = resolve(&records, 0, 10, 16, 0, &base);
    assert_eq!(r, Some(b"ABcDEFGh".to_vec()));
}

/// Greedy resolver exactness: a target no subset can reach is reported as
/// no solution.
#[test]
fn resolver_reports_unreachable_target() {
    let records = resolver_records();
    let base: Vec<u8> = b"ABCDEFGH".to_vec();
    assert_eq!(resolve(&records, 0, 10, 17, 0, &base), None);
}

/// A provisional checksum already above the target has no solution: fixups
/// only increase the checksum field.
#[test]
fn resolver_rejects_overshoot() {
    let records = resolver_records();
    let base: Vec<u8> = b"ABCDEFGH".to_vec();
    assert_eq!(resolve(&records, 0, 18, 17, 0, &base), None);
}

/// A provisional checksum exactly on target needs the empty subset: the
/// candidate is emitted unchanged.
#[test]
fn resolver_accepts_exact_provisional() {
    let records = resolver_records();
    let base: Vec<u8> = b"ABCDEFGH".to_vec();
    assert_eq!(resolve(&records, 0, 16, 16, 0, &base), Some(b"ABCDEFGH".to_vec()));
}

/// Decisions already taken before the hash was issued are kept: a mask bit
/// set at hash-issue time re-cases its position in the output.
#[test]
fn resolver_keeps_prior_decisions() {
    let records = resolver_records();
    let base: Vec<u8> = b"ABCDEFGH".to_vec();
    let r = resolve(&records, 1, 9, 12, 1u64 << 2, &base);
    assert_eq!(r, Some(b"ABcDEfGH".to_vec()));
}
