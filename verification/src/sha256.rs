//! Single-block SHA-256, specified word by word and verified against that
//! specification, together with the eight-lane batch entry points used by the
//! checksum engine.
//!
//! Every payload hashed here is a 21-byte prefix, and every second-round
//! input is a 32-byte digest; both fit a single 64-byte block, so only the
//! single-block compression is needed.

use vstd::prelude::*;

verus! {

/// Right rotation of a 32-bit word.
pub open spec fn rotr(x: u32, n: u32) -> u32
    recommends
        0 < n < 32,
{
    (x >> n) | (x << ((32 - n) as u32))
}

/// The SHA-256 round constant for round `i`.
pub open spec fn sha_k(i: int) -> u32
    recommends
        0 <= i < 64,
{
    if i < 32 {
        if i < 16 {
            if i < 8 {
                if i == 0 { 0x428a2f98 } else if i == 1 { 0x71374491 }
                else if i == 2 { 0xb5c0fbcf } else if i == 3 { 0xe9b5dba5 }
                else if i == 4 { 0x3956c25b } else if i == 5 { 0x59f111f1 }
                else if i == 6 { 0x923f82a4 } else { 0xab1c5ed5 }
            } else {
                if i == 8 { 0xd807aa98 } else if i == 9 { 0x12835b01 }
                else if i == 10 { 0x243185be } else if i == 11 { 0x550c7dc3 }
                else if i == 12 { 0x72be5d74 } else if i == 13 { 0x80deb1fe }
                else if i == 14 { 0x9bdc06a7 } else { 0xc19bf174 }
            }
        } else {
            if i < 24 {
                if i == 16 { 0xe49b69c1 } else if i == 17 { 0xefbe4786 }
                else if i == 18 { 0x0fc19dc6 } else if i == 19 { 0x240ca1cc }
                else if i == 20 { 0x2de92c6f } else if i == 21 { 0x4a7484aa }
                else if i == 22 { 0x5cb0a9dc } else { 0x76f988da }
            } else {
                if i == 24 { 0x983e5152 } else if i == 25 { 0xa831c66d }
                else if i == 26 { 0xb00327c8 } else if i == 27 { 0xbf597fc7 }
                else if i == 28 { 0xc6e00bf3 } else if i == 29 { 0xd5a79147 }
                else if i == 30 { 0x06ca6351 } else { 0x14292967 }
            }
        }
    } else {
        if i < 48 {
            if i < 40 {
                if i == 32 { 0x27b70a85 } else if i == 33 { 0x2e1b2138 }
                else if i == 34 { 0x4d2c6dfc } else if i == 35 { 0x53380d13 }
                else if i == 36 { 0x650a7354 } else if i == 37 { 0x766a0abb }
                else if i == 38 { 0x81c2c92e } else { 0x92722c85 }
            } else {
                if i == 40 { 0xa2bfe8a1 } else if i == 41 { 0xa81a664b }
                else if i == 42 { 0xc24b8b70 } else if i == 43 { 0xc76c51a3 }
                else if i == 44 { 0xd192e819 } else if i == 45 { 0xd6990624 }
                else if i == 46 { 0xf40e3585 } else { 0x106aa070 }
            }
        } else {
            if i < 56 {
                if i == 48 { 0x19a4c116 } else if i == 49 { 0x1e376c08 }
                else if i == 50 { 0x2748774c } else if i == 51 { 0x34b0bcb5 }
                else if i == 52 { 0x391c0cb3 } else if i == 53 { 0x4ed8aa4a }
                else if i == 54 { 0x5b9cca4f } else { 0x682e6ff3 }
            } else {
                if i == 56 { 0x748f82ee } else if i == 57 { 0x78a5636f }
                else if i == 58 { 0x84c87814 } else if i == 59 { 0x8cc70208 }
                else if i == 60 { 0x90befffa } else if i == 61 { 0xa4506ceb }
                else if i == 62 { 0xbef9a3f7 } else { 0xc67178f2 }
            }
        }
    }
}

/// The SHA-256 initial hash value, word `i`.
pub open spec fn sha_h0(i: int) -> u32
    recommends
        0 <= i < 8,
{
    if i == 0 { 0x6a09e667 } else if i == 1 { 0xbb67ae85 }
    else if i == 2 { 0x3c6ef372 } else if i == 3 { 0xa54ff53a }
    else if i == 4 { 0x510e527f } else if i == 5 { 0x9b05688c }
    else if i == 6 { 0x1f83d9ab } else { 0x5be0cd19 }
}

/// Word `i` of the SHA-256 message schedule for one block.
pub open spec fn sha_w(block: Seq<u32>, i: int) -> u32
    recommends
        block.len() == 16,
        0 <= i < 64,
    decreases i,
{
    if i < 16 {
        block[i]
    } else {
        let w15 = sha_w(block, i - 15);
        let w2 = sha_w(block, i - 2);
        let s0 = rotr(w15, 7) ^ rotr(w15, 18) ^ (w15 >> 3);
        let s1 = rotr(w2, 17) ^ rotr(w2, 19) ^ (w2 >> 10);
        sha_w(block, i - 16).wrapping_add(s0).wrapping_add(sha_w(block, i - 7)).wrapping_add(s1)
    }
}

/// One SHA-256 compression round applied to the working state
/// `[a, b, c, d, e, f, g, h]`.
pub open spec fn sha_step(s: Seq<u32>, ki: u32, wi: u32) -> Seq<u32>
    recommends
        s.len() == 8,
{
    let big_s1 = rotr(s[4], 6) ^ rotr(s[4], 11) ^ rotr(s[4], 25);
    let ch = (s[4] & s[5]) ^ (!s[4] & s[6]);
    let temp1 = s[7].wrapping_add(big_s1).wrapping_add(ch).wrapping_add(ki).wrapping_add(wi);
    let big_s0 = rotr(s[0], 2) ^ rotr(s[0], 13) ^ rotr(s[0], 22);
    let maj = (s[0] & s[1]) ^ (s[0] & s[2]) ^ (s[1] & s[2]);
    let temp2 = big_s0.wrapping_add(maj);
    seq![
        temp1.wrapping_add(temp2),
        s[0],
        s[1],
        s[2],
        s[3].wrapping_add(temp1),
        s[4],
        s[5],
        s[6],
    ]
}

/// The working state after the first `i` compression rounds of one block.
pub open spec fn sha_rounds(block: Seq<u32>, i: int) -> Seq<u32>
    recommends
        block.len() == 16,
        0 <= i <= 64,
    decreases i,
{
    if i <= 0 {
        seq![
            sha_h0(0),
            sha_h0(1),
            sha_h0(2),
            sha_h0(3),
            sha_h0(4),
            sha_h0(5),
            sha_h0(6),
            sha_h0(7),
        ]
    } else {
        sha_step(sha_rounds(block, i - 1), sha_k(i - 1), sha_w(block, i - 1))
    }
}

/// The eight digest words of single-block SHA-256: initial value plus the
/// state after all 64 rounds.
pub open spec fn sha_digest_words(block: Seq<u32>) -> Seq<u32>
    recommends
        block.len() == 16,
{
    let f = sha_rounds(block, 64);
    seq![
        sha_h0(0).wrapping_add(f[0]),
        sha_h0(1).wrapping_add(f[1]),
        sha_h0(2).wrapping_add(f[2]),
        sha_h0(3).wrapping_add(f[3]),
        sha_h0(4).wrapping_add(f[4]),
        sha_h0(5).wrapping_add(f[5]),
        sha_h0(6).wrapping_add(f[6]),
        sha_h0(7).wrapping_add(f[7]),
    ]
}

/// The SHA-256 round constant table as an executable lookup.
fn round_constant(i: usize) -> (r: u32)
    requires
        i < 64,
    ensures
        r == sha_k(i as int),
{
    if i < 32 {
        if i < 16 {
            if i < 8 {
                if i == 0 { 0x428a2f98 } else if i == 1 { 0x71374491 }
                else if i == 2 { 0xb5c0fbcf } else if i == 3 { 0xe9b5dba5 }
                else if i == 4 { 0x3956c25b } else if i == 5 { 0x59f111f1 }
                else if i == 6 { 0x923f82a4 } else { 0xab1c5ed5 }
            } else {
                if i == 8 { 0xd807aa98 } else if i == 9 { 0x12835b01 }
                else if i == 10 { 0x243185be } else if i == 11 { 0x550c7dc3 }
                else if i == 12 { 0x72be5d74 } else if i == 13 { 0x80deb1fe }
                else if i == 14 { 0x9bdc06a7 } else { 0xc19bf174 }
            }
        } else {
            if i < 24 {
                if i == 16 { 0xe49b69c1 } else if i == 17 { 0xefbe4786 }
                else if i == 18 { 0x0fc19dc6 } else if i == 19 { 0x240ca1cc }
                else if i == 20 { 0x2de92c6f } else if i == 21 { 0x4a7484aa }
                else if i == 22 { 0x5cb0a9dc } else { 0x76f988da }
            } else {
                if i == 24 { 0x983e5152 } else if i == 25 { 0xa831c66d }
                else if i == 26 { 0xb00327c8 } else if i == 27 { 0xbf597fc7 }
                else if i == 28 { 0xc6e00bf3 } else if i == 29 { 0xd5a79147 }
                else if i == 30 { 0x06ca6351 } else { 0x14292967 }
            }
        }
    } else {
        if i < 48 {
            if i < 40 {
                if i == 32 { 0x27b70a85 } else if i == 33 { 0x2e1b2138 }
                else if i == 34 { 0x4d2c6dfc } else if i == 35 { 0x53380d13 }
                else if i == 36 { 0x650a7354 } else if i == 37 { 0x766a0abb }
                else if i == 38 { 0x81c2c92e } else { 0x92722c85 }
            } else {
                if i == 40 { 0xa2bfe8a1 } else if i == 41 { 0xa81a664b }
                else if i == 42 { 0xc24b8b70 } else if i == 43 { 0xc76c51a3 }
                else if i == 44 { 0xd192e819 } else if i == 45 { 0xd6990624 }
                else if i == 46 { 0xf40e3585 } else { 0x106aa070 }
            }
        } else {
            if i < 56 {
                if i == 48 { 0x19a4c116 } else if i == 49 { 0x1e376c08 }
                else if i == 50 { 0x2748774c } else if i == 51 { 0x34b0bcb5 }
                else if i == 52 { 0x391c0cb3 } else if i == 53 { 0x4ed8aa4a }
                else if i == 54 { 0x5b9cca4f } else { 0x682e6ff3 }
            } else {
                if i == 56 { 0x748f82ee } else if i == 57 { 0x78a5636f }
                else if i == 58 { 0x84c87814 } else if i == 59 { 0x8cc70208 }
                else if i == 60 { 0x90befffa } else if i == 61 { 0xa4506ceb }
                else if i == 62 { 0xbef9a3f7 } else { 0xc67178f2 }
            }
        }
    }
}

/// Executable right rotation of a 32-bit word.
fn rotate_right(x: u32, n: u32) -> (r: u32)
    requires
        0 < n < 32,
    ensures
        r == rotr(x, n),
{
    (x >> n) | (x << (32 - n))
}

/// Compresses one 16-word block with single-block SHA-256, returning the
/// eight digest words.
fn sha256_block(block: &[u32; 16]) -> (r: [u32; 8])
    ensures
        r@ == sha_digest_words(block@),
{
    let mut w = [0u32; 64];
    let mut i: usize = 0;
    while i < 16
        invariant
            i <= 16,
            forall|j: int| 0 <= j < i ==> w@[j] == sha_w(block@, j),
        decreases 16 - i,
    {
        w[i] = block[i];
        i = i + 1;
    }
    while i < 64
        invariant
            16 <= i <= 64,
            forall|j: int| 0 <= j < i ==> w@[j] == sha_w(block@, j),
        decreases 64 - i,
    {
        let w15 = w[i - 15];
        let w2 = w[i - 2];
        let s0 = rotate_right(w15, 7) ^ rotate_right(w15, 18) ^ (w15 >> 3u32);
        let s1 = rotate_right(w2, 17) ^ rotate_right(w2, 19) ^ (w2 >> 10u32);
        w[i] = w[i - 16].wrapping_add(s0).wrapping_add(w[i - 7]).wrapping_add(s1);
        i = i + 1;
    }
    let mut a: u32 = 0x6a09e667;
    let mut b: u32 = 0xbb67ae85;
    let mut c: u32 = 0x3c6ef372;
    let mut d: u32 = 0xa54ff53a;
    let mut e: u32 = 0x510e527f;
    let mut f: u32 = 0x9b05688c;
    let mut g: u32 = 0x1f83d9ab;
    let mut h: u32 = 0x5be0cd19;
    let mut round: usize = 0;
    while round < 64
        invariant
            round <= 64,
            forall|j: int| 0 <= j < 64 ==> w@[j] == sha_w(block@, j),
            a == sha_rounds(block@, round as int)[0],
            b == sha_rounds(block@, round as int)[1],
            c == sha_rounds(block@, round as int)[2],
            d == sha_rounds(block@, round as int)[3],
            e == sha_rounds(block@, round as int)[4],
            f == sha_rounds(block@, round as int)[5],
            g == sha_rounds(block@, round as int)[6],
            h == sha_rounds(block@, round as int)[7],
        decreases 64 - round,
    {
        let big_s1 = rotate_right(e, 6) ^ rotate_right(e, 11) ^ rotate_right(e, 25);
        let ch = (e & f) ^ (!e & g);
        let temp1 = h
            .wrapping_add(big_s1)
            .wrapping_add(ch)
            .wrapping_add(round_constant(round))
            .wrapping_add(w[round]);
        let big_s0 = rotate_right(a, 2) ^ rotate_right(a, 13) ^ rotate_right(a, 22);
        let maj = (a & b) ^ (a & c) ^ (b & c);
        let temp2 = big_s0.wrapping_add(maj);
        h = g;
        g = f;
        f = e;
        e = d.wrapping_add(temp1);
        d = c;
        c = b;
        b = a;
        a = temp1.wrapping_add(temp2);
        round = round + 1;
    }
    let out = [
        0x6a09e667u32.wrapping_add(a),
        0xbb67ae85u32.wrapping_add(b),
        0x3c6ef372u32.wrapping_add(c),
        0xa54ff53au32.wrapping_add(d),
        0x510e527fu32.wrapping_add(e),
        0x9b05688cu32.wrapping_add(f),
        0x1f83d9abu32.wrapping_add(g),
        0x5be0cd19u32.wrapping_add(h),
    ];
    proof {
        assert(out@ =~= sha_digest_words(block@));
    }
    out
}

/// Big-endian 32-bit word assembled from four bytes.
pub open spec fn be_word(b0: u8, b1: u8, b2: u8, b3: u8) -> u32 {
    ((b0 as nat) * 0x1000000 + (b1 as nat) * 0x10000 + (b2 as nat) * 0x100 + (b3 as nat)) as u32
}

/// Byte `i` of the single 64-byte block holding a short message under
/// standard SHA-256 padding: the message, one 0x80 byte, zeros, and the
/// bit length in the last two bytes.
pub open spec fn padded_byte(msg: Seq<u8>, i: int) -> u8
    recommends
        msg.len() <= 55,
        0 <= i < 64,
{
    if i < msg.len() {
        msg[i]
    } else if i == msg.len() {
        0x80
    } else if i < 62 {
        0
    } else if i == 62 {
        (((msg.len() * 8) / 256) as u8)
    } else {
        (((msg.len() * 8) % 256) as u8)
    }
}

/// The 16-word block of a short message under standard SHA-256 padding.
pub open spec fn block_of_message(msg: Seq<u8>) -> Seq<u32>
    recommends
        msg.len() <= 55,
{
    Seq::new(
        16,
        |i: int|
            be_word(
                padded_byte(msg, 4 * i),
                padded_byte(msg, 4 * i + 1),
                padded_byte(msg, 4 * i + 2),
                padded_byte(msg, 4 * i + 3),
            ),
    )
}

/// The block that feeds the second hash round: the eight first-round digest
/// words followed by standard padding for a 32-byte message.
pub open spec fn iterated_block(h: Seq<u32>) -> Seq<u32>
    recommends
        h.len() == 8,
{
    Seq::new(
        16,
        |i: int|
            if i < 8 {
                h[i]
            } else if i == 8 {
                0x80000000u32
            } else if i == 15 {
                256u32
            } else {
                0u32
            },
    )
}

/// Big-endian byte `j` of a 32-bit word (0 is most significant).
pub open spec fn word_byte(x: u32, j: int) -> u8
    recommends
        0 <= j < 4,
{
    if j == 0 {
        (((x as nat) / 0x1000000nat % 256) as u8)
    } else if j == 1 {
        (((x as nat) / 0x10000nat % 256) as u8)
    } else if j == 2 {
        (((x as nat) / 0x100nat % 256) as u8)
    } else {
        (((x as nat) % 256) as u8)
    }
}

/// The 32-byte big-endian serialization of eight digest words.
pub open spec fn digest_bytes(h: Seq<u32>) -> Seq<u8>
    recommends
        h.len() == 8,
{
    Seq::new(32, |i: int| word_byte(h[i / 4], i % 4))
}

/// The 4-byte checksum of a 21-byte payload prefix: the leading 32 bits of
/// the double SHA-256 digest, read as a big-endian integer.
#[verifier::opaque]
pub open spec fn sha_checksum(msg: Seq<u8>) -> u32
    recommends
        msg.len() == 21,
{
    sha_digest_words(iterated_block(sha_digest_words(block_of_message(msg))))[0]
}

/// A 32-bit word survives the trip through its four big-endian bytes.
proof fn lemma_word_roundtrip(x: u32)
    ensures
        be_word(word_byte(x, 0), word_byte(x, 1), word_byte(x, 2), word_byte(x, 3)) == x,
{
    let v = x as nat;
    vstd::arithmetic::div_mod::lemma_fundamental_div_mod(v as int, 0x100);
    vstd::arithmetic::div_mod::lemma_fundamental_div_mod((v / 0x100) as int, 0x100);
    vstd::arithmetic::div_mod::lemma_fundamental_div_mod((v / 0x10000) as int, 0x100);
    vstd::arithmetic::div_mod::lemma_fundamental_div_mod((v / 0x1000000) as int, 0x100);
    vstd::arithmetic::div_mod::lemma_div_denominator(v as int, 0x100, 0x100);
    vstd::arithmetic::div_mod::lemma_div_denominator(v as int, 0x10000, 0x100);
    vstd::arithmetic::div_mod::lemma_div_denominator(v as int, 0x1000000, 0x100);
    vstd::arithmetic::div_mod::lemma_mod_division_less_than_divisor(v as int, 0x100);
    vstd::arithmetic::div_mod::lemma_mod_division_less_than_divisor((v / 0x100) as int, 0x100);
    vstd::arithmetic::div_mod::lemma_mod_division_less_than_divisor((v / 0x10000) as int, 0x100);
    vstd::arithmetic::div_mod::lemma_mod_division_less_than_divisor((v / 0x1000000) as int, 0x100);
    vstd::arithmetic::div_mod::lemma_small_mod((v / 0x1000000) as nat, 0x100);
}

/// The block that `sha256_adapt_iterated` builds for the second hash round
/// is exactly the standard padded block of the 32-byte first-round digest:
/// the engine's checksum really is a double hash.
pub proof fn lemma_adapt_matches_padding(h: Seq<u32>)
    requires
        h.len() == 8,
    ensures
        iterated_block(h) == block_of_message(digest_bytes(h)),
{
    let msg = digest_bytes(h);
    assert(msg.len() == 32);
    assert forall|i: int| 0 <= i < 16 implies iterated_block(h)[i] == block_of_message(msg)[i] by {
        if i < 8 {
            assert(msg[4 * i] == word_byte(h[i], 0));
            assert(msg[4 * i + 1] == word_byte(h[i], 1));
            assert(msg[4 * i + 2] == word_byte(h[i], 2));
            assert(msg[4 * i + 3] == word_byte(h[i], 3));
            lemma_word_roundtrip(h[i]);
        }
    }
    assert(iterated_block(h) =~= block_of_message(msg));
}

/// Builds the padded 16-word first-round block for a 21-byte payload prefix:
/// five full words, the word holding the final byte and the 0x80 padding
/// marker, and the bit length 168 in the last word.
pub fn sha256_load_six_words(input: &[u8; 21]) -> (r: [u32; 16])
    ensures
        r@ == block_of_message(input@),
{
    let mut w = [0u32; 16];
    w[0] = (input[0] as u32) * 0x1000000 + (input[1] as u32) * 0x10000 + (input[2] as u32) * 0x100
        + (input[3] as u32);
    w[1] = (input[4] as u32) * 0x1000000 + (input[5] as u32) * 0x10000 + (input[6] as u32) * 0x100
        + (input[7] as u32);
    w[2] = (input[8] as u32) * 0x1000000 + (input[9] as u32) * 0x10000 + (input[10] as u32) * 0x100
        + (input[11] as u32);
    w[3] = (input[12] as u32) * 0x1000000 + (input[13] as u32) * 0x10000 + (input[14] as u32)
        * 0x100 + (input[15] as u32);
    w[4] = (input[16] as u32) * 0x1000000 + (input[17] as u32) * 0x10000 + (input[18] as u32)
        * 0x100 + (input[19] as u32);
    w[5] = (input[20] as u32) * 0x1000000 + 0x800000;
    w[15] = 168;
    proof {
        assert(w@ =~= block_of_message(input@));
    }
    w
}

/// Builds the second-round block from a first-round digest: the digest
/// words, the 0x80 padding marker, and the bit length 256.
pub fn sha256_adapt_iterated(h: &[u32; 8]) -> (r: [u32; 16])
    ensures
        r@ == iterated_block(h@),
{
    let mut w = [0u32; 16];
    w[0] = h[0];
    w[1] = h[1];
    w[2] = h[2];
    w[3] = h[3];
    w[4] = h[4];
    w[5] = h[5];
    w[6] = h[6];
    w[7] = h[7];
    w[8] = 0x80000000;
    w[15] = 256;
    proof {
        assert(w@ =~= iterated_block(h@));
    }
    w
}

/// Compresses eight independent 16-word blocks, one digest per lane. This is
/// the scalar stand-in for the interchangeable wide backends: no state is
/// shared between lanes.
pub fn sha256_core(blocks: &[[u32; 16]; 8]) -> (r: [[u32; 8]; 8])
    ensures
        forall|l: int| 0 <= l < 8 ==> #[trigger] r@[l]@ == sha_digest_words(blocks@[l]@),
{
    let mut out = [[0u32; 8]; 8];
    let mut l: usize = 0;
    while l < 8
        invariant
            l <= 8,
            forall|j: int| 0 <= j < l ==> #[trigger] out@[j]@ == sha_digest_words(blocks@[j]@),
        decreases 8 - l,
    {
        out[l] = sha256_block(&blocks[l]);
        l = l + 1;
    }
    out
}

/// Reads the leading four digest bytes of one lane as a big-endian integer:
/// the checksum field value.
pub fn sha256_store_leading_four_bytes(h: &[u32; 8]) -> (r: u32)
    ensures
        r == h@[0],
{
    h[0]
}

/// Serializes eight digest words into the 32-byte big-endian digest.
fn digest_to_bytes(h: &[u32; 8]) -> (r: [u8; 32])
    ensures
        r@ == digest_bytes(h@),
{
    let mut bytes = [0u8; 32];
    let mut j: usize = 0;
    while j < 8
        invariant
            j <= 8,
            forall|i: int| 0 <= i < 4 * j ==> #[trigger] bytes@[i] == digest_bytes(h@)[i],
        decreases 8 - j,
    {
        let x = h[j];
        bytes[4 * j] = ((x / 0x1000000) % 256) as u8;
        bytes[4 * j + 1] = ((x / 0x10000) % 256) as u8;
        bytes[4 * j + 2] = ((x / 0x100) % 256) as u8;
        bytes[4 * j + 3] = (x % 256) as u8;
        j = j + 1;
    }
    proof {
        assert(bytes@ =~= digest_bytes(h@));
    }
    bytes
}

/// Computes the full SHA-256 digest of eight 21-byte inputs in one batch
/// call: the backend contract of the hash engine, eight independent lanes
/// with no shared state.
pub fn sha256_parallel_8(inputs: &[[u8; 21]; 8]) -> (r: [[u8; 32]; 8])
    ensures
        forall|l: int| 0 <= l < 8 ==> #[trigger] r@[l]@ == digest_bytes(
            sha_digest_words(block_of_message(inputs@[l]@)),
        ),
{
    let mut out = [[0u8; 32]; 8];
    let mut l: usize = 0;
    while l < 8
        invariant
            l <= 8,
            forall|j: int| 0 <= j < l ==> #[trigger] out@[j]@ == digest_bytes(
                sha_digest_words(block_of_message(inputs@[j]@)),
            ),
        decreases 8 - l,
    {
        let block = sha256_load_six_words(&inputs[l]);
        let digest = sha256_block(&block);
        out[l] = digest_to_bytes(&digest);
        l = l + 1;
    }
    out
}

} // verus!
