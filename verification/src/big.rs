//! A fixed-width 200-bit unsigned integer.
//!
//! Wide enough to hold a 25-byte Base58Check payload (21-byte version+hash
//! prefix plus 4-byte checksum) together with any sum of case fixups, so the
//! search arithmetic never overflows.

use vstd::prelude::*;

verus! {

/// A 200-bit unsigned integer: three 64-bit limbs, least significant first,
/// and one 8-bit top limb.
#[allow(non_camel_case_types)]
#[derive(Clone, Copy, PartialEq, Eq, Structural)]
pub struct u200(pub u64, pub u64, pub u64, pub u8);

/// One more than the largest value a `u200` can hold, i.e. 2^200.
pub open spec fn u200_bound() -> nat {
    0x100000000000000000000000000000000000000000000000000nat
}

impl u200 {
    /// The mathematical value of this 200-bit integer.
    pub open spec fn as_nat(self) -> nat {
        (self.0 as nat) + (self.1 as nat) * 0x10000000000000000nat
            + (self.2 as nat) * 0x100000000000000000000000000000000nat
            + (self.3 as nat) * 0x1000000000000000000000000000000000000000000000000nat
    }

    /// Builds a `u200` from a single 64-bit value.
    pub fn from_u64(value: u64) -> (r: u200)
        ensures
            r.as_nat() == value,
    {
        u200(value, 0, 0, 0)
    }

    /// Exact addition; the caller guarantees the sum stays below 2^200.
    pub fn plus(self, other: u200) -> (r: u200)
        requires
            self.as_nat() + other.as_nat() < u200_bound(),
        ensures
            r.as_nat() == self.as_nat() + other.as_nat(),
    {
        let s0: u128 = self.0 as u128 + other.0 as u128;
        let r0: u64 = (s0 % 0x10000000000000000) as u64;
        let c0: u64 = (s0 / 0x10000000000000000) as u64;
        let s1: u128 = self.1 as u128 + other.1 as u128 + c0 as u128;
        let r1: u64 = (s1 % 0x10000000000000000) as u64;
        let c1: u64 = (s1 / 0x10000000000000000) as u64;
        let s2: u128 = self.2 as u128 + other.2 as u128 + c1 as u128;
        let r2: u64 = (s2 % 0x10000000000000000) as u64;
        let c2: u64 = (s2 / 0x10000000000000000) as u64;
        let s3: u16 = self.3 as u16 + other.3 as u16 + c2 as u16;
        proof {
            lemma_carry_chain_bound(self, other, s0 as nat, s1 as nat, s2 as nat, s3 as nat);
        }
        let r3: u8 = (s3 % 256) as u8;
        u200(r0, r1, r2, r3)
    }
    /// Exact multiplication by a 64-bit scalar; the caller guarantees the
    /// product stays below 2^200.
    pub fn times(self, other: u64) -> (r: u200)
        requires
            self.as_nat() * other < u200_bound(),
        ensures
            r.as_nat() == self.as_nat() * other,
    {
        proof {
            lemma_limb_product_fits(self.0, other, 0);
        }
        let p0: u128 = self.0 as u128 * other as u128;
        let r0: u64 = (p0 % 0x10000000000000000) as u64;
        let c0: u64 = (p0 / 0x10000000000000000) as u64;
        proof {
            lemma_limb_product_fits(self.1, other, c0);
        }
        let p1: u128 = self.1 as u128 * other as u128 + c0 as u128;
        let r1: u64 = (p1 % 0x10000000000000000) as u64;
        let c1: u64 = (p1 / 0x10000000000000000) as u64;
        proof {
            lemma_limb_product_fits(self.2, other, c1);
        }
        let p2: u128 = self.2 as u128 * other as u128 + c1 as u128;
        let r2: u64 = (p2 % 0x10000000000000000) as u64;
        let c2: u64 = (p2 / 0x10000000000000000) as u64;
        proof {
            lemma_limb_product_fits(self.3 as u64, other, c2);
        }
        let p3: u128 = self.3 as u128 * other as u128 + c2 as u128;
        proof {
            lemma_scale_chain(self, other, p0 as nat, p1 as nat, p2 as nat, p3 as nat);
        }
        let r3: u8 = (p3 % 256) as u8;
        u200(r0, r1, r2, r3)
    }

    /// Limb-wise bitwise and.
    pub fn bitand(self, other: u200) -> (r: u200)
        ensures
            r.0 == self.0 & other.0,
            r.1 == self.1 & other.1,
            r.2 == self.2 & other.2,
            r.3 == self.3 & other.3,
    {
        u200(self.0 & other.0, self.1 & other.1, self.2 & other.2, self.3 & other.3)
    }

    /// Limb-wise bitwise complement.
    pub fn bitnot(self) -> (r: u200)
        ensures
            r.0 == !self.0,
            r.1 == !self.1,
            r.2 == !self.2,
            r.3 == !self.3,
    {
        u200(!self.0, !self.1, !self.2, !self.3)
    }

    /// The low 32 bits of the value: the 4-byte checksum field of a 25-byte
    /// Base58Check payload.
    pub fn low32(self) -> (r: u32)
        ensures
            r == self.as_nat() % 0x100000000,
    {
        proof {
            let m: int = 0x100000000;
            vstd::arithmetic::div_mod::lemma_add_mod_noop(
                self.0 as int,
                (self.1 as int) * 0x10000000000000000
                    + (self.2 as int) * 0x100000000000000000000000000000000
                    + (self.3 as int) * 0x1000000000000000000000000000000000000000000000000,
                m,
            );
            vstd::arithmetic::div_mod::lemma_mod_multiples_basic(
                (self.1 as int) * 0x100000000 + (self.2 as int)
                    * 0x1000000000000000000000000 + (self.3 as int)
                    * 0x10000000000000000000000000000000000000000,
                m,
            );
            vstd::arithmetic::div_mod::lemma_mod_twice(self.0 as int, m);
            vstd::arithmetic::div_mod::lemma_mod_division_less_than_divisor(self.0 as int, m);
        }
        (self.0 % 0x100000000) as u32
    }

    /// The value with the low 32 bits cleared, divided by 2^32: everything
    /// that feeds the hashed 21-byte prefix.
    pub open spec fn high168(self) -> nat {
        self.as_nat() / 0x100000000
    }

    /// Serializes the value as the 25-byte big-endian Base58Check payload.
    pub fn to_be_bytes(self) -> (r: [u8; 25])
        ensures
            r@ == be_bytes(self.as_nat(), 25),
    {
        let mut bytes = [0u8; 25];
        bytes[0] = self.3;
        bytes[1] = ((self.2 / 0x100000000000000) % 256) as u8;
        bytes[2] = ((self.2 / 0x1000000000000) % 256) as u8;
        bytes[3] = ((self.2 / 0x10000000000) % 256) as u8;
        bytes[4] = ((self.2 / 0x100000000) % 256) as u8;
        bytes[5] = ((self.2 / 0x1000000) % 256) as u8;
        bytes[6] = ((self.2 / 0x10000) % 256) as u8;
        bytes[7] = ((self.2 / 0x100) % 256) as u8;
        bytes[8] = (self.2 % 256) as u8;
        bytes[9] = ((self.1 / 0x100000000000000) % 256) as u8;
        bytes[10] = ((self.1 / 0x1000000000000) % 256) as u8;
        bytes[11] = ((self.1 / 0x10000000000) % 256) as u8;
        bytes[12] = ((self.1 / 0x100000000) % 256) as u8;
        bytes[13] = ((self.1 / 0x1000000) % 256) as u8;
        bytes[14] = ((self.1 / 0x10000) % 256) as u8;
        bytes[15] = ((self.1 / 0x100) % 256) as u8;
        bytes[16] = (self.1 % 256) as u8;
        bytes[17] = ((self.0 / 0x100000000000000) % 256) as u8;
        bytes[18] = ((self.0 / 0x1000000000000) % 256) as u8;
        bytes[19] = ((self.0 / 0x10000000000) % 256) as u8;
        bytes[20] = ((self.0 / 0x100000000) % 256) as u8;
        bytes[21] = ((self.0 / 0x1000000) % 256) as u8;
        bytes[22] = ((self.0 / 0x10000) % 256) as u8;
        bytes[23] = ((self.0 / 0x100) % 256) as u8;
        bytes[24] = (self.0 % 256) as u8;
        proof {
            lemma_u200_be_bytes(self, bytes@);
        }
        bytes
    }
}

/// The complement of the low-32-bit mask, limb by limb.
proof fn lemma_not_consts()
    by (bit_vector)
    ensures
        !0xFFFFFFFFu64 == 0xFFFFFFFF00000000u64,
        !0u64 == 0xFFFFFFFFFFFFFFFFu64,
{
}

/// The complement of zero as a byte.
proof fn lemma_not_zero_u8()
    by (bit_vector)
    ensures
        !0u8 == 0xffu8,
{
}

/// Masking with all ones changes nothing.
proof fn lemma_and_ones64(x: u64)
    by (bit_vector)
    ensures
        x & 0xFFFFFFFFFFFFFFFFu64 == x,
{
}

/// Masking a byte with all ones changes nothing.
proof fn lemma_and_ones8(x: u8)
    by (bit_vector)
    ensures
        x & 0xffu8 == x,
{
}

/// Clearing the low 32 bits of two words leaves equal values exactly when
/// their high halves agree.
proof fn lemma_mask_high_div(x: u64, y: u64)
    by (bit_vector)
    ensures
        (x & 0xFFFFFFFF00000000u64 == y & 0xFFFFFFFF00000000u64) <==> (x / 0x100000000 == y
            / 0x100000000),
{
}

impl u200 {
    /// The 168-bit quotient written out over the limbs.
    proof fn lemma_high168_parts(self)
        ensures
            self.high168() == (self.0 as nat) / 0x100000000 + (self.1 as nat) * 0x100000000nat + (
            self.2 as nat) * 0x1000000000000000000000000nat + (self.3 as nat)
                * 0x10000000000000000000000000000000000000000nat,
            self.high168() % 0x100000000 == (self.0 as nat) / 0x100000000,
            (self.high168() / 0x100000000) % 0x10000000000000000 == self.1,
            ((self.high168() / 0x100000000) / 0x10000000000000000) % 0x10000000000000000 == self.2,
            ((self.high168() / 0x100000000) / 0x10000000000000000) / 0x10000000000000000 == self.3,
    {
        let c32: int = 0x100000000;
        let c64: int = 0x10000000000000000;
        let q: int = (self.0 as int) / c32 + (self.1 as int) * 0x100000000
            + (self.2 as int) * 0x1000000000000000000000000 + (self.3 as int)
            * 0x10000000000000000000000000000000000000000;
        let r: int = (self.0 as int) % c32;
        vstd::arithmetic::div_mod::lemma_fundamental_div_mod(self.0 as int, c32);
        vstd::arithmetic::div_mod::lemma_mod_division_less_than_divisor(self.0 as int, c32);
        vstd::arithmetic::div_mod::lemma_div_pos_is_pos(self.0 as int, c32);
        vstd::arithmetic::div_mod::lemma_fundamental_div_mod_converse(
            self.as_nat() as int,
            c32,
            q,
            r,
        );
        assert(self.high168() == q);
        let q1: int = (self.1 as int) + (self.2 as int) * 0x10000000000000000 + (self.3 as int)
            * 0x100000000000000000000000000000000;
        vstd::arithmetic::div_mod::lemma_multiply_divide_lt(self.0 as int, c32, c32);
        vstd::arithmetic::div_mod::lemma_fundamental_div_mod_converse(
            q,
            c32,
            q1,
            (self.0 as int) / c32,
        );
        assert(q % c32 == (self.0 as int) / c32);
        assert(q / c32 == q1);
        let q2: int = (self.2 as int) + (self.3 as int) * 0x10000000000000000;
        vstd::arithmetic::div_mod::lemma_fundamental_div_mod_converse(q1, c64, q2, self.1 as int);
        assert(q1 % c64 == self.1 as int);
        assert(q1 / c64 == q2);
        vstd::arithmetic::div_mod::lemma_fundamental_div_mod_converse(
            q2,
            c64,
            self.3 as int,
            self.2 as int,
        );
    }

    /// Compares the parts of two values that lie outside the 4-byte
    /// checksum field, by clearing the low 32 bits of each and comparing
    /// limbs.
    pub fn high168_equals(self, other: u200) -> (r: bool)
        ensures
            r == (self.high168() == other.high168()),
    {
        let mask = u200::from_u64(0xFFFFFFFF).bitnot();
        let a = self.bitand(mask);
        let b = other.bitand(mask);
        proof {
            lemma_not_consts();
            lemma_not_zero_u8();
            lemma_and_ones64(self.1);
            lemma_and_ones64(self.2);
            lemma_and_ones64(other.1);
            lemma_and_ones64(other.2);
            lemma_and_ones8(self.3);
            lemma_and_ones8(other.3);
            lemma_mask_high_div(self.0, other.0);
            self.lemma_high168_parts();
            other.lemma_high168_parts();
        }
        a.0 == b.0 && a.1 == b.1 && a.2 == b.2 && a.3 == b.3
    }
}

/// The 25-byte payload splits into the 21-byte hashed prefix and the 4-byte
/// checksum tail.
pub proof fn lemma_payload_split(v: nat)
    ensures
        be_bytes(v, 25) == be_bytes(v / 0x100000000, 21) + be_bytes(v % 0x100000000, 4),
        be_bytes(v / 0x100000000, 21).len() == 21,
        be_bytes(v % 0x100000000, 4).len() == 4,
{
    lemma_pow256_values();
    vstd::arithmetic::div_mod::lemma_fundamental_div_mod(v as int, 0x100000000);
    vstd::arithmetic::div_mod::lemma_mod_division_less_than_divisor(v as int, 0x100000000);
    vstd::arithmetic::div_mod::lemma_div_pos_is_pos(v as int, 0x100000000);
    lemma_be_bytes_split((v % 0x100000000) as nat, (v / 0x100000000) as nat, 4, 25);
    lemma_be_bytes_len((v / 0x100000000) as nat, 21);
    lemma_be_bytes_len((v % 0x100000000) as nat, 4);
}

/// If adding `s` does not change the value's high part, the whole of `s`
/// fits inside the checksum field, and adding any part of it changes
/// neither the high part nor the field's headroom.
pub proof fn lemma_same_high_tail(v: nat, f: nat, s: nat)
    requires
        f <= s,
        (v + s) / 0x100000000 == v / 0x100000000,
    ensures
        v % 0x100000000 + s < 0x100000000,
        (v + f) / 0x100000000 == v / 0x100000000,
        (v + f) % 0x100000000 == v % 0x100000000 + f,
{
    let c: int = 0x100000000;
    vstd::arithmetic::div_mod::lemma_fundamental_div_mod(v as int, c);
    vstd::arithmetic::div_mod::lemma_fundamental_div_mod((v + s) as int, c);
    vstd::arithmetic::div_mod::lemma_fundamental_div_mod((v + f) as int, c);
    vstd::arithmetic::div_mod::lemma_mod_division_less_than_divisor(v as int, c);
    vstd::arithmetic::div_mod::lemma_mod_division_less_than_divisor((v + s) as int, c);
    vstd::arithmetic::div_mod::lemma_mod_division_less_than_divisor((v + f) as int, c);
    vstd::arithmetic::div_mod::lemma_div_is_ordered(v as int, (v + f) as int, c);
    vstd::arithmetic::div_mod::lemma_div_is_ordered((v + f) as int, (v + s) as int, c);
    vstd::arithmetic::div_mod::lemma_div_pos_is_pos(v as int, c);
}

/// Big-endian `n`-byte encoding of `v`; only `v % 256^n` is represented.
pub open spec fn be_bytes(v: nat, n: nat) -> Seq<u8>
    decreases n,
{
    if n == 0 {
        Seq::empty()
    } else {
        be_bytes(v / 256, (n - 1) as nat).push((v % 256) as u8)
    }
}

/// 256 raised to the power `k`.
pub open spec fn pow256(k: nat) -> nat
    decreases k,
{
    if k == 0 {
        1
    } else {
        256 * pow256((k - 1) as nat)
    }
}

/// A big-endian encoding has exactly the requested length.
pub broadcast proof fn lemma_be_bytes_len(v: nat, n: nat)
    ensures
        (#[trigger] be_bytes(v, n)).len() == n,
    decreases n,
{
    if n > 0 {
        lemma_be_bytes_len(v / 256, (n - 1) as nat);
    }
}

/// Concrete values of the digit-boundary powers used for the payload layout.
proof fn lemma_pow256_values()
    ensures
        pow256(0) == 1,
        pow256(1) == 0x100,
        pow256(2) == 0x10000,
        pow256(3) == 0x1000000,
        pow256(4) == 0x100000000,
        pow256(5) == 0x10000000000,
        pow256(6) == 0x1000000000000,
        pow256(7) == 0x100000000000000,
        pow256(8) == 0x10000000000000000,
{
    assert(pow256(0) == 1);
    assert(pow256(1) == 256);
    assert(pow256(2) == 0x10000);
    assert(pow256(3) == 0x1000000);
    assert(pow256(4) == 0x100000000);
    assert(pow256(5) == 0x10000000000);
    assert(pow256(6) == 0x1000000000000);
    assert(pow256(7) == 0x100000000000000);
    assert(pow256(8) == 0x10000000000000000);
}

/// Splitting a value at the 256^k digit boundary splits its big-endian
/// encoding into the encodings of the two parts.
pub proof fn lemma_be_bytes_split(x: nat, y: nat, k: nat, n: nat)
    requires
        x < pow256(k),
        k <= n,
    ensures
        be_bytes(x + pow256(k) * y, n) == be_bytes(y, (n - k) as nat) + be_bytes(x, k),
    decreases k,
{
    lemma_be_bytes_len(y, (n - k) as nat);
    if k == 0 {
        assert(pow256(0) * y == y) by (nonlinear_arith);
        assert(be_bytes(y, n) + be_bytes(x, 0) =~= be_bytes(y, n));
    } else {
        let p = pow256((k - 1) as nat);
        let v = x + pow256(k) * y;
        assert(pow256(k) * y == 256 * (p * y)) by (nonlinear_arith)
            requires
                pow256(k) == 256 * p,
        ;
        vstd::arithmetic::div_mod::lemma_mod_multiples_vanish((p * y) as int, x as int, 256);
        assert(v % 256 == x % 256);
        vstd::arithmetic::div_mod::lemma_hoist_over_denominator(x as int, (p * y) as int, 256);
        assert(v / 256 == x / 256 + p * y);
        vstd::arithmetic::div_mod::lemma_multiply_divide_lt(x as int, 256, p as int);
        assert(x / 256 < p);
        lemma_be_bytes_split((x / 256) as nat, y, (k - 1) as nat, (n - 1) as nat);
        assert(be_bytes(v, n) == be_bytes((v / 256) as nat, (n - 1) as nat).push(
            (v % 256) as u8,
        ));
        assert(be_bytes(v, n) =~= be_bytes(y, (n - k) as nat) + be_bytes(x, k));
    }
}

/// Powers of 256 are positive.
proof fn lemma_pow256_pos(k: nat)
    ensures
        pow256(k) >= 1,
    decreases k,
{
    if k > 0 {
        lemma_pow256_pos((k - 1) as nat);
    }
}

/// Each byte of a big-endian encoding is the matching base-256 digit of the
/// encoded value.
pub proof fn lemma_be_bytes_index(v: nat, n: nat, j: int)
    requires
        0 <= j < n,
    ensures
        be_bytes(v, n)[j] == (((v / pow256((n - 1 - j) as nat)) % 256) as u8),
    decreases n,
{
    lemma_be_bytes_len(v / 256, (n - 1) as nat);
    if j == n - 1 {
        assert(pow256(0) == 1);
        assert(v / 1 == v) by {
            vstd::arithmetic::div_mod::lemma_div_by_self(1);
            vstd::arithmetic::div_mod::lemma_div_multiples_vanish(v as int, 1);
        }
    } else {
        lemma_be_bytes_index(v / 256, (n - 1) as nat, j);
        let e = (n - 2 - j) as nat;
        lemma_pow256_pos(e);
        assert(pow256(e + 1) == 256 * pow256(e));
        vstd::arithmetic::div_mod::lemma_div_denominator(v as int, 256, pow256(e) as int);
        assert((v / 256) / pow256(e) == v / (256 * pow256(e)));
    }
}

/// The 25 exec-computed limb digits form the big-endian encoding of the
/// whole 200-bit value.
proof fn lemma_u200_be_bytes(a: u200, s: Seq<u8>)
    requires
        s.len() == 25,
        s[0] == a.3,
        forall|j: int| 1 <= j < 9 ==> s[j] == limb_byte(a.2, j - 1),
        forall|j: int| 9 <= j < 17 ==> s[j] == limb_byte(a.1, j - 9),
        forall|j: int| 17 <= j < 25 ==> s[j] == limb_byte(a.0, j - 17),
    ensures
        s == be_bytes(a.as_nat(), 25),
{
    lemma_pow256_values();
    let rest1 = (a.2 as nat) + 0x10000000000000000 * (a.3 as nat);
    let rest0 = (a.1 as nat) + 0x10000000000000000 * rest1;
    let v = a.as_nat();
    assert(v == (a.0 as nat) + 0x10000000000000000 * rest0);
    lemma_be_bytes_split(a.0 as nat, rest0, 8, 25);
    lemma_be_bytes_split(a.1 as nat, rest1, 8, 17);
    lemma_be_bytes_split(a.2 as nat, a.3 as nat, 8, 9);
    lemma_be_bytes_len(a.0 as nat, 8);
    lemma_be_bytes_len(a.1 as nat, 8);
    lemma_be_bytes_len(a.2 as nat, 8);
    lemma_be_bytes_len(a.3 as nat, 1);
    lemma_be_bytes_len(rest0, 17);
    lemma_be_bytes_len(rest1, 9);
    lemma_be_bytes_len(v, 25);
    assert(be_bytes(a.3 as nat, 1) == be_bytes((a.3 as nat) / 256, 0).push(
        ((a.3 as nat) % 256) as u8,
    ));
    assert(be_bytes(a.3 as nat, 1)[0] == a.3);
    assert forall|j: int| 0 <= j < 8 implies be_bytes(a.0 as nat, 8)[j] == limb_byte(a.0, j) by {
        lemma_be_bytes_index(a.0 as nat, 8, j);
    }
    assert forall|j: int| 0 <= j < 8 implies be_bytes(a.1 as nat, 8)[j] == limb_byte(a.1, j) by {
        lemma_be_bytes_index(a.1 as nat, 8, j);
    }
    assert forall|j: int| 0 <= j < 8 implies be_bytes(a.2 as nat, 8)[j] == limb_byte(a.2, j) by {
        lemma_be_bytes_index(a.2 as nat, 8, j);
    }
    assert(s =~= be_bytes(v, 25));
}

/// The big-endian byte of a 64-bit limb at position `j`, where position 0 is
/// the most significant of the limb's 8 bytes.
pub open spec fn limb_byte(l: u64, j: int) -> u8 {
    if j == 0 {
        (((l as nat) / 0x100000000000000nat % 256) as u8)
    } else if j == 1 {
        (((l as nat) / 0x1000000000000nat % 256) as u8)
    } else if j == 2 {
        (((l as nat) / 0x10000000000nat % 256) as u8)
    } else if j == 3 {
        (((l as nat) / 0x100000000nat % 256) as u8)
    } else if j == 4 {
        (((l as nat) / 0x1000000nat % 256) as u8)
    } else if j == 5 {
        (((l as nat) / 0x10000nat % 256) as u8)
    } else if j == 6 {
        (((l as nat) / 0x100nat % 256) as u8)
    } else {
        (((l as nat) % 256) as u8)
    }
}

/// A limb-by-scalar product plus an incoming carry fits in 128 bits.
proof fn lemma_limb_product_fits(l: u64, k: u64, c: u64)
    ensures
        (l as nat) * (k as nat) + c < 0x100000000000000000000000000000000,
{
    assert((l as nat) * (k as nat) + c < 0x100000000000000000000000000000000)
        by (nonlinear_arith)
        requires
            l <= 0xffffffffffffffffu64,
            k <= 0xffffffffffffffffu64,
            c <= 0xffffffffffffffffu64,
    ;
}

/// The carried limb-by-scalar products reconstruct the full product, and the
/// final partial product fits the 8-bit top limb whenever the product fits in
/// 200 bits.
proof fn lemma_scale_chain(a: u200, k: u64, p0: nat, p1: nat, p2: nat, p3: nat)
    requires
        a.as_nat() * k < u200_bound(),
        p0 == (a.0 as nat) * k,
        p1 == (a.1 as nat) * k + p0 / 0x10000000000000000,
        p2 == (a.2 as nat) * k + p1 / 0x10000000000000000,
        p3 == (a.3 as nat) * k + p2 / 0x10000000000000000,
    ensures
        p3 < 256,
        u200(
            (p0 % 0x10000000000000000) as u64,
            (p1 % 0x10000000000000000) as u64,
            (p2 % 0x10000000000000000) as u64,
            (p3 % 256) as u8,
        ).as_nat() == a.as_nat() * k,
{
    let m: int = 0x10000000000000000;
    assert(a.as_nat() * k == (a.0 as nat) * (k as nat)
        + ((a.1 as nat) * (k as nat)) * 0x10000000000000000nat
        + ((a.2 as nat) * (k as nat)) * 0x100000000000000000000000000000000nat
        + ((a.3 as nat) * (k as nat)) * 0x1000000000000000000000000000000000000000000000000nat)
        by (nonlinear_arith);
    vstd::arithmetic::div_mod::lemma_fundamental_div_mod(p0 as int, m);
    vstd::arithmetic::div_mod::lemma_fundamental_div_mod(p1 as int, m);
    vstd::arithmetic::div_mod::lemma_fundamental_div_mod(p2 as int, m);
    vstd::arithmetic::div_mod::lemma_mod_division_less_than_divisor(p0 as int, m);
    vstd::arithmetic::div_mod::lemma_mod_division_less_than_divisor(p1 as int, m);
    vstd::arithmetic::div_mod::lemma_mod_division_less_than_divisor(p2 as int, m);
    vstd::arithmetic::div_mod::lemma_div_pos_is_pos(p0 as int, m);
    vstd::arithmetic::div_mod::lemma_div_pos_is_pos(p1 as int, m);
    vstd::arithmetic::div_mod::lemma_div_pos_is_pos(p2 as int, m);
}

/// The three carried partial sums reconstruct the full sum, and the final
/// carry is absorbed by the 8-bit top limb whenever the sum fits in 200 bits.
proof fn lemma_carry_chain_bound(a: u200, b: u200, s0: nat, s1: nat, s2: nat, s3: nat)
    requires
        a.as_nat() + b.as_nat() < u200_bound(),
        s0 == a.0 + b.0,
        s1 == a.1 + b.1 + s0 / 0x10000000000000000,
        s2 == a.2 + b.2 + s1 / 0x10000000000000000,
        s3 == a.3 + b.3 + s2 / 0x10000000000000000,
    ensures
        s3 < 256,
        u200(
            (s0 % 0x10000000000000000) as u64,
            (s1 % 0x10000000000000000) as u64,
            (s2 % 0x10000000000000000) as u64,
            (s3 % 256) as u8,
        ).as_nat() == a.as_nat() + b.as_nat(),
{
    let m: int = 0x10000000000000000;
    vstd::arithmetic::div_mod::lemma_fundamental_div_mod(s0 as int, m);
    vstd::arithmetic::div_mod::lemma_fundamental_div_mod(s1 as int, m);
    vstd::arithmetic::div_mod::lemma_fundamental_div_mod(s2 as int, m);
    vstd::arithmetic::div_mod::lemma_mod_division_less_than_divisor(s0 as int, m);
    vstd::arithmetic::div_mod::lemma_mod_division_less_than_divisor(s1 as int, m);
    vstd::arithmetic::div_mod::lemma_mod_division_less_than_divisor(s2 as int, m);
    vstd::arithmetic::div_mod::lemma_div_pos_is_pos(s0 as int, m);
    vstd::arithmetic::div_mod::lemma_div_pos_is_pos(s1 as int, m);
    vstd::arithmetic::div_mod::lemma_div_pos_is_pos(s2 as int, m);
}

} // verus!
