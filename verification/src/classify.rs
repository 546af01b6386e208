//! The digit classifier: parses a garbled Base58Check address into its
//! canonical-case numeric value, the canonical-case byte string, and one
//! ambiguity record per position whose two case forms are distinct valid
//! Base58 digits.

use vstd::prelude::*;
use crate::big::u200;
use crate::big::u200_bound;
use crate::resolver::records_ordered;
use crate::resolver::sum_fixups;
use crate::resolver::super_increasing;

verus! {

/// The value of a byte in the Base58 alphabet
/// `123456789ABCDEFGHJKLMNPQRSTUVWXYZabcdefghijkmnopqrstuvwxyz`,
/// or -1 if the byte is not a Base58 digit.
#[verifier::opaque]
pub open spec fn b58_digit(b: u8) -> int {
    if 49 <= b <= 57 {
        b - 49
    } else if 65 <= b <= 72 {
        b - 65 + 9
    } else if 74 <= b <= 78 {
        b - 74 + 17
    } else if 80 <= b <= 90 {
        b - 80 + 22
    } else if 97 <= b <= 107 {
        b - 97 + 33
    } else if 109 <= b <= 122 {
        b - 109 + 44
    } else {
        -1
    }
}

/// ASCII uppercase form of a byte.
#[verifier::opaque]
pub open spec fn upper_byte(b: u8) -> u8 {
    if 97 <= b <= 122 {
        (b - 32) as u8
    } else {
        b
    }
}

/// ASCII lowercase form of a byte.
#[verifier::opaque]
pub open spec fn lower_byte(b: u8) -> u8 {
    if 65 <= b <= 90 {
        (b + 32) as u8
    } else {
        b
    }
}

/// The Base58 value of the uppercase form of a byte, or -1.
pub open spec fn upper_digit(b: u8) -> int {
    b58_digit(upper_byte(b))
}

/// The Base58 value of the lowercase form of a byte, or -1.
pub open spec fn lower_digit(b: u8) -> int {
    b58_digit(lower_byte(b))
}

/// A byte is acceptable when at least one of its case forms is a Base58
/// digit.
pub open spec fn is_valid_char(b: u8) -> bool {
    upper_digit(b) >= 0 || lower_digit(b) >= 0
}

/// A byte is ambiguous when both case forms are valid digits with distinct
/// values.
pub open spec fn is_ambiguous(b: u8) -> bool {
    upper_digit(b) >= 0 && lower_digit(b) >= 0 && upper_digit(b) != lower_digit(b)
}

/// The digit value chosen for the canonical reading: uppercase preferred.
pub open spec fn canonical_digit(b: u8) -> int {
    if upper_digit(b) >= 0 {
        upper_digit(b)
    } else {
        lower_digit(b)
    }
}

/// The byte chosen for the canonical reading: uppercase preferred.
pub open spec fn canonical_byte(b: u8) -> u8 {
    if upper_digit(b) >= 0 {
        upper_byte(b)
    } else {
        lower_byte(b)
    }
}

/// Every byte of the sequence is acceptable in at least one case form.
pub open spec fn all_valid(s: Seq<u8>) -> bool {
    forall|i: int| 0 <= i < s.len() ==> is_valid_char(#[trigger] s[i])
}

/// 58 raised to the power `k`.
pub open spec fn pow58(k: nat) -> nat
    decreases k,
{
    if k == 0 {
        1
    } else {
        58 * pow58((k - 1) as nat)
    }
}

/// The canonical-case numeric value of the suffix of `s` starting at
/// position `i`: each digit weighted by 58 to the power of its distance
/// from the end.
pub open spec fn suffix_value(s: Seq<u8>, i: int) -> nat
    recommends
        0 <= i <= s.len(),
    decreases s.len() - i,
{
    if i < 0 || i >= s.len() {
        0
    } else {
        (if canonical_digit(s[i]) >= 0 {
            canonical_digit(s[i]) as nat
        } else {
            0
        }) * pow58((s.len() - 1 - i) as nat) + suffix_value(s, i + 1)
    }
}

/// The fixup of an ambiguous position: the value delta incurred by
/// re-casing that digit from its canonical (uppercase) form to lowercase.
pub open spec fn fixup_val(s: Seq<u8>, i: int) -> nat
    recommends
        0 <= i < s.len(),
        is_ambiguous(s[i]),
{
    ((lower_digit(s[i]) - upper_digit(s[i])) as nat) * pow58((s.len() - 1 - i) as nat)
}

/// The ambiguity records for positions at or after `i`, ordered from most
/// significant (smallest index) to least, as (position, fixup value) pairs.
pub open spec fn records_from(s: Seq<u8>, i: int) -> Seq<(int, nat)>
    recommends
        0 <= i <= s.len(),
    decreases s.len() - i,
{
    if i < 0 || i >= s.len() {
        Seq::empty()
    } else if is_ambiguous(s[i]) {
        seq![(i, fixup_val(s, i))] + records_from(s, i + 1)
    } else {
        records_from(s, i + 1)
    }
}

/// One ambiguous digit: its position in the address and the value delta of
/// choosing its lowercase form.
#[derive(Clone, Copy)]
pub struct AmbiguityRecord {
    pub position: usize,
    pub fixup: u200,
}

impl AmbiguityRecord {
    /// The record as a (position, fixup value) pair.
    pub open spec fn view_pair(self) -> (int, nat) {
        (self.position as int, self.fixup.as_nat())
    }
}

/// The (position, fixup value) pairs of a record list.
pub open spec fn records_view(rs: Seq<AmbiguityRecord>) -> Seq<(int, nat)> {
    rs.map_values(|r: AmbiguityRecord| r.view_pair())
}

/// The single fatal failure of the recovery pipeline: a character that is
/// not a Base58 digit in either case form.
#[derive(Clone, Copy, PartialEq, Eq, Structural, Debug)]
pub enum RecoverError {
    InvalidCharacter,
}

/// The classifier output: the canonical-case value, the canonical-case byte
/// string, and the ambiguity records ordered most significant first.
pub struct ParsedInput {
    pub parsed_number: u200,
    pub base_address: Vec<u8>,
    pub possible_differences: Vec<AmbiguityRecord>,
}

impl ParsedInput {
    /// The classifier's guarantees about its own output for input `s`.
    pub open spec fn matches(self, s: Seq<u8>) -> bool {
        &&& self.parsed_number.as_nat() == suffix_value(s, 0)
        &&& self.base_address@.len() == s.len()
        &&& (forall|i: int| 0 <= i < s.len() ==> self.base_address@[i] == canonical_byte(
            #[trigger] s[i],
        ))
        &&& records_view(self.possible_differences@) == records_from(s, 0)
    }
}


/// ASCII uppercase form of a byte.
fn to_upper(b: u8) -> (r: u8)
    ensures
        r == upper_byte(b),
{
    proof {
        reveal(upper_byte);
    }
    if 97 <= b && b <= 122 {
        b - 32
    } else {
        b
    }
}

/// ASCII lowercase form of a byte.
pub(crate) fn to_lower(b: u8) -> (r: u8)
    ensures
        r == lower_byte(b),
{
    proof {
        reveal(lower_byte);
    }
    if 65 <= b && b <= 90 {
        b + 32
    } else {
        b
    }
}

/// Looks a byte up in the Base58 alphabet.
fn b58_digit_of(b: u8) -> (r: Option<u8>)
    ensures
        r is Some <==> b58_digit(b) >= 0,
        r matches Some(d) ==> d == b58_digit(b),
{
    proof {
        reveal(b58_digit);
    }
    if 49 <= b && b <= 57 {
        Some(b - 49)
    } else if 65 <= b && b <= 72 {
        Some(b - 65 + 9)
    } else if 74 <= b && b <= 78 {
        Some(b - 74 + 17)
    } else if 80 <= b && b <= 90 {
        Some(b - 80 + 22)
    } else if 97 <= b && b <= 107 {
        Some(b - 97 + 33)
    } else if 109 <= b && b <= 122 {
        Some(b - 109 + 44)
    } else {
        None
    }
}

/// Mapping to pairs commutes with appending one record.
proof fn lemma_records_view_push(v: Seq<AmbiguityRecord>, r: AmbiguityRecord)
    ensures
        records_view(v.push(r)) == records_view(v).push(r.view_pair()),
{
    assert(records_view(v.push(r)) =~= records_view(v).push(r.view_pair()));
}

/// Walking one ambiguous position to the left appends its record to the
/// reversed record list.
proof fn lemma_records_from_step_ambig(s: Seq<u8>, i: int)
    requires
        0 <= i < s.len(),
        is_ambiguous(s[i]),
    ensures
        records_from(s, i).reverse() == records_from(s, i + 1).reverse().push(
            (i, fixup_val(s, i)),
        ),
{
    let rest = records_from(s, i + 1);
    assert(records_from(s, i) == seq![(i, fixup_val(s, i))] + rest);
    assert(records_from(s, i).reverse() =~= rest.reverse().push((i, fixup_val(s, i))));
}

/// Walking one unambiguous position to the left leaves the record list
/// unchanged.
proof fn lemma_records_from_step_plain(s: Seq<u8>, i: int)
    requires
        0 <= i < s.len(),
        !is_ambiguous(s[i]),
    ensures
        records_from(s, i) == records_from(s, i + 1),
{
}

/// How one character of the garbled address reads as a Base58 digit.
enum CharClass {
    /// Both case forms are valid digits with distinct values: canonical
    /// (uppercase) digit first, lowercase digit second.
    Ambiguous(u8, u8),
    /// Exactly one reading: the canonical digit value.
    Plain(u8),
    /// Valid in neither case form.
    Bad,
}

/// Classifies one character of the garbled address.
fn classify_char(b: u8) -> (r: CharClass)
    ensures
        r is Bad <==> !is_valid_char(b),
        r matches CharClass::Plain(d) ==> !is_ambiguous(b) && d == canonical_digit(b) && d < 58,
        r matches CharClass::Ambiguous(d1, d2) ==> is_ambiguous(b) && d1 == upper_digit(b) && d1
            == canonical_digit(b) && d2 == lower_digit(b) && d1 < d2 < 58,
{
    proof {
        lemma_digit_facts(b);
    }
    let digit1 = b58_digit_of(to_upper(b));
    let digit2 = b58_digit_of(to_lower(b));
    match (digit1, digit2) {
        (Some(d1), Some(d2)) => {
            if d1 != d2 {
                CharClass::Ambiguous(d1, d2)
            } else {
                CharClass::Plain(d1)
            }
        },
        (Some(d), None) => CharClass::Plain(d),
        (None, Some(d)) => CharClass::Plain(d),
        (None, None) => CharClass::Bad,
    }
}

/// Consumes one character during the right-to-left scan: extends the
/// running value by the canonical digit at this position and produces the
/// position's ambiguity record, if any.
fn classify_step(
    byte: u8,
    position: usize,
    parsed_number: u200,
    power_58_i: u200,
    Ghost(s): Ghost<Seq<u8>>,
) -> (r: Option<(u200, Option<AmbiguityRecord>)>)
    requires
        s.len() <= 34,
        0 <= position < s.len(),
        byte == s[position as int],
        power_58_i.as_nat() == pow58((s.len() - 1 - position) as nat),
        parsed_number.as_nat() == suffix_value(s, position + 1),
    ensures
        r is Some <==> is_valid_char(byte),
        r matches Some(p) ==> p.0.as_nat() == suffix_value(s, position as int),
        r matches Some(p) ==> (p.1 is Some <==> is_ambiguous(byte)),
        r matches Some(p) ==> (p.1 matches Some(rec) ==> rec.position == position
            && rec.fixup.as_nat() == fixup_val(s, position as int)),
{
    let ghost i = position as int;
    let ghost p = pow58((s.len() - 1 - i) as nat);
    proof {
        lemma_suffix_value_bound(s, i + 1);
        lemma_pow58_le((s.len() - i) as nat, 34);
        lemma_pow58_34_bound();
        lemma_pow58_pos((s.len() - 1 - i) as nat);
        assert(pow58((s.len() - i) as nat) == 58 * p);
    }
    match classify_char(byte) {
        CharClass::Ambiguous(digit1, digit2) => {
            proof {
                lemma_mul_le(digit1 as nat, 57, p);
                lemma_mul_le((digit2 - digit1) as nat, 57, p);
            }
            let new_parsed = parsed_number.plus(power_58_i.times(digit1 as u64));
            let fixup = power_58_i.times((digit2 - digit1) as u64);
            Some((new_parsed, Some(AmbiguityRecord { position, fixup })))
        },
        CharClass::Plain(digit) => {
            proof {
                lemma_mul_le(digit as nat, 57, p);
            }
            let new_parsed = parsed_number.plus(power_58_i.times(digit as u64));
            Some((new_parsed, None))
        },
        CharClass::Bad => None,
    }
}

/// Parses a garbled address into its canonical-case value, canonical-case
/// byte string, and the ambiguity records, scanning once from the least
/// significant digit to the most. Fails exactly when some character is valid
/// in neither case form.
pub fn classify(garbled: &Vec<u8>) -> (r: Result<ParsedInput, RecoverError>)
    requires
        garbled@.len() <= 34,
    ensures
        r is Ok <==> all_valid(garbled@),
        r matches Ok(p) ==> p.matches(garbled@),
{
    let n = garbled.len();
    let mut parsed_number = u200::from_u64(0);
    let mut power_58_i = u200::from_u64(1);
    let mut fixups_rev: Vec<AmbiguityRecord> = Vec::new();
    let mut i: usize = n;
    while i > 0
        invariant
            i <= n,
            n == garbled@.len(),
            n <= 34,
            power_58_i.as_nat() == pow58((n - i) as nat),
            parsed_number.as_nat() == suffix_value(garbled@, i as int),
            records_view(fixups_rev@) == records_from(garbled@, i as int).reverse(),
            forall|j: int| i <= j < n ==> is_valid_char(#[trigger] garbled@[j]),
        decreases i,
    {
        i = i - 1;
        let byte = garbled[i];
        let ghost p = pow58((n - 1 - i) as nat);
        proof {
            lemma_pow58_le((n - i) as nat, 34);
            lemma_pow58_34_bound();
            lemma_pow58_pos((n - 1 - i) as nat);
            assert(pow58((n - i) as nat) == 58 * p);
        }
        match classify_step(byte, i, parsed_number, power_58_i, Ghost(garbled@)) {
            Some((new_parsed, rec_opt)) => {
                parsed_number = new_parsed;
                match rec_opt {
                    Some(rec) => {
                        proof {
                            lemma_records_view_push(fixups_rev@, rec);
                            lemma_records_from_step_ambig(garbled@, i as int);
                        }
                        fixups_rev.push(rec);
                    },
                    None => {
                        proof {
                            lemma_records_from_step_plain(garbled@, i as int);
                        }
                    },
                }
            },
            None => {
                proof {
                    assert(!is_valid_char(garbled@[i as int]));
                    assert(!all_valid(garbled@));
                }
                return Err(RecoverError::InvalidCharacter);
            },
        }
        proof {
            lemma_mul_le(58, 58, p);
        }
        power_58_i = power_58_i.times(58);
    }
    let mut base_address: Vec<u8> = Vec::new();
    let mut j: usize = 0;
    while j < n
        invariant
            j <= n,
            n == garbled@.len(),
            base_address@.len() == j,
            forall|t: int| 0 <= t < j ==> base_address@[t] == canonical_byte(#[trigger] garbled@[t]),
            forall|t: int| 0 <= t < n ==> is_valid_char(#[trigger] garbled@[t]),
        decreases n - j,
    {
        let byte = garbled[j];
        let up = to_upper(byte);
        match b58_digit_of(up) {
            Some(_) => base_address.push(up),
            None => base_address.push(to_lower(byte)),
        }
        j = j + 1;
    }
    let mut possible_differences: Vec<AmbiguityRecord> = Vec::new();
    let mut k: usize = fixups_rev.len();
    while k > 0
        invariant
            k <= fixups_rev@.len(),
            possible_differences@.len() == fixups_rev@.len() - k,
            forall|t: int| 0 <= t < possible_differences@.len()
                ==> #[trigger] possible_differences@[t].view_pair() == fixups_rev@[fixups_rev@.len()
                - 1 - t].view_pair(),
        decreases k,
    {
        k = k - 1;
        possible_differences.push(fixups_rev[k]);
    }
    proof {
        let fr = fixups_rev@;
        let rf = records_from(garbled@, 0);
        assert(records_view(fr).len() == rf.reverse().len());
        assert forall|t: int| 0 <= t < possible_differences@.len() implies records_view(
            possible_differences@,
        )[t] == rf[t] by {
            assert(records_view(possible_differences@)[t] == possible_differences@[t].view_pair());
            assert(possible_differences@[t].view_pair() == fr[fr.len() - 1 - t].view_pair());
            assert(records_view(fr)[fr.len() - 1 - t] == fr[fr.len() - 1 - t].view_pair());
            assert(rf.reverse()[fr.len() - 1 - t] == rf[t]);
        }
        assert(records_view(possible_differences@) =~= rf);
    }
    Ok(ParsedInput { parsed_number, base_address, possible_differences })
}

/// Multiplication by a larger digit gives a larger multiple.
proof fn lemma_mul_le(d: nat, c: nat, p: nat)
    requires
        d <= c,
    ensures
        d * p <= c * p,
        p * d <= c * p,
{
    vstd::arithmetic::mul::lemma_mul_inequality(d as int, c as int, p as int);
    vstd::arithmetic::mul::lemma_mul_is_commutative(d as int, p as int);
}

/// Powers of 58 are at least 1.
pub proof fn lemma_pow58_pos(k: nat)
    ensures
        pow58(k) >= 1,
    decreases k,
{
    if k > 0 {
        lemma_pow58_pos((k - 1) as nat);
    }
}

/// Powers of 58 grow with the exponent.
pub proof fn lemma_pow58_le(a: nat, b: nat)
    requires
        a <= b,
    ensures
        pow58(a) <= pow58(b),
    decreases b,
{
    if a < b {
        lemma_pow58_le(a, (b - 1) as nat);
        lemma_pow58_pos((b - 1) as nat);
    }
}

/// Any power of 58 that an address of at most 34 digits can produce stays
/// below the 200-bit limit.
pub proof fn lemma_pow58_34_bound()
    ensures
        pow58(34) < u200_bound(),
{
    assert(pow58(0) == 1);
    assert(pow58(1) == 0x3a);
    assert(pow58(2) == 0xd24);
    assert(pow58(3) == 0x2fa28);
    assert(pow58(4) == 0xacad10);
    assert(pow58(5) == 0x271f35a0);
    assert(pow58(6) == 0x8dd122640);
    assert(pow58(7) == 0x202161caa80);
    assert(pow58(8) == 0x7479027ea100);
    assert(pow58(9) == 0x1a636a90b07a00);
    assert(pow58(10) == 0x5fa8624c7fba400);
    assert(pow58(11) == 0x15ac264554f032800);
    assert(pow58(12) == 0x4e900abb53e6b71000);
    assert(pow58(13) == 0x11cca26e71024579a000);
    assert(pow58(14) == 0x4085ccd059a83bd8e4000);
    assert(pow58(15) == 0xe9e506734501d8f23a8000);
    assert(pow58(16) == 0x34fde3761da26b26e1410000);
    assert(pow58(17) == 0xc018588c2b6cc46cf08ba0000);
    assert(pow58(18) == 0x2b85840fc1d6a480ae7fa240000);
    assert(pow58(19) == 0x9dc3feb91eaa1452788eac280000);
    assert(pow58(20) == 0x23be67b5f0f2889aaf505301100000);
    assert(pow58(21) == 0x819237f3896f2f30bb832ce3da00000);
    assert(pow58(22) == 0x1d5b20ad2d2330b10a7bb82b9f6400000);
    assert(pow58(23) == 0x6a6a5673c39f9081c6007b9e21ca800000);
    assert(pow58(24) == 0x181c17963a5226bd66dc1c01d3a7e1000000);
    assert(pow58(25) == 0x5765d5809369cc6e94dde5869f408fa000000);
    assert(pow58(26) == 0x13cd125f2165f8510dba46008014a08a4000000);
    assert(pow58(27) == 0x47c76298d911a425d1c33dc1d04ac5f528000000);
    assert(pow58(28) == 0x10432c56a12dff3091863bfde930f0d98b10000000);
    assert(pow58(29) == 0x3af380ba0846bd100f8699786d516914981a0000000);
    assert(pow58(30) == 0xd5b2b2a25e006d5a3847ec548c471ceaa75e40000000);
    assert(pow58(31) == 0x306a7c78c94c18c670c04b8b27c81c8d29eb5a80000000);
    assert(pow58(32) == 0xaf820335d9b3d9cf58b911d87035677fb7f528100000000);
    assert(pow58(33) == 0x27c374ba3352bf58fa19ee0b096c1972efad8b13a00000000);
    assert(pow58(34) == 0x90248722fa0bf5a28a9dfee80227dc40a4d518272400000000);
}

/// Every Base58 digit value is below 58, and for an ambiguous byte the
/// lowercase digit strictly exceeds the uppercase digit.
pub proof fn lemma_digit_facts(b: u8)
    ensures
        b58_digit(b) < 58,
        upper_digit(b) < 58,
        lower_digit(b) < 58,
        canonical_digit(b) < 58,
        is_ambiguous(b) ==> 1 <= lower_digit(b) - upper_digit(b) <= 57,
{
    reveal(b58_digit);
    reveal(upper_byte);
    reveal(lower_byte);
}

/// The canonical value of a suffix stays below 58 to the number of its
/// digits.
pub proof fn lemma_suffix_value_bound(s: Seq<u8>, i: int)
    requires
        0 <= i <= s.len(),
    ensures
        suffix_value(s, i) <= pow58((s.len() - i) as nat) - 1,
    decreases s.len() - i,
{
    lemma_pow58_pos((s.len() - i) as nat);
    if i < s.len() {
        lemma_suffix_value_bound(s, i + 1);
        lemma_digit_facts(s[i]);
        let p = pow58((s.len() - 1 - i) as nat);
        let d = if canonical_digit(s[i]) >= 0 { canonical_digit(s[i]) as nat } else { 0 };
        assert(d * p <= 57 * p) by (nonlinear_arith)
            requires
                d <= 57,
                p >= 0,
        ;
        assert(pow58((s.len() - i) as nat) == 58 * p);
    }
}


/// A byte that is itself a Base58 digit and is not ambiguous keeps its own
/// case under the canonical (uppercase-preferred) reading.
pub proof fn lemma_canonical_fixed(b: u8)
    requires
        b58_digit(b) >= 0,
        !is_ambiguous(b),
    ensures
        canonical_byte(b) == b,
{
    reveal(b58_digit);
    reveal(upper_byte);
    reveal(lower_byte);
}

/// Lowercasing commutes with first uppercasing: both end at the lowercase
/// form.
pub proof fn lemma_lower_upper(b: u8)
    ensures
        lower_byte(upper_byte(b)) == lower_byte(b),
{
    reveal(upper_byte);
    reveal(lower_byte);
}

/// The records of a suffix carry positions inside that suffix, fixups of at
/// least one, strictly increasing positions, and a total fixup weight that
/// fits beside the canonical value below the next power of 58.
pub proof fn lemma_records_from_wf(s: Seq<u8>, i: int)
    requires
        0 <= i <= s.len(),
    ensures
        suffix_value(s, i) + sum_fixups(records_from(s, i)) < pow58((s.len() - i) as nat),
        super_increasing(records_from(s, i)),
        records_ordered(records_from(s, i), s.len() as int),
        forall|j: int| 0 <= j < records_from(s, i).len() ==> (#[trigger] records_from(s, i)[j]).0
            >= i,
    decreases s.len() - i,
{
    let rs = records_from(s, i);
    lemma_pow58_pos((s.len() - i) as nat);
    if i < s.len() {
        lemma_records_from_wf(s, i + 1);
        lemma_digit_facts(s[i]);
        lemma_pow58_pos((s.len() - 1 - i) as nat);
        let p = pow58((s.len() - 1 - i) as nat);
        let rest = records_from(s, i + 1);
        let d: nat = if canonical_digit(s[i]) >= 0 {
            canonical_digit(s[i]) as nat
        } else {
            0
        };
        if is_ambiguous(s[i]) {
            let delta = (lower_digit(s[i]) - upper_digit(s[i])) as nat;
            assert(rs == seq![(i, fixup_val(s, i))] + rest);
            assert(rs.drop_first() =~= rest);
            assert(rs[0] == (i, fixup_val(s, i)));
            assert(fixup_val(s, i) == delta * p);
            assert(p <= delta * p && delta * p <= 57 * p) by {
                vstd::arithmetic::mul::lemma_mul_inequality(1, delta as int, p as int);
                vstd::arithmetic::mul::lemma_mul_inequality(delta as int, 57, p as int);
            }
            assert(d * p <= 57 * p) by {
                vstd::arithmetic::mul::lemma_mul_inequality(d as int, 57, p as int);
            }
            assert(d + delta == lower_digit(s[i]));
            assert((d + delta) * p <= 57 * p) by {
                vstd::arithmetic::mul::lemma_mul_inequality((d + delta) as int, 57, p as int);
            }
            assert(d * p + delta * p == (d + delta) * p) by {
                vstd::arithmetic::mul::lemma_mul_is_distributive_add_other_way(
                    p as int,
                    d as int,
                    delta as int,
                );
            }
            assert(sum_fixups(rs) == fixup_val(s, i) + sum_fixups(rest));
            assert(pow58((s.len() - i) as nat) == 58 * p);
            assert(suffix_value(s, i) + sum_fixups(rs) < 58 * p);
            assert(sum_fixups(rest) < p);
            assert(super_increasing(rs));
            assert forall|j: int| 0 <= j < rs.len() implies 0 <= (#[trigger] rs[j]).0
                < s.len() as int && rs[j].1 >= 1 && rs[j].0 >= i by {
                if j > 0 {
                    assert(rs[j] == rest[j - 1]);
                }
            }
            assert forall|j: int, k: int| 0 <= j < k < rs.len() implies rs[j].0 < rs[k].0 by {
                assert(rs[k] == rest[k - 1]);
                if j > 0 {
                    assert(rs[j] == rest[j - 1]);
                }
            }
        } else {
            assert(rs == rest);
            assert(d * p <= 57 * p) by {
                vstd::arithmetic::mul::lemma_mul_inequality(d as int, 57, p as int);
            }
            assert(pow58((s.len() - i) as nat) == 58 * p);
        }
    } else {
        assert(rs =~= Seq::<(int, nat)>::empty());
    }
}

} // verus!
