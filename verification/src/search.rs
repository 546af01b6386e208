//! The branch-and-bound enumerator and the top-level recovery pipeline.
//!
//! The enumerator decides, per ambiguous digit, whether to apply its
//! case-flip fixup, but stops descending as soon as every still-undecided
//! fixup is confined to the 4-byte checksum field: from that point one
//! batched double hash and a greedy scan replace the whole remaining
//! subtree. Its contract states that nothing is lost by pruning: the engine
//! emits exactly what exhaustive enumeration of all case combinations
//! would.

use vstd::prelude::*;
use crate::big::be_bytes;
use crate::big::lemma_payload_split;
use crate::big::lemma_same_high_tail;
use crate::big::u200;
use crate::big::u200_bound;
use crate::classify::AmbiguityRecord;
use crate::classify::RecoverError;
use crate::classify::all_valid;
use crate::classify::b58_digit;
use crate::classify::canonical_byte;
use crate::classify::is_ambiguous;
use crate::classify::canonical_digit;
use crate::classify::fixup_val;
use crate::classify::lemma_canonical_fixed;
use crate::classify::lemma_digit_facts;
use crate::classify::lemma_lower_upper;
use crate::classify::lower_byte;
use crate::classify::lower_digit;
use crate::classify::pow58;
use crate::classify::upper_digit;
use crate::classify::classify;
use crate::classify::lemma_pow58_34_bound;
use crate::classify::lemma_pow58_le;
use crate::classify::lemma_records_from_wf;
use crate::classify::records_from;
use crate::classify::records_view;
use crate::classify::suffix_value;
use crate::engine::ParallelChecksum;
use crate::engine::PendingVerification;
use crate::engine::pending_outcome;
use crate::engine::seq_views;
use crate::resolver::apply_case;
use crate::resolver::chosen_sum;
use crate::resolver::greedy_result;
use crate::resolver::lemma_greedy_bounds;
use crate::resolver::lemma_mask_set_empty;
use crate::resolver::lemma_mask_set_insert;
use crate::resolver::lemma_skip_drop_first;
use crate::resolver::mask_set;
use crate::resolver::positions_of;
use crate::resolver::resolve_spec;
use crate::resolver::sum_fixups;
use crate::resolver::super_increasing;
use crate::sha256::sha_checksum;

verus! {

/// A 25-byte payload value passes Base58Check exactly when the checksum of
/// its 21-byte prefix equals its own 4-byte tail.
pub open spec fn valid_payload(v: nat) -> bool {
    sha_checksum(be_bytes(v / 0x100000000, 21)) == v % 0x100000000
}

/// The canonical-case byte string of a garbled input.
pub open spec fn base_of(s: Seq<u8>) -> Seq<u8> {
    Seq::new(s.len(), |i: int| canonical_byte(s[i]))
}

/// Exhaustive enumeration of the remaining case choices: every subset of
/// the remaining records is tried, the apply branch before the skip branch,
/// and a candidate is kept exactly when its full 25-byte payload passes the
/// checksum.
pub open spec fn brute_solutions(
    base: Seq<u8>,
    rs: Seq<(int, nat)>,
    v: nat,
    chosen: Set<int>,
) -> Seq<Seq<u8>>
    decreases rs.len(),
{
    if rs.len() == 0 {
        if valid_payload(v) {
            seq![apply_case(base, chosen)]
        } else {
            Seq::empty()
        }
    } else {
        brute_solutions(base, rs.drop_first(), v + rs[0].1, chosen.insert(rs[0].0))
            + brute_solutions(base, rs.drop_first(), v, chosen)
    }
}

/// What the whole pipeline outputs for a garbled input: the brute-force
/// enumeration of all 2^k case combinations, filtered by the checksum.
pub open spec fn recovered_addresses(s: Seq<u8>) -> Seq<Seq<u8>> {
    brute_solutions(base_of(s), records_from(s, 0), suffix_value(s, 0), Set::empty())
}

/// A later suffix never carries more fixup weight.
pub proof fn lemma_sum_skip_le(rs: Seq<(int, nat)>, j: int)
    requires
        0 <= j <= rs.len(),
    ensures
        sum_fixups(rs.skip(j)) <= sum_fixups(rs),
    decreases j,
{
    if j > 0 {
        lemma_sum_skip_le(rs, j - 1);
        lemma_skip_drop_first(rs, j - 1);
    } else {
        assert(rs.skip(0) =~= rs);
    }
}

/// Precomputes, for every suffix of the record list, the sum of all fixups
/// in that suffix; the final entry is zero.
pub fn suffix_sums_of(records: &Vec<AmbiguityRecord>) -> (r: Vec<u200>)
    requires
        sum_fixups(records_view(records@)) < u200_bound(),
    ensures
        r@.len() == records@.len() + 1,
        forall|j: int| 0 <= j <= records@.len() ==> #[trigger] r@[j].as_nat() == sum_fixups(
            records_view(records@).skip(j),
        ),
{
    let ghost rv = records_view(records@);
    let mut acc = u200::from_u64(0);
    let mut rev: Vec<u200> = Vec::new();
    proof {
        assert(rv.skip(records@.len() as int) =~= Seq::<(int, nat)>::empty());
    }
    rev.push(acc);
    let mut j: usize = records.len();
    while j > 0
        invariant
            j <= records@.len(),
            rv == records_view(records@),
            sum_fixups(rv) < u200_bound(),
            acc.as_nat() == sum_fixups(rv.skip(j as int)),
            rev@.len() == records@.len() - j + 1,
            forall|t: int| 0 <= t < rev@.len() ==> #[trigger] rev@[t].as_nat() == sum_fixups(
                rv.skip(records@.len() - t),
            ),
        decreases j,
    {
        j = j - 1;
        proof {
            lemma_skip_drop_first(rv, j as int);
            assert(rv[j as int] == records@[j as int].view_pair());
            lemma_sum_skip_le(rv, j as int);
        }
        acc = acc.plus(records[j].fixup);
        rev.push(acc);
    }
    let mut out: Vec<u200> = Vec::new();
    let mut t: usize = rev.len();
    while t > 0
        invariant
            t <= rev@.len(),
            out@.len() == rev@.len() - t,
            forall|u: int| 0 <= u < out@.len() ==> out@[u] == rev@[rev@.len() - 1 - u],
        decreases t,
    {
        t = t - 1;
        out.push(rev[t]);
    }
    proof {
        assert forall|jj: int| 0 <= jj <= records@.len() implies #[trigger] out@[jj].as_nat()
            == sum_fixups(rv.skip(jj)) by {
            assert(out@[jj] == rev@[records@.len() - jj]);
            assert(rev@[records@.len() - jj].as_nat() == sum_fixups(
                rv.skip(records@.len() - (records@.len() - jj)),
            ));
        }
    }
    out
}

/// Pruning soundness at a terminal node: when every remaining fixup is
/// confined to the checksum field, the greedy resolver's outcome for the
/// candidate equals the brute-force enumeration of the whole remaining
/// subtree.
pub proof fn lemma_terminal_resolves(base: Seq<u8>, rs: Seq<(int, nat)>, v: nat, chosen: Set<int>)
    requires
        super_increasing(rs),
        (v + sum_fixups(rs)) / 0x100000000 == v / 0x100000000,
    ensures
        brute_solutions(base, rs, v, chosen) == resolve_spec(
            rs,
            v % 0x100000000,
            sha_checksum(be_bytes(v / 0x100000000, 21)) as nat,
            chosen,
            base,
        ),
    decreases rs.len(),
{
    let cur = v % 0x100000000;
    let target = sha_checksum(be_bytes(v / 0x100000000, 21)) as nat;
    if rs.len() == 0 {
        assert(greedy_result(rs, cur, target, chosen) == (cur, chosen));
        if valid_payload(v) {
            assert(brute_solutions(base, rs, v, chosen) =~= resolve_spec(
                rs,
                cur,
                target,
                chosen,
                base,
            ));
        } else {
            assert(brute_solutions(base, rs, v, chosen) =~= resolve_spec(
                rs,
                cur,
                target,
                chosen,
                base,
            ));
        }
    } else {
        let f = rs[0].1;
        let pos = rs[0].0;
        let rest = rs.drop_first();
        assert(sum_fixups(rs) == f + sum_fixups(rest));
        lemma_same_high_tail(v, f, sum_fixups(rs));
        lemma_same_high_tail(v, sum_fixups(rest), sum_fixups(rs));
        assert((v + f) + sum_fixups(rest) == v + sum_fixups(rs));
        assert(((v + f) + sum_fixups(rest)) / 0x100000000 == (v + f) / 0x100000000);
        lemma_terminal_resolves(base, rest, v + f, chosen.insert(pos));
        lemma_terminal_resolves(base, rest, v, chosen);
        assert((v + f) % 0x100000000 == cur + f);
        if cur + f <= target {
            lemma_greedy_bounds(rest, cur, target, chosen);
            assert(greedy_result(rest, cur, target, chosen).0 <= cur + sum_fixups(rest));
            assert(cur + sum_fixups(rest) < cur + f);
            assert(resolve_spec(rest, cur, target, chosen, base) =~= Seq::<Seq<u8>>::empty());
            assert(greedy_result(rs, cur, target, chosen) == greedy_result(
                rest,
                cur + f,
                target,
                chosen.insert(pos),
            ));
            assert(brute_solutions(base, rs, v, chosen) =~= resolve_spec(
                rs,
                cur,
                target,
                chosen,
                base,
            ));
        } else {
            lemma_greedy_bounds(rest, cur + f, target, chosen.insert(pos));
            assert(greedy_result(rest, cur + f, target, chosen.insert(pos)).0 >= cur + f);
            assert(resolve_spec(rest, cur + f, target, chosen.insert(pos), base)
                =~= Seq::<Seq<u8>>::empty());
            assert(greedy_result(rs, cur, target, chosen) == greedy_result(
                rest,
                cur,
                target,
                chosen,
            ));
            assert(brute_solutions(base, rs, v, chosen) =~= resolve_spec(
                rs,
                cur,
                target,
                chosen,
                base,
            ));
        }
    }
}

/// Hands one terminal candidate to the hash engine: every still-undecided
/// fixup only perturbs checksum bytes, so the candidate's 21-byte prefix is
/// queued once, with a continuation holding the provisional checksum and
/// the undecided tail. The engine will end up emitting exactly the
/// brute-force enumeration of the whole remaining subtree.
fn submit_candidate(
    partly_fixed_number: u200,
    possible_differences: &Vec<AmbiguityRecord>,
    idx: usize,
    subset_bitmask: u64,
    parallel_checksum: &mut ParallelChecksum,
)
    requires
        old(parallel_checksum).wf(),
        old(parallel_checksum).rv() == records_view(possible_differences@),
        idx <= possible_differences@.len(),
        super_increasing(records_view(possible_differences@).skip(idx as int)),
        (partly_fixed_number.as_nat() + sum_fixups(
            records_view(possible_differences@).skip(idx as int),
        )) / 0x100000000 == partly_fixed_number.as_nat() / 0x100000000,
        mask_set(subset_bitmask) <= positions_of(records_view(possible_differences@)),
    ensures
        final(parallel_checksum).wf(),
        final(parallel_checksum).rv() == old(parallel_checksum).rv(),
        final(parallel_checksum).base_address@ == old(parallel_checksum).base_address@,
        final(parallel_checksum).emitted() == old(parallel_checksum).emitted() + brute_solutions(
            old(parallel_checksum).base_address@,
            records_view(possible_differences@).skip(idx as int),
            partly_fixed_number.as_nat(),
            mask_set(subset_bitmask),
        ),
{
    let ghost rv = records_view(possible_differences@);
    let ghost rs = rv.skip(idx as int);
    let ghost base = old(parallel_checksum).base_address@;
    proof {
        lemma_terminal_resolves(base, rs, partly_fixed_number.as_nat(), mask_set(subset_bitmask));
        lemma_same_high_tail(partly_fixed_number.as_nat(), sum_fixups(rs), sum_fixups(rs));
    }
    let byte_string_25 = partly_fixed_number.to_be_bytes();
    let current_checksum = partly_fixed_number.low32();
    let mut prefix = [0u8; 21];
    let mut t: usize = 0;
    while t < 21
        invariant
            t <= 21,
            byte_string_25@ == be_bytes(partly_fixed_number.as_nat(), 25),
            forall|u: int| 0 <= u < t ==> prefix@[u] == byte_string_25@[u],
        decreases 21 - t,
    {
        prefix[t] = byte_string_25[t];
        t = t + 1;
    }
    proof {
        lemma_payload_split(partly_fixed_number.as_nat());
        assert(prefix@ =~= be_bytes(partly_fixed_number.as_nat() / 0x100000000, 21));
    }
    let pending = PendingVerification { prefix, provisional: current_checksum, idx, subset_bitmask };
    proof {
        assert(pending_outcome(rv, base, pending) == brute_solutions(
            base,
            rs,
            partly_fixed_number.as_nat(),
            mask_set(subset_bitmask),
        ));
    }
    parallel_checksum.compute_later(pending);
}

/// Recursively decides, per ambiguous digit, whether to apply its fixup,
/// pruning as soon as every still-undecided fixup is confined to the
/// checksum field: the candidate's 21-byte prefix then goes to the hash
/// engine with a continuation, and no further hashing is needed for that
/// whole subtree. The engine ends up emitting exactly the brute-force
/// enumeration of the subtree rooted here.
pub fn iterate_through_possible_differences(
    partly_fixed_number: u200,
    possible_differences: &Vec<AmbiguityRecord>,
    idx: usize,
    suffix_sums: &Vec<u200>,
    subset_bitmask: u64,
    parallel_checksum: &mut ParallelChecksum,
)
    requires
        old(parallel_checksum).wf(),
        old(parallel_checksum).rv() == records_view(possible_differences@),
        idx <= possible_differences@.len(),
        suffix_sums@.len() == possible_differences@.len() + 1,
        forall|j: int| 0 <= j <= possible_differences@.len()
            ==> #[trigger] suffix_sums@[j].as_nat() == sum_fixups(
            records_view(possible_differences@).skip(j),
        ),
        partly_fixed_number.as_nat() + sum_fixups(
            records_view(possible_differences@).skip(idx as int),
        ) < u200_bound(),
        super_increasing(records_view(possible_differences@).skip(idx as int)),
        mask_set(subset_bitmask) <= positions_of(records_view(possible_differences@)),
    ensures
        final(parallel_checksum).wf(),
        final(parallel_checksum).rv() == old(parallel_checksum).rv(),
        final(parallel_checksum).base_address@ == old(parallel_checksum).base_address@,
        final(parallel_checksum).emitted() == old(parallel_checksum).emitted() + brute_solutions(
            old(parallel_checksum).base_address@,
            records_view(possible_differences@).skip(idx as int),
            partly_fixed_number.as_nat(),
            mask_set(subset_bitmask),
        ),
    decreases possible_differences@.len() - idx,
{
    let ghost rv = records_view(possible_differences@);
    let ghost rs = rv.skip(idx as int);
    let ghost base = old(parallel_checksum).base_address@;
    let interval_length = suffix_sums[idx];
    // Regardless of the remaining choices, the final value lies in
    // [partly_fixed_number, partly_fixed_number + interval_length]. If that
    // whole range shares one 21-byte prefix, the node is terminal.
    if partly_fixed_number.high168_equals(partly_fixed_number.plus(interval_length)) {
        submit_candidate(
            partly_fixed_number,
            possible_differences,
            idx,
            subset_bitmask,
            parallel_checksum,
        );
        return ;
    }
    proof {
        if idx == possible_differences@.len() {
            assert(rs =~= Seq::<(int, nat)>::empty());
            assert(interval_length.as_nat() == 0);
            assert(false);
        }
        lemma_skip_drop_first(rv, idx as int);
        assert(rv[idx as int] == possible_differences@[idx as int].view_pair());
    }
    let record = &possible_differences[idx];
    let digit_index = record.position;
    let fixup_to_add = record.fixup;
    proof {
        assert(rv[idx as int].0 < old(parallel_checksum).base_address@.len() as int);
        assert(digit_index < 64);
        lemma_mask_set_insert(subset_bitmask, digit_index as u64);
        assert(positions_of(rv).contains(digit_index as int));
    }
    let yes_mask = subset_bitmask | (1u64 << digit_index);
    let n = possible_differences.len();
    proof {
        assert(idx < n);
    }
    let ghost emitted0 = parallel_checksum.emitted();
    iterate_through_possible_differences(
        partly_fixed_number.plus(fixup_to_add),
        possible_differences,
        idx + 1,
        suffix_sums,
        yes_mask,
        parallel_checksum,
    );
    iterate_through_possible_differences(
        partly_fixed_number,
        possible_differences,
        idx + 1,
        suffix_sums,
        subset_bitmask,
        parallel_checksum,
    );
    proof {
        let yes = brute_solutions(
            base,
            rv.skip(idx + 1),
            partly_fixed_number.as_nat() + fixup_to_add.as_nat(),
            mask_set(subset_bitmask).insert(digit_index as int),
        );
        let no = brute_solutions(
            base,
            rv.skip(idx + 1),
            partly_fixed_number.as_nat(),
            mask_set(subset_bitmask),
        );
        assert(brute_solutions(base, rs, partly_fixed_number.as_nat(), mask_set(subset_bitmask))
            == yes + no);
        assert((emitted0 + yes) + no =~= emitted0 + (yes + no));
    }
}

/// A verified element-for-element copy of a byte string.
fn copy_bytes(v: &Vec<u8>) -> (r: Vec<u8>)
    ensures
        r@ == v@,
{
    let mut r: Vec<u8> = Vec::new();
    let mut i: usize = 0;
    while i < v.len()
        invariant
            i <= v@.len(),
            r@.len() == i,
            forall|j: int| 0 <= j < i ==> r@[j] == v@[j],
        decreases v@.len() - i,
    {
        r.push(v[i]);
        i = i + 1;
    }
    proof {
        assert(r@ =~= v@);
    }
    r
}

/// A verified element-for-element copy of a record list.
fn copy_records(v: &Vec<AmbiguityRecord>) -> (r: Vec<AmbiguityRecord>)
    ensures
        r@ == v@,
{
    let mut r: Vec<AmbiguityRecord> = Vec::new();
    let mut i: usize = 0;
    while i < v.len()
        invariant
            i <= v@.len(),
            r@.len() == i,
            forall|j: int| 0 <= j < i ==> r@[j] == v@[j],
        decreases v@.len() - i,
    {
        r.push(v[i]);
        i = i + 1;
    }
    proof {
        assert(r@ =~= v@);
    }
    r
}

/// Recovers every casing of the garbled address whose decoded 25-byte
/// payload passes the embedded double-hash checksum. The output equals the
/// brute-force enumeration of all 2^k case combinations, in search order;
/// an input character valid in neither case form is the single fatal
/// error, and nothing is attempted for such an input. Inputs are at most
/// 34 digits, the longest address whose all-lowercase reading still fits
/// the 200-bit payload arithmetic.
pub fn recover(garbled: &Vec<u8>) -> (r: Result<Vec<Vec<u8>>, RecoverError>)
    requires
        garbled@.len() <= 34,
    ensures
        r is Ok <==> all_valid(garbled@),
        r matches Ok(found) ==> seq_views(found@) == recovered_addresses(garbled@),
        r matches Err(e) ==> e == RecoverError::InvalidCharacter,
{
    let ghost s = garbled@;
    let parsed = match classify(garbled) {
        Ok(p) => p,
        Err(e) => {
            return Err(e);
        },
    };
    let ghost rv = records_view(parsed.possible_differences@);
    proof {
        lemma_records_from_wf(s, 0);
        lemma_pow58_le(s.len() as nat, 34);
        lemma_pow58_34_bound();
        crate::classify::lemma_pow58_pos(s.len() as nat);
        assert(rv == records_from(s, 0));
        assert(suffix_value(s, 0) + sum_fixups(rv) < u200_bound());
    }
    let suffix_sums = suffix_sums_of(&parsed.possible_differences);
    let base_copy = copy_bytes(&parsed.base_address);
    let records_copy = copy_records(&parsed.possible_differences);
    let mut parallel_checksum = ParallelChecksum::new(base_copy, records_copy);
    proof {
        lemma_mask_set_empty();
        assert(parsed.base_address@ =~= base_of(s));
        assert(rv.skip(0) =~= rv);
    }
    iterate_through_possible_differences(
        parsed.parsed_number,
        &parsed.possible_differences,
        0,
        &suffix_sums,
        0,
        &mut parallel_checksum,
    );
    let found = parallel_checksum.finalize();
    proof {
        assert(Seq::<Seq<u8>>::empty() + recovered_addresses(s) =~= recovered_addresses(s));
    }
    Ok(found)
}

/// A stretch with no ambiguous digit contributes no records.
proof fn lemma_no_ambiguity_no_records(s: Seq<u8>, i: int)
    requires
        0 <= i <= s.len(),
        forall|j: int| i <= j < s.len() ==> !is_ambiguous(#[trigger] s[j]),
    ensures
        records_from(s, i) == Seq::<(int, nat)>::empty(),
    decreases s.len() - i,
{
    if i < s.len() {
        lemma_no_ambiguity_no_records(s, i + 1);
    }
    assert(records_from(s, i) =~= Seq::<(int, nat)>::empty());
}

/// Round trip: a valid Base58Check address with zero ambiguous digits is
/// recovered as exactly itself, the unique output of the pipeline.
pub proof fn lemma_round_trip(s: Seq<u8>)
    requires
        forall|i: int| 0 <= i < s.len() ==> b58_digit(#[trigger] s[i]) >= 0,
        forall|i: int| 0 <= i < s.len() ==> !is_ambiguous(#[trigger] s[i]),
        valid_payload(suffix_value(s, 0)),
    ensures
        recovered_addresses(s) == seq![s],
{
    lemma_no_ambiguity_no_records(s, 0);
    assert forall|i: int| 0 <= i < s.len() implies base_of(s)[i] == s[i] by {
        lemma_canonical_fixed(s[i]);
    }
    assert(apply_case(base_of(s), Set::empty()) =~= s);
    assert(recovered_addresses(s) =~= seq![s]);
}

/// The value of a byte string read directly as Base58 digits, from
/// position `i` on; positions outside the alphabet count as zero.
pub open spec fn direct_value(t: Seq<u8>, i: int) -> nat
    recommends
        0 <= i <= t.len(),
    decreases t.len() - i,
{
    if i < 0 || i >= t.len() {
        0
    } else {
        (if b58_digit(t[i]) >= 0 {
            b58_digit(t[i]) as nat
        } else {
            0
        }) * pow58((t.len() - 1 - i) as nat) + direct_value(t, i + 1)
    }
}

/// Combination completeness at the string level: re-casing a chosen set of
/// ambiguous digits produces a string whose directly decoded value is the
/// canonical value plus the weight of exactly the chosen fixups. Together
/// with the pipeline's contract this says the emitted strings are the case
/// combinations whose decoded payload passes the checksum.
pub proof fn lemma_recased_value(s: Seq<u8>, chosen: Set<int>, i: int)
    requires
        0 <= i <= s.len(),
        all_valid(s),
        forall|j: int| 0 <= j < s.len() && chosen.contains(j) ==> is_ambiguous(#[trigger] s[j]),
    ensures
        direct_value(apply_case(base_of(s), chosen), i) == suffix_value(s, i) + chosen_sum(
            records_from(s, i),
            chosen,
        ),
    decreases s.len() - i,
{
    let t = apply_case(base_of(s), chosen);
    if i < s.len() {
        lemma_recased_value(s, chosen, i + 1);
        let p = pow58((s.len() - 1 - i) as nat);
        lemma_digit_facts(s[i]);
        if is_ambiguous(s[i]) {
            let rest = records_from(s, i + 1);
            assert(records_from(s, i) == seq![(i, fixup_val(s, i))] + rest);
            assert(records_from(s, i).drop_first() =~= rest);
            if chosen.contains(i) {
                assert(t[i] == lower_byte(canonical_byte(s[i])));
                lemma_lower_upper(s[i]);
                assert(b58_digit(t[i]) == lower_digit(s[i]));
                assert(chosen_sum(records_from(s, i), chosen) == fixup_val(s, i) + chosen_sum(
                    rest,
                    chosen,
                ));
                let d = canonical_digit(s[i]) as nat;
                let delta = (lower_digit(s[i]) - upper_digit(s[i])) as nat;
                assert((d + delta) * p == d * p + delta * p) by {
                    vstd::arithmetic::mul::lemma_mul_is_distributive_add_other_way(
                        p as int,
                        d as int,
                        delta as int,
                    );
                }
                assert(direct_value(t, i) == (d + delta) * p + direct_value(t, i + 1));
            } else {
                assert(t[i] == canonical_byte(s[i]));
                assert(b58_digit(t[i]) == canonical_digit(s[i]));
                assert(chosen_sum(records_from(s, i), chosen) == chosen_sum(rest, chosen));
            }
        } else {
            assert(!chosen.contains(i));
            assert(t[i] == canonical_byte(s[i]));
            assert(b58_digit(t[i]) == canonical_digit(s[i]));
            assert(records_from(s, i) == records_from(s, i + 1));
        }
    } else {
        assert(records_from(s, i) =~= Seq::<(int, nat)>::empty());
    }
}

/// Membership survives concatenation on either side.
proof fn lemma_concat_contains<T>(a: Seq<T>, b: Seq<T>, x: T)
    requires
        a.contains(x) || b.contains(x),
    ensures
        (a + b).contains(x),
{
    if a.contains(x) {
        let i = choose|i: int| 0 <= i < a.len() && a[i] == x;
        assert((a + b)[i] == x);
    } else {
        let i = choose|i: int| 0 <= i < b.len() && b[i] == x;
        assert((a + b)[a.len() + i] == x);
    }
}

/// A position carried by no record contributes nothing, so removing it
/// from the chosen set leaves the weight unchanged.
proof fn lemma_chosen_sum_remove(rs: Seq<(int, nat)>, chosen: Set<int>, pos: int)
    requires
        !positions_of(rs).contains(pos),
    ensures
        chosen_sum(rs, chosen.remove(pos)) == chosen_sum(rs, chosen),
    decreases rs.len(),
{
    if rs.len() > 0 {
        assert(rs[0].0 != pos);
        assert forall|p: int| positions_of(rs.drop_first()).contains(p)
            implies positions_of(rs).contains(p) by {
            let j = choose|j: int|
                0 <= j < rs.drop_first().len() && (#[trigger] rs.drop_first()[j]).0 == p;
            assert(rs.drop_first()[j] == rs[j + 1]);
            assert(rs[j + 1].0 == p);
        }
        lemma_chosen_sum_remove(rs.drop_first(), chosen, pos);
    }
}

/// The chosen subset, restricted to record positions, reaches its leaf of
/// the brute-force enumeration: no case combination whose payload passes
/// the checksum is lost.
proof fn lemma_brute_contains(
    base: Seq<u8>,
    rs: Seq<(int, nat)>,
    v: nat,
    ch0: Set<int>,
    extra: Set<int>,
)
    requires
        forall|j: int, k: int| 0 <= j < k < rs.len() ==> rs[j].0 != rs[k].0,
        forall|p: int| extra.contains(p) ==> positions_of(rs).contains(p),
        valid_payload(v + chosen_sum(rs, extra)),
    ensures
        brute_solutions(base, rs, v, ch0).contains(apply_case(base, ch0.union(extra))),
    decreases rs.len(),
{
    if rs.len() == 0 {
        assert forall|p: int| !extra.contains(p) by {
            if extra.contains(p) {
                let j = choose|j: int| 0 <= j < rs.len() && (#[trigger] rs[j]).0 == p;
            }
        }
        assert(ch0.union(extra) =~= ch0);
        assert(chosen_sum(rs, extra) == 0);
        assert(brute_solutions(base, rs, v, ch0)[0] == apply_case(base, ch0));
    } else {
        let pos = rs[0].0;
        let f = rs[0].1;
        let rest = rs.drop_first();
        assert(forall|j: int| 0 <= j < rest.len() ==> (#[trigger] rest[j]).0 == rs[j + 1].0);
        assert(!positions_of(rest).contains(pos)) by {
            if positions_of(rest).contains(pos) {
                let j = choose|j: int| 0 <= j < rest.len() && (#[trigger] rest[j]).0 == pos;
                assert(rest[j] == rs[j + 1]);
            }
        }
        let yes = brute_solutions(base, rest, v + f, ch0.insert(pos));
        let no = brute_solutions(base, rest, v, ch0);
        if extra.contains(pos) {
            let extra2 = extra.remove(pos);
            assert forall|p: int| extra2.contains(p) implies positions_of(rest).contains(p) by {
                let j = choose|j: int| 0 <= j < rs.len() && (#[trigger] rs[j]).0 == p;
                assert(j >= 1);
                assert(rest[j - 1] == rs[j]);
                assert(rest[j - 1].0 == p);
            }
            lemma_chosen_sum_remove(rest, extra, pos);
            assert(chosen_sum(rs, extra) == f + chosen_sum(rest, extra2));
            lemma_brute_contains(base, rest, v + f, ch0.insert(pos), extra2);
            assert(ch0.insert(pos).union(extra2) =~= ch0.union(extra));
            lemma_concat_contains(yes, no, apply_case(base, ch0.union(extra)));
        } else {
            assert forall|p: int| extra.contains(p) implies positions_of(rest).contains(p) by {
                let j = choose|j: int| 0 <= j < rs.len() && (#[trigger] rs[j]).0 == p;
                assert(j >= 1);
                assert(rest[j - 1] == rs[j]);
                assert(rest[j - 1].0 == p);
            }
            assert(chosen_sum(rs, extra) == chosen_sum(rest, extra));
            lemma_brute_contains(base, rest, v, ch0, extra);
            lemma_concat_contains(yes, no, apply_case(base, ch0.union(extra)));
        }
    }
}

/// Every ambiguous position of the input is carried by some record.
proof fn lemma_ambiguous_position_recorded(s: Seq<u8>, i: int, p: int)
    requires
        0 <= i <= p < s.len(),
        is_ambiguous(s[p]),
    ensures
        positions_of(records_from(s, i)).contains(p),
    decreases p - i,
{
    let rs = records_from(s, i);
    if i == p {
        assert(rs[0] == (i, fixup_val(s, i)));
    } else {
        lemma_ambiguous_position_recorded(s, i + 1, p);
        let inner = records_from(s, i + 1);
        let j = choose|j: int| 0 <= j < inner.len() && (#[trigger] inner[j]).0 == p;
        if is_ambiguous(s[i]) {
            assert(rs == seq![(i, fixup_val(s, i))] + inner);
            assert(rs[j + 1] == inner[j]);
        } else {
            assert(rs == inner);
        }
    }
}

/// Combination completeness: a case combination over the ambiguous digits
/// whose decoded 25-byte payload passes the checksum is always among the
/// recovered addresses. Together with the pipeline's contract, the set of
/// addresses emitted equals the set of the 2^k case combinations whose
/// payload passes the double-hash checksum.
pub proof fn lemma_combination_completeness(s: Seq<u8>, chosen: Set<int>)
    requires
        forall|p: int| #[trigger] chosen.contains(p) ==> 0 <= p < s.len() && is_ambiguous(s[p]),
        valid_payload(suffix_value(s, 0) + chosen_sum(records_from(s, 0), chosen)),
    ensures
        recovered_addresses(s).contains(apply_case(base_of(s), chosen)),
{
    lemma_records_from_wf(s, 0);
    assert forall|p: int| chosen.contains(p) implies positions_of(
        records_from(s, 0),
    ).contains(p) by {
        assert(0 <= p < s.len() && is_ambiguous(s[p]));
        lemma_ambiguous_position_recorded(s, 0, p);
    }
    let rs = records_from(s, 0);
    assert forall|j: int, k: int| 0 <= j < k < rs.len() implies rs[j].0 != rs[k].0 by {}
    lemma_brute_contains(base_of(s), rs, suffix_value(s, 0), Set::empty(), chosen);
    assert(Set::empty().union(chosen) =~= chosen);
}

} // verus!
