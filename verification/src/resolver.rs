//! The fixup resolver: given the true checksum of a batch member and the
//! provisional checksum of its undecided tail, greedily selects the fixup
//! subset that reconciles the two, and rebuilds the recovered address.
//!
//! The greedy scan is exact here because fixups of a positional numeral
//! system are super-increasing: each one outweighs the sum of all fixups at
//! less significant positions.

use vstd::prelude::*;
use crate::classify::AmbiguityRecord;
use crate::classify::lower_byte;
use crate::classify::records_view;

verus! {

/// The sum of the fixup values of a record list.
pub open spec fn sum_fixups(rs: Seq<(int, nat)>) -> nat
    decreases rs.len(),
{
    if rs.len() == 0 {
        0
    } else {
        rs[0].1 + sum_fixups(rs.drop_first())
    }
}

/// Each fixup strictly outweighs the sum of all fixups after it.
pub open spec fn super_increasing(rs: Seq<(int, nat)>) -> bool
    decreases rs.len(),
{
    rs.len() == 0 || {
        &&& rs[0].1 > sum_fixups(rs.drop_first())
        &&& super_increasing(rs.drop_first())
    }
}

/// Positions are strictly increasing and below `limit`, and every fixup is
/// at least 1.
pub open spec fn records_ordered(rs: Seq<(int, nat)>, limit: int) -> bool {
    &&& (forall|j: int| 0 <= j < rs.len() ==> 0 <= #[trigger] rs[j].0 < limit)
    &&& (forall|j: int, k: int| 0 <= j < k < rs.len() ==> rs[j].0 < rs[k].0)
    &&& (forall|j: int| 0 <= j < rs.len() ==> #[trigger] rs[j].1 >= 1)
}

/// The set of positions whose bit is set in a 64-bit subset mask.
pub open spec fn mask_set(m: u64) -> Set<int> {
    Set::new(|i: int| 0 <= i < 64 && (m >> (i as u64)) & 1 == 1)
}

/// The set of positions carried by a record list.
pub open spec fn positions_of(rs: Seq<(int, nat)>) -> Set<int> {
    Set::new(|i: int| exists|j: int| 0 <= j < rs.len() && (#[trigger] rs[j]).0 == i)
}

/// The address obtained from the canonical-case string by re-casing every
/// chosen position to lowercase.
pub open spec fn apply_case(base: Seq<u8>, chosen: Set<int>) -> Seq<u8> {
    Seq::new(
        base.len(),
        |i: int|
            if chosen.contains(i) {
                lower_byte(base[i])
            } else {
                base[i]
            },
    )
}

/// The greedy scan over the remaining records: take a fixup whenever it
/// keeps the running checksum at or below the target. Returns the final
/// running checksum and the final chosen set.
pub open spec fn greedy_result(rs: Seq<(int, nat)>, cur: nat, target: nat, chosen: Set<int>) -> (
    nat,
    Set<int>,
)
    decreases rs.len(),
{
    if rs.len() == 0 {
        (cur, chosen)
    } else if cur + rs[0].1 <= target {
        greedy_result(rs.drop_first(), cur + rs[0].1, target, chosen.insert(rs[0].0))
    } else {
        greedy_result(rs.drop_first(), cur, target, chosen)
    }
}

/// What the resolver emits for one batch member: the single reconciled
/// address if the greedy scan lands exactly on the target checksum, nothing
/// otherwise.
pub open spec fn resolve_spec(
    rs: Seq<(int, nat)>,
    cur: nat,
    target: nat,
    chosen: Set<int>,
    base: Seq<u8>,
) -> Seq<Seq<u8>> {
    let (fin, ch) = greedy_result(rs, cur, target, chosen);
    if fin == target {
        seq![apply_case(base, ch)]
    } else {
        Seq::empty()
    }
}

/// Setting bit `p` adds exactly position `p` to the mask's set.
proof fn lemma_mask_or_bit(m: u64, p: u64, i: u64)
    by (bit_vector)
    requires
        p < 64,
        i < 64,
    ensures
        ((m | (1u64 << p)) >> i) & 1 == 1 <==> ((m >> i) & 1 == 1 || i == p),
{
}

/// The empty mask has no set bits.
proof fn lemma_mask_zero_bit(i: u64)
    by (bit_vector)
    requires
        i < 64,
    ensures
        (0u64 >> i) & 1 == 0,
{
}

/// The set view of a mask after setting one bit.
pub proof fn lemma_mask_set_insert(m: u64, p: u64)
    requires
        p < 64,
    ensures
        mask_set(m | (1u64 << p)) == mask_set(m).insert(p as int),
{
    assert forall|i: int| mask_set(m | (1u64 << p)).contains(i) <==> mask_set(m).insert(
        p as int,
    ).contains(i) by {
        if 0 <= i < 64 {
            lemma_mask_or_bit(m, p, i as u64);
        }
    }
    assert(mask_set(m | (1u64 << p)) =~= mask_set(m).insert(p as int));
}

/// The set view of the empty mask.
pub proof fn lemma_mask_set_empty()
    ensures
        mask_set(0u64) == Set::<int>::empty(),
{
    assert forall|i: int| !mask_set(0u64).contains(i) by {
        if 0 <= i < 64 {
            lemma_mask_zero_bit(i as u64);
        }
    }
    assert(mask_set(0u64) =~= Set::<int>::empty());
}

/// Dropping the head of a suffix advances the suffix.
pub proof fn lemma_skip_drop_first<T>(s: Seq<T>, j: int)
    requires
        0 <= j < s.len(),
    ensures
        s.skip(j).drop_first() == s.skip(j + 1),
        s.skip(j)[0] == s[j],
        s.skip(j).len() == s.len() - j,
{
    assert(s.skip(j).drop_first() =~= s.skip(j + 1));
}

/// The greedy scan never decreases the running checksum and never adds more
/// than the sum of all remaining fixups.
pub proof fn lemma_greedy_bounds(rs: Seq<(int, nat)>, cur: nat, target: nat, chosen: Set<int>)
    ensures
        cur <= greedy_result(rs, cur, target, chosen).0,
        greedy_result(rs, cur, target, chosen).0 <= cur + sum_fixups(rs),
    decreases rs.len(),
{
    if rs.len() > 0 {
        if cur + rs[0].1 <= target {
            lemma_greedy_bounds(rs.drop_first(), cur + rs[0].1, target, chosen.insert(rs[0].0));
        } else {
            lemma_greedy_bounds(rs.drop_first(), cur, target, chosen);
        }
    }
}

/// A greedy scan that starts above the target takes nothing.
pub proof fn lemma_greedy_stuck(rs: Seq<(int, nat)>, cur: nat, target: nat, chosen: Set<int>)
    requires
        cur > target,
    ensures
        greedy_result(rs, cur, target, chosen) == (cur, chosen),
    decreases rs.len(),
{
    if rs.len() > 0 {
        lemma_greedy_stuck(rs.drop_first(), cur, target, chosen);
    }
}

/// The total fixup weight of the records whose position lies in the chosen
/// set.
pub open spec fn chosen_sum(rs: Seq<(int, nat)>, chosen: Set<int>) -> nat
    decreases rs.len(),
{
    if rs.len() == 0 {
        0
    } else {
        (if chosen.contains(rs[0].0) {
            rs[0].1
        } else {
            0
        }) + chosen_sum(rs.drop_first(), chosen)
    }
}

/// No chosen subset outweighs the whole record list.
pub proof fn lemma_chosen_sum_le(rs: Seq<(int, nat)>, chosen: Set<int>)
    ensures
        chosen_sum(rs, chosen) <= sum_fixups(rs),
    decreases rs.len(),
{
    if rs.len() > 0 {
        lemma_chosen_sum_le(rs.drop_first(), chosen);
    }
}

/// The greedy scan's final checksum is its starting checksum plus the
/// weight of exactly the positions it chose, and it only ever adds record
/// positions to the chosen set.
proof fn lemma_greedy_sum(rs: Seq<(int, nat)>, cur: nat, target: nat, ch0: Set<int>)
    requires
        forall|j: int, k: int| 0 <= j < k < rs.len() ==> rs[j].0 != rs[k].0,
        forall|j: int| 0 <= j < rs.len() ==> !ch0.contains((#[trigger] rs[j]).0),
    ensures
        greedy_result(rs, cur, target, ch0).0 == cur + chosen_sum(
            rs,
            greedy_result(rs, cur, target, ch0).1,
        ),
        forall|p: int| ch0.contains(p) ==> greedy_result(rs, cur, target, ch0).1.contains(p),
        forall|p: int| greedy_result(rs, cur, target, ch0).1.contains(p) ==> ch0.contains(p) || (
        exists|j: int| 0 <= j < rs.len() && (#[trigger] rs[j]).0 == p),
    decreases rs.len(),
{
    if rs.len() > 0 {
        let pos = rs[0].0;
        let f = rs[0].1;
        let rest = rs.drop_first();
        assert(forall|j: int| 0 <= j < rest.len() ==> (#[trigger] rest[j]).0 == rs[j + 1].0);
        if cur + f <= target {
            let ch1 = ch0.insert(pos);
            assert forall|j: int| 0 <= j < rest.len() implies !ch1.contains(
                (#[trigger] rest[j]).0,
            ) by {
                assert(rest[j] == rs[j + 1]);
            }
            lemma_greedy_sum(rest, cur + f, target, ch1);
            let ch = greedy_result(rest, cur + f, target, ch1).1;
            assert(ch1.contains(pos));
            assert(ch.contains(pos));
            assert(chosen_sum(rs, ch) == f + chosen_sum(rest, ch));
            assert forall|p: int| ch0.contains(p) implies greedy_result(
                rs,
                cur,
                target,
                ch0,
            ).1.contains(p) by {
                assert(ch1.contains(p));
            }
            assert forall|p: int| greedy_result(rs, cur, target, ch0).1.contains(p) implies
                ch0.contains(p) || (exists|j: int| 0 <= j < rs.len() && (#[trigger] rs[j]).0
                == p) by {
                if !ch0.contains(p) {
                    if p == pos {
                        assert(rs[0].0 == p);
                    } else {
                        assert(!ch1.contains(p));
                        let j = choose|j: int|
                            0 <= j < rest.len() && (#[trigger] rest[j]).0 == p;
                        assert(rest[j] == rs[j + 1]);
                        assert(rs[j + 1].0 == p);
                    }
                }
            }
        } else {
            lemma_greedy_sum(rest, cur, target, ch0);
            let ch = greedy_result(rest, cur, target, ch0).1;
            assert(!ch.contains(pos)) by {
                if ch.contains(pos) {
                    assert(!ch0.contains(pos));
                    let j = choose|j: int| 0 <= j < rest.len() && (#[trigger] rest[j]).0 == pos;
                    assert(rest[j] == rs[j + 1]);
                }
            }
            assert(chosen_sum(rs, ch) == chosen_sum(rest, ch));
            assert forall|p: int| greedy_result(rs, cur, target, ch0).1.contains(p) implies
                ch0.contains(p) || (exists|j: int| 0 <= j < rs.len() && (#[trigger] rs[j]).0
                == p) by {
                if !ch0.contains(p) {
                    let j = choose|j: int| 0 <= j < rest.len() && (#[trigger] rest[j]).0 == p;
                    assert(rest[j] == rs[j + 1]);
                    assert(rs[j + 1].0 == p);
                }
            }
        }
    }
}

/// If some subset of the remaining super-increasing fixups lands exactly on
/// the target, the greedy scan reaches the target too.
proof fn lemma_greedy_complete(
    rs: Seq<(int, nat)>,
    cur: nat,
    target: nat,
    ch0: Set<int>,
    witness: Set<int>,
)
    requires
        super_increasing(rs),
        cur + chosen_sum(rs, witness) == target,
    ensures
        greedy_result(rs, cur, target, ch0).0 == target,
    decreases rs.len(),
{
    if rs.len() > 0 {
        let pos = rs[0].0;
        let f = rs[0].1;
        let rest = rs.drop_first();
        lemma_chosen_sum_le(rest, witness);
        if cur + f <= target {
            if !witness.contains(pos) {
                assert(target == cur + chosen_sum(rest, witness));
                assert(chosen_sum(rest, witness) <= sum_fixups(rest) < f);
                assert(false);
            }
            assert(cur + f + chosen_sum(rest, witness) == target);
            lemma_greedy_complete(rest, cur + f, target, ch0.insert(pos), witness);
        } else {
            if witness.contains(pos) {
                assert(target >= cur + f);
                assert(false);
            }
            lemma_greedy_complete(rest, cur, target, ch0, witness);
        }
    }
}

/// Greedy resolver exactness: over super-increasing fixups with distinct
/// positions, the greedy scan lands exactly on the target checksum if and
/// only if some subset of the remaining fixups reproduces it; whenever no
/// subset does, the scan misses the target and the candidate is reported
/// as having no solution.
pub proof fn lemma_greedy_resolver_exact(rs: Seq<(int, nat)>, cur: nat, target: nat)
    requires
        super_increasing(rs),
        forall|j: int, k: int| 0 <= j < k < rs.len() ==> rs[j].0 != rs[k].0,
    ensures
        greedy_result(rs, cur, target, Set::empty()).0 == target <==> exists|chosen: Set<int>|
            cur + chosen_sum(rs, chosen) == target,
{
    if greedy_result(rs, cur, target, Set::empty()).0 == target {
        lemma_greedy_sum(rs, cur, target, Set::empty());
        let ch = greedy_result(rs, cur, target, Set::empty()).1;
        assert(cur + chosen_sum(rs, ch) == target);
    }
    if exists|chosen: Set<int>| cur + chosen_sum(rs, chosen) == target {
        let witness = choose|chosen: Set<int>| cur + chosen_sum(rs, chosen) == target;
        lemma_greedy_complete(rs, cur, target, Set::empty(), witness);
    }
}

/// Resolves one batch member: compares the provisional checksum of the
/// candidate's unmodified tail with the true checksum `correct` computed by
/// the hash engine, greedily applies the remaining fixups, and rebuilds the
/// address if they reconcile exactly. Returns nothing when no remaining
/// subset can reach the target.
pub fn resolve(
    records: &Vec<AmbiguityRecord>,
    idx: usize,
    provisional: u32,
    correct: u32,
    subset_bitmask: u64,
    base_address: &Vec<u8>,
) -> (r: Option<Vec<u8>>)
    requires
        idx <= records@.len(),
        records_ordered(records_view(records@), base_address@.len() as int),
        base_address@.len() < 64,
        provisional + sum_fixups(records_view(records@).skip(idx as int)) <= u32::MAX,
        mask_set(subset_bitmask) <= positions_of(records_view(records@)),
    ensures
        (match r {
            Some(a) => seq![a@],
            None => Seq::<Seq<u8>>::empty(),
        }) == resolve_spec(
            records_view(records@).skip(idx as int),
            provisional as nat,
            correct as nat,
            mask_set(subset_bitmask),
            base_address@,
        ),
{
    let ghost rv = records_view(records@);
    if provisional > correct {
        proof {
            lemma_greedy_stuck(
                rv.skip(idx as int),
                provisional as nat,
                correct as nat,
                mask_set(subset_bitmask),
            );
        }
        return None;
    }
    let mut current_checksum = provisional;
    let mut mask = subset_bitmask;
    let mut j = idx;
    while j < records.len()
        invariant
            idx <= j <= records@.len(),
            rv == records_view(records@),
            records_ordered(rv, base_address@.len() as int),
            base_address@.len() < 64,
            current_checksum + sum_fixups(rv.skip(j as int)) <= u32::MAX,
            mask_set(mask) <= positions_of(rv),
            greedy_result(
                rv.skip(idx as int),
                provisional as nat,
                correct as nat,
                mask_set(subset_bitmask),
            ) == greedy_result(
                rv.skip(j as int),
                current_checksum as nat,
                correct as nat,
                mask_set(mask),
            ),
        decreases records@.len() - j,
    {
        proof {
            lemma_skip_drop_first(rv, j as int);
            assert(rv[j as int] == records@[j as int].view_pair());
        }
        let fixup = &records[j].fixup;
        proof {
            assert(fixup.as_nat() <= u32::MAX);
            assert(fixup.1 == 0 && fixup.2 == 0 && fixup.3 == 0 && fixup.0 < 0x100000000);
        }
        let fixup_to_add = fixup.0 as u32;
        let position = records[j].position;
        proof {
            assert(rv[j as int].0 < base_address@.len() as int);
            assert(position < 64);
        }
        if current_checksum + fixup_to_add <= correct {
            proof {
                lemma_mask_set_insert(mask, position as u64);
                assert(positions_of(rv).contains(position as int));
            }
            mask = mask | (1u64 << position);
            current_checksum = current_checksum + fixup_to_add;
        }
        j = j + 1;
    }
    proof {
        assert(rv.skip(j as int) =~= Seq::<(int, nat)>::empty());
    }
    if current_checksum != correct {
        return None;
    }
    let mut address: Vec<u8> = Vec::new();
    let mut t: usize = 0;
    while t < base_address.len()
        invariant
            t <= base_address@.len(),
            address@.len() == t,
            forall|i: int| 0 <= i < t ==> address@[i] == base_address@[i],
        decreases base_address@.len() - t,
    {
        address.push(base_address[t]);
        t = t + 1;
    }
    let mut k: usize = 0;
    while k < records.len()
        invariant
            k <= records@.len(),
            rv == records_view(records@),
            records_ordered(rv, base_address@.len() as int),
            base_address@.len() < 64,
            address@.len() == base_address@.len(),
            mask_set(mask) <= positions_of(rv),
            forall|i: int| 0 <= i < address@.len() && !mask_set(mask).contains(i)
                ==> #[trigger] address@[i] == base_address@[i],
            forall|i: int| 0 <= i < address@.len() && mask_set(mask).contains(i) && (exists|u: int|
                0 <= u < k && (#[trigger] rv[u]).0 == i) ==> #[trigger] address@[i] == lower_byte(
                base_address@[i],
            ),
            forall|i: int| 0 <= i < address@.len() && mask_set(mask).contains(i) && !(exists|
                u: int,
            |
                0 <= u < k && (#[trigger] rv[u]).0 == i) ==> #[trigger] address@[i]
                == base_address@[i],
        decreases records@.len() - k,
    {
        proof {
            assert(rv[k as int] == records@[k as int].view_pair());
        }
        let position = records[k].position;
        proof {
            assert(rv[k as int].0 < base_address@.len() as int);
            assert(position < 64);
        }
        if (mask >> position) & 1 == 1 {
            proof {
                assert(mask_set(mask).contains(position as int));
            }
            let low = crate::classify::to_lower(address[position]);
            address[position] = low;
        }
        k = k + 1;
    }
    proof {
        assert forall|i: int| 0 <= i < address@.len() implies address@[i] == apply_case(
            base_address@,
            mask_set(mask),
        )[i] by {
            if mask_set(mask).contains(i) {
                assert(positions_of(rv).contains(i));
            }
        }
        assert(address@ =~= apply_case(base_address@, mask_set(mask)));
    }
    Some(address)
}

} // verus!
