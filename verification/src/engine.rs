//! The batched double-hash engine: accumulates 21-byte payload prefixes
//! until a full batch is ready, double-hashes the whole batch in one call
//! (padding unused lanes with zero-filled dummies), and resolves each
//! member's deferred continuation with its own checksum.

use vstd::prelude::*;
use crate::classify::AmbiguityRecord;
use crate::classify::records_view;
use crate::resolver::mask_set;
use crate::resolver::positions_of;
use crate::resolver::records_ordered;
use crate::resolver::resolve;
use crate::resolver::resolve_spec;
use crate::resolver::sum_fixups;
use crate::sha256::block_of_message;
use crate::sha256::iterated_block;
use crate::sha256::sha_checksum;
use crate::sha256::sha_digest_words;
use crate::sha256::sha256_adapt_iterated;
use crate::sha256::sha256_core;
use crate::sha256::sha256_load_six_words;
use crate::sha256::sha256_store_leading_four_bytes;

verus! {

/// The number of independent hash lanes one batch computes.
pub const LANE_COUNT: usize = 8;

/// One deferred verification: the hashed 21-byte prefix, the provisional
/// checksum read from the candidate's unmodified tail, the start of the
/// still-undecided ambiguity records, and the case decisions taken so far.
pub struct PendingVerification {
    pub prefix: [u8; 21],
    pub provisional: u32,
    pub idx: usize,
    pub subset_bitmask: u64,
}

/// The views of a list of found addresses.
pub open spec fn seq_views(found: Seq<Vec<u8>>) -> Seq<Seq<u8>> {
    found.map_values(|v: Vec<u8>| v@)
}

/// A pending entry is consistent with the record list: its tail is a suffix
/// whose fixups cannot overflow the 32-bit checksum field, and its mask only
/// marks record positions.
pub open spec fn pending_wf(rv: Seq<(int, nat)>, p: PendingVerification) -> bool {
    &&& p.idx <= rv.len()
    &&& p.provisional + sum_fixups(rv.skip(p.idx as int)) <= u32::MAX
    &&& mask_set(p.subset_bitmask) <= positions_of(rv)
}

/// What the resolver will emit for a pending entry once its true checksum
/// arrives: zero or one recovered addresses.
pub open spec fn pending_outcome(rv: Seq<(int, nat)>, base: Seq<u8>, p: PendingVerification) -> Seq<
    Seq<u8>,
> {
    resolve_spec(
        rv.skip(p.idx as int),
        p.provisional as nat,
        sha_checksum(p.prefix@) as nat,
        mask_set(p.subset_bitmask),
        base,
    )
}

/// The concatenated outcomes of a queue of pending entries, in queue order.
pub open spec fn pending_outcomes(
    rv: Seq<(int, nat)>,
    base: Seq<u8>,
    qs: Seq<PendingVerification>,
) -> Seq<Seq<u8>>
    decreases qs.len(),
{
    if qs.len() == 0 {
        Seq::empty()
    } else {
        pending_outcome(rv, base, qs[0]) + pending_outcomes(rv, base, qs.drop_first())
    }
}

/// The batched double-hash engine with its deferred continuations and the
/// addresses recovered so far.
pub struct ParallelChecksum {
    pub base_address: Vec<u8>,
    pub records: Vec<AmbiguityRecord>,
    pub queue: Vec<PendingVerification>,
    pub found: Vec<Vec<u8>>,
}

impl ParallelChecksum {
    /// The record list as (position, fixup value) pairs.
    pub open spec fn rv(self) -> Seq<(int, nat)> {
        records_view(self.records@)
    }

    /// The engine's invariant.
    pub open spec fn wf(self) -> bool {
        &&& records_ordered(self.rv(), self.base_address@.len() as int)
        &&& self.base_address@.len() < 64
        &&& self.queue@.len() <= LANE_COUNT
        &&& (forall|j: int| 0 <= j < self.queue@.len() ==> pending_wf(
            self.rv(),
            #[trigger] self.queue@[j],
        ))
    }

    /// Everything the engine will have emitted once fully flushed: the
    /// addresses found so far followed by the outcomes still waiting in the
    /// queue, in arrival order.
    pub open spec fn emitted(self) -> Seq<Seq<u8>> {
        seq_views(self.found@) + pending_outcomes(self.rv(), self.base_address@, self.queue@)
    }

    /// Creates an engine over a fixed canonical-case address and record
    /// list.
    pub fn new(base_address: Vec<u8>, records: Vec<AmbiguityRecord>) -> (r: ParallelChecksum)
        requires
            records_ordered(records_view(records@), base_address@.len() as int),
            base_address@.len() < 64,
        ensures
            r.wf(),
            r.base_address@ == base_address@,
            r.rv() == records_view(records@),
            r.emitted() == Seq::<Seq<u8>>::empty(),
            r.queue@.len() == 0,
    {
        let r = ParallelChecksum { base_address, records, queue: Vec::new(), found: Vec::new() };
        proof {
            assert(seq_views(r.found@) =~= Seq::<Seq<u8>>::empty());
            assert(r.emitted() =~= Seq::<Seq<u8>>::empty());
        }
        r
    }

    /// Hashes every queued prefix in one batch, hands each continuation its
    /// own checksum, and empties the queue. What the engine will emit does
    /// not change; it only moves from pending to found.
    pub fn flush(&mut self)
        requires
            old(self).wf(),
        ensures
            final(self).wf(),
            final(self).rv() == old(self).rv(),
            final(self).base_address@ == old(self).base_address@,
            final(self).queue@.len() == 0,
            final(self).emitted() == old(self).emitted(),
    {
        let ghost rv = self.rv();
        let ghost base = self.base_address@;
        let mut inputs = [[0u8; 21]; 8];
        let queue_len = self.queue.len();
        let mut l: usize = 0;
        while l < queue_len
            invariant
                queue_len == self.queue@.len() <= 8,
                l <= queue_len,
                forall|j: int| 0 <= j < l ==> inputs@[j]@ == #[trigger] self.queue@[j].prefix@,
            decreases queue_len - l,
        {
            inputs[l] = self.queue[l].prefix;
            l = l + 1;
        }
        let mut blocks = [[0u32; 16]; 8];
        let mut l: usize = 0;
        while l < 8
            invariant
                l <= 8,
                forall|j: int| 0 <= j < l ==> blocks@[j]@ == block_of_message(
                    #[trigger] inputs@[j]@,
                ),
            decreases 8 - l,
        {
            blocks[l] = sha256_load_six_words(&inputs[l]);
            l = l + 1;
        }
        let round1 = sha256_core(&blocks);
        let mut blocks2 = [[0u32; 16]; 8];
        let mut l: usize = 0;
        while l < 8
            invariant
                l <= 8,
                forall|j: int| 0 <= j < l ==> blocks2@[j]@ == iterated_block(
                    #[trigger] round1@[j]@,
                ),
            decreases 8 - l,
        {
            blocks2[l] = sha256_adapt_iterated(&round1[l]);
            l = l + 1;
        }
        let round2 = sha256_core(&blocks2);
        proof {
            assert forall|j: int| 0 <= j < queue_len implies round2@[j]@[0] == sha_checksum(
                self.queue@[j].prefix@,
            ) by {
                reveal(sha_checksum);
                assert(inputs@[j]@ == self.queue@[j].prefix@);
                assert(blocks@[j]@ == block_of_message(inputs@[j]@));
                assert(round1@[j]@ == sha_digest_words(blocks@[j]@));
                assert(blocks2@[j]@ == iterated_block(round1@[j]@));
                assert(round2@[j]@ == sha_digest_words(blocks2@[j]@));
            }
        }
        let mut l: usize = 0;
        while l < queue_len
            invariant
                old(self).wf(),
                rv == old(self).rv(),
                base == old(self).base_address@,
                self.base_address@ == old(self).base_address@,
                self.records@ == old(self).records@,
                self.queue@ == old(self).queue@,
                queue_len == self.queue@.len(),
                l <= queue_len,
                forall|j: int| 0 <= j < queue_len ==> round2@[j]@[0] == sha_checksum(
                    #[trigger] self.queue@[j].prefix@,
                ),
                seq_views(self.found@) == seq_views(old(self).found@) + pending_outcomes(
                    rv,
                    base,
                    self.queue@.take(l as int),
                ),
            decreases queue_len - l,
        {
            let correct_checksum = sha256_store_leading_four_bytes(&round2[l]);
            let entry_provisional = self.queue[l].provisional;
            let entry_idx = self.queue[l].idx;
            let entry_mask = self.queue[l].subset_bitmask;
            let outcome = resolve(
                &self.records,
                entry_idx,
                entry_provisional,
                correct_checksum,
                entry_mask,
                &self.base_address,
            );
            proof {
                lemma_outcomes_take_step(rv, base, self.queue@, l as int);
            }
            match outcome {
                Some(address) => {
                    proof {
                        assert(seq_views(self.found@.push(address)) =~= seq_views(self.found@)
                            + seq![address@]);
                    }
                    self.found.push(address);
                },
                None => {},
            }
            l = l + 1;
        }
        proof {
            assert(self.queue@.take(queue_len as int) =~= self.queue@);
        }
        self.queue.clear();
        proof {
            assert(pending_outcomes(rv, base, Seq::<PendingVerification>::empty())
                =~= Seq::<Seq<u8>>::empty());
            assert(final(self).emitted() =~= old(self).emitted());
        }
    }

    /// Queues one candidate prefix with its deferred continuation, flushing
    /// first if the batch is full. The entry's outcome is appended to what
    /// the engine will emit.
    pub fn compute_later(&mut self, pending: PendingVerification)
        requires
            old(self).wf(),
            pending_wf(old(self).rv(), pending),
        ensures
            final(self).wf(),
            final(self).rv() == old(self).rv(),
            final(self).base_address@ == old(self).base_address@,
            final(self).emitted() == old(self).emitted() + pending_outcome(
                old(self).rv(),
                old(self).base_address@,
                pending,
            ),
    {
        let ghost rv = self.rv();
        let ghost base = self.base_address@;
        if self.queue.len() == LANE_COUNT {
            self.flush();
        }
        proof {
            lemma_outcomes_push(rv, base, self.queue@, pending);
        }
        self.queue.push(pending);
    }

    /// Flushes the final, possibly partial batch and hands back every
    /// recovered address, in the order the candidates were queued.
    pub fn finalize(self) -> (r: Vec<Vec<u8>>)
        requires
            self.wf(),
        ensures
            seq_views(r@) == self.emitted(),
    {
        let mut engine = self;
        engine.flush();
        proof {
            assert(engine.emitted() =~= seq_views(engine.found@));
        }
        engine.found
    }
}

/// Concatenated outcomes grow one entry at a time.
proof fn lemma_outcomes_take_step(
    rv: Seq<(int, nat)>,
    base: Seq<u8>,
    qs: Seq<PendingVerification>,
    l: int,
)
    requires
        0 <= l < qs.len(),
    ensures
        pending_outcomes(rv, base, qs.take(l + 1)) == pending_outcomes(rv, base, qs.take(l))
            + pending_outcome(rv, base, qs[l]),
    decreases l,
{
    if l == 0 {
        assert(qs.take(1).drop_first() =~= Seq::<PendingVerification>::empty());
        assert(qs.take(0) =~= Seq::<PendingVerification>::empty());
        assert(pending_outcomes(rv, base, qs.take(1)) =~= pending_outcomes(rv, base, qs.take(0))
            + pending_outcome(rv, base, qs[0]));
    } else {
        lemma_outcomes_take_step(rv, base, qs.drop_first(), l - 1);
        assert(qs.take(l + 1).drop_first() =~= qs.drop_first().take(l));
        assert(qs.take(l).drop_first() =~= qs.drop_first().take(l - 1));
        assert(qs.take(l + 1)[0] == qs[0] && qs.take(l)[0] == qs[0]);
        assert(qs.drop_first()[l - 1] == qs[l]);
        assert(pending_outcomes(rv, base, qs.take(l + 1)) =~= pending_outcomes(rv, base, qs.take(l))
            + pending_outcome(rv, base, qs[l]));
    }
}

/// Appending a pending entry appends its outcome.
proof fn lemma_outcomes_push(
    rv: Seq<(int, nat)>,
    base: Seq<u8>,
    qs: Seq<PendingVerification>,
    p: PendingVerification,
)
    ensures
        pending_outcomes(rv, base, qs.push(p)) == pending_outcomes(rv, base, qs) + pending_outcome(
            rv,
            base,
            p,
        ),
    decreases qs.len(),
{
    if qs.len() == 0 {
        assert(qs.push(p).drop_first() =~= Seq::<PendingVerification>::empty());
        assert(qs.push(p)[0] == p);
        assert(pending_outcomes(rv, base, qs.push(p)) == pending_outcome(rv, base, p)
            + pending_outcomes(rv, base, Seq::<PendingVerification>::empty()));
        assert(pending_outcomes(rv, base, qs.push(p)) =~= pending_outcomes(rv, base, qs)
            + pending_outcome(rv, base, p));
    } else {
        lemma_outcomes_push(rv, base, qs.drop_first(), p);
        assert(qs.push(p).drop_first() =~= qs.drop_first().push(p));
        assert(qs.push(p)[0] == qs[0]);
        assert(pending_outcomes(rv, base, qs.push(p)) == pending_outcome(rv, base, qs[0])
            + (pending_outcomes(rv, base, qs.drop_first()) + pending_outcome(rv, base, p)));
        assert(pending_outcomes(rv, base, qs) == pending_outcome(rv, base, qs[0])
            + pending_outcomes(rv, base, qs.drop_first()));
        assert(pending_outcomes(rv, base, qs.push(p)) =~= pending_outcomes(rv, base, qs)
            + pending_outcome(rv, base, p));
    }
}

} // verus!
