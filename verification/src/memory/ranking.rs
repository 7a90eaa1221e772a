//! Bounded deterministic ranking of recall hits.

use vstd::multiset::Multiset;
use vstd::prelude::*;

use crate::heap::MinHeap;
use crate::model::{Activation, AtomId, MemoryId};
use crate::parameters::SCALE;

verus! {

/// A non-zero query-local activation score returned by recall.
#[derive(Clone, Copy, Debug, PartialEq, Eq, Structural)]
pub struct RecallHit {
    /// Identifier of the recalled atom.
    pub atom_id: AtomId,
    /// Query-local fixed-point activation used for ranking.
    pub activation: Activation,
}

impl View for RecallHit {
    type V = (u64, nat);

    open spec fn view(&self) -> (u64, nat) {
        (self.atom_id.position(), self.activation@)
    }
}

/// The sequences and scores of hits.
pub open spec fn scores(hits: Seq<RecallHit>) -> Seq<(u64, nat)> {
    hits.map_values(|hit: RecallHit| hit@)
}

/// Higher scores rank first, and equal scores rank by ascending sequence.
pub open spec fn ranks_before(first: (u64, nat), second: (u64, nat)) -> bool {
    first.1 > second.1 || (first.1 == second.1 && first.0 < second.0)
}

/// `ranked` holds the best candidates, as many as the limit allows, best first.
pub open spec fn is_ranking(
    candidates: Seq<(u64, nat)>,
    limit: nat,
    ranked: Seq<(u64, nat)>,
) -> bool {
    &&& ranked.len() == if candidates.len() < limit {
        candidates.len()
    } else {
        limit
    }
    &&& forall|i: int, j: int|
        #![trigger ranked[i], ranked[j]]
        0 <= i < j < ranked.len() ==> ranks_before(ranked[i], ranked[j])
    &&& forall|i: int| 0 <= i < ranked.len() ==> candidates.contains(#[trigger] ranked[i])
    &&& forall|k: int|
        0 <= k < candidates.len() ==> ranked.contains(#[trigger] candidates[k]) || ranks_all_before(
            ranked,
            candidates[k],
        )
}

/// Every ranked entry ranks before the candidate.
pub open spec fn ranks_all_before(ranked: Seq<(u64, nat)>, candidate: (u64, nat)) -> bool {
    forall|i: int| 0 <= i < ranked.len() ==> ranks_before(#[trigger] ranked[i], candidate)
}

/// No two candidates share a sequence.
pub open spec fn distinct_sequences(candidates: Seq<(u64, nat)>) -> bool {
    forall|i: int, j: int|
        #![trigger candidates[i], candidates[j]]
        0 <= i < j < candidates.len() ==> candidates[i].0 != candidates[j].0
}

/// A ranking for a smaller limit is a prefix of a ranking for a larger one; for
/// equal limits the ranking is unique.
pub proof fn law_ranking_prefix(
    candidates: Seq<(u64, nat)>,
    small: nat,
    large: nat,
    fewer: Seq<(u64, nat)>,
    more: Seq<(u64, nat)>,
)
    requires
        distinct_sequences(candidates),
        small <= large,
        is_ranking(candidates, small, fewer),
        is_ranking(candidates, large, more),
    ensures
        fewer == more.take(fewer.len() as int),
        small == large ==> fewer == more,
{
    assert(fewer.len() <= more.len());
    assert forall|i: int| 0 <= i < fewer.len() implies fewer[i] == more[i] by {
        lemma_ranking_position(candidates, small, large, fewer, more, i);
    }
    assert(fewer =~= more.take(fewer.len() as int));
    if small == large {
        assert(more.take(fewer.len() as int) =~= more);
    }
}

proof fn lemma_ranking_position(
    candidates: Seq<(u64, nat)>,
    small: nat,
    large: nat,
    fewer: Seq<(u64, nat)>,
    more: Seq<(u64, nat)>,
    position: int,
)
    requires
        small <= large,
        is_ranking(candidates, small, fewer),
        is_ranking(candidates, large, more),
        0 <= position < fewer.len(),
    ensures
        fewer[position] == more[position],
    decreases position,
{
    assert forall|i: int| 0 <= i < position implies fewer[i] == more[i] by {
        lemma_ranking_position(candidates, small, large, fewer, more, i);
    }
    assert(fewer.len() <= more.len());
    let mine = fewer[position];
    let theirs = more[position];
    assert(candidates.contains(mine));
    assert(candidates.contains(theirs));
    let mine_at = candidates.index_of(mine);
    let theirs_at = candidates.index_of(theirs);
    assert(candidates[mine_at] == mine && candidates[theirs_at] == theirs);
    if mine != theirs {
        if more.contains(mine) {
            let k = more.index_of(mine);
            if k < position {
                assert(fewer[k] == more[k]);
                assert(ranks_before(fewer[k], fewer[position]));
            }
            assert(k > position);
            assert(ranks_before(more[position], more[k]));
        } else {
            assert(ranks_all_before(more, candidates[mine_at]));
            assert(ranks_before(more[position], mine));
        }
        assert(ranks_before(theirs, mine));
        if fewer.contains(theirs) {
            let k = fewer.index_of(theirs);
            if k < position {
                assert(fewer[k] == more[k]);
                assert(ranks_before(more[k], more[position]));
            }
            assert(ranks_before(fewer[position], fewer[k]));
        } else {
            assert(ranks_all_before(fewer, candidates[theirs_at]));
            assert(ranks_before(fewer[position], theirs));
        }
    }
}

/// One number that is larger the better a hit ranks.
spec fn rank_key(entry: (u64, nat)) -> int {
    entry.1 * 0x1_0000_0000_0000_0000 + (0xffff_ffff_ffff_ffff - entry.0)
}

proof fn lemma_rank_key(first: (u64, nat), second: (u64, nat))
    ensures
        ranks_before(first, second) <==> rank_key(first) > rank_key(second),
        rank_key(first) == rank_key(second) <==> first == second,
        rank_key(first) / 0x1_0000_0000_0000_0000 == first.1,
        0xffff_ffff_ffff_ffff - rank_key(first) % 0x1_0000_0000_0000_0000 == first.0,
{
}

spec fn held(keys: Multiset<u128>, entry: (u64, nat)) -> bool {
    keys.count(rank_key(entry) as u128) > 0
}

spec fn dominated(keys: Multiset<u128>, limit: nat, entry: (u64, nat)) -> bool {
    &&& keys.len() == limit
    &&& forall|key: u128| #[trigger] keys.count(key) > 0 ==> key > rank_key(entry)
}

/// The best hits of those pushed so far, at most as many as the limit allows.
pub struct BoundedHits {
    memory_id: MemoryId,
    limit: usize,
    best: MinHeap,
    pushed: Ghost<Seq<(u64, nat)>>,
}

impl BoundedHits {
    /// The memory that every hit belongs to.
    pub closed spec fn memory(&self) -> MemoryId {
        self.memory_id
    }

    /// The largest number of hits that are kept.
    pub closed spec fn bound(&self) -> nat {
        self.limit as nat
    }

    /// The hits pushed so far.
    pub closed spec fn candidates(&self) -> Seq<(u64, nat)> {
        self.pushed@
    }

    /// The kept hits are the best of those pushed.
    pub closed spec fn wf(&self) -> bool {
        &&& self.best.wf()
        &&& distinct_sequences(self.pushed@)
        &&& forall|i: int|
            0 <= i < self.pushed@.len() ==> (#[trigger] self.pushed@[i]).1 <= SCALE
        &&& self.best@.len() == if self.pushed@.len() < self.limit {
            self.pushed@.len()
        } else {
            self.limit as nat
        }
        &&& forall|key: u128| #[trigger]
            self.best@.count(key) > 0 ==> self.best@.count(key) == 1 && exists|i: int|
                0 <= i < self.pushed@.len() && rank_key(#[trigger] self.pushed@[i]) == key
        &&& forall|i: int|
            0 <= i < self.pushed@.len() ==> held(self.best@, #[trigger] self.pushed@[i])
                || dominated(self.best@, self.limit as nat, self.pushed@[i])
    }

    /// Starts a ranking of hits of one memory.
    pub fn new(memory_id: MemoryId, limit: usize) -> (ranking: BoundedHits)
        ensures
            ranking.wf(),
            ranking.memory() == memory_id,
            ranking.bound() == limit,
            ranking.candidates() == Seq::<(u64, nat)>::empty(),
    {
        BoundedHits { memory_id, limit, best: MinHeap::new(), pushed: Ghost(Seq::empty()) }
    }

    /// Considers one more hit; one without activation is no candidate.
    pub fn push(&mut self, hit: RecallHit)
        requires
            old(self).wf(),
            hit.atom_id.memory() == old(self).memory(),
            forall|i: int|
                0 <= i < old(self).candidates().len() ==> (#[trigger] old(self).candidates()[i]).0
                    != hit.atom_id.position(),
        ensures
            final(self).wf(),
            final(self).memory() == old(self).memory(),
            final(self).bound() == old(self).bound(),
            final(self).candidates() == if hit.activation@ == 0 {
                old(self).candidates()
            } else {
                old(self).candidates().push(hit@)
            },
    {
        if hit.activation.as_ppm() != 0 {
            self.consider(hit);
        }
    }

    /// Takes one more candidate.
    fn consider(&mut self, hit: RecallHit)
        requires
            old(self).wf(),
            forall|i: int|
                0 <= i < old(self).candidates().len() ==> (#[trigger] old(self).candidates()[i]).0
                    != hit.atom_id.position(),
        ensures
            final(self).wf(),
            final(self).memory() == old(self).memory(),
            final(self).bound() == old(self).bound(),
            final(self).candidates() == old(self).candidates().push(hit@),
    {
        broadcast use vstd::multiset::group_multiset_axioms;

        let ghost entry = hit@;
        let ppm: u32 = hit.activation.as_ppm();
        let sequence: u64 = hit.atom_id.sequence();
        let shifted: u128 = (ppm as u128) * 0x1_0000_0000_0000_0000;
        let key: u128 = shifted + (0xffff_ffff_ffff_ffff - sequence) as u128;
        let ghost before = self.best@;
        let ghost earlier = self.pushed@;
        assert(key == rank_key(entry));
        proof {
            assert(before.count(key) == 0) by {
                if before.count(key) > 0 {
                    let i = choose|i: int|
                        0 <= i < earlier.len() && rank_key(#[trigger] earlier[i]) == key;
                    lemma_rank_key(earlier[i], entry);
                    assert(old(self).candidates()[i].0 != entry.0);
                }
            }
        }
        let ghost limit = self.limit as nat;
        if self.best.len() < self.limit {
            self.best.push(key);
        } else if self.limit > 0 {
            let worst: u128 = self.best.peek().unwrap();
            if key > worst {
                let _ = self.best.pop();
                self.best.push(key);
            }
        }
        proof {
            self.pushed@ = earlier.push(entry);
            let now = self.best@;
            let pushed = self.pushed@;
            assert forall|other: u128| #[trigger] now.count(other) > 0 implies now.count(other) == 1
                && exists|i: int|
                0 <= i < pushed.len() && rank_key(#[trigger] pushed[i]) == other by {
                if other == key {
                    assert(rank_key(pushed[earlier.len() as int]) == other);
                } else {
                    assert(before.count(other) > 0);
                    let i = choose|i: int|
                        0 <= i < earlier.len() && rank_key(#[trigger] earlier[i]) == other;
                    assert(rank_key(pushed[i]) == other);
                }
            }
            assert forall|i: int| 0 <= i < pushed.len() implies held(now, #[trigger] pushed[i])
                || dominated(now, limit, pushed[i]) by {
                let mine = pushed[i];
                if i < earlier.len() {
                    assert(mine == earlier[i]);
                    assert(mine.1 <= SCALE);
                    assert(held(before, mine) || dominated(before, limit, mine));
                    assert(rank_key(mine) as u128 == rank_key(mine));
                }
                if !held(now, mine) {
                    assert(now.len() == limit);
                    assert forall|other: u128| #[trigger] now.count(other) > 0 implies other
                        > rank_key(mine) by {
                        if other != key {
                            assert(before.count(other) > 0);
                        }
                        if i < earlier.len() && held(before, mine) {
                            assert(before.count(rank_key(mine) as u128) == 1);
                        }
                    }
                }
            }
            assert(distinct_sequences(pushed)) by {
                assert forall|i: int, j: int|
                    #![trigger pushed[i], pushed[j]]
                    0 <= i < j < pushed.len() implies pushed[i].0 != pushed[j].0 by {
                    assert(pushed[i] == earlier[i]);
                    if j < earlier.len() {
                        assert(pushed[j] == earlier[j]);
                    } else {
                        assert(old(self).candidates()[i].0 != entry.0);
                    }
                }
            }
        }
    }

    /// Returns the kept hits, best first.
    pub fn finish(self) -> (hits: Vec<RecallHit>)
        requires
            self.wf(),
        ensures
            is_ranking(self.candidates(), self.bound(), scores(hits@)),
            forall|i: int|
                0 <= i < hits@.len() ==> (#[trigger] hits@[i]).atom_id.memory() == self.memory(),
    {
        broadcast use vstd::multiset::group_multiset_axioms;

        let mut best = self.best;
        let ghost kept = self.best@;
        let ghost pushed = self.pushed@;
        let mut worst_first: Vec<RecallHit> = Vec::new();
        while best.len() > 0
            invariant
                best.wf(),
                kept == self.best@,
                pushed == self.pushed@,
                self.wf(),
                worst_first@.len() + best@.len() == kept.len(),
                forall|key: u128| #[trigger] best@.count(key) <= kept.count(key),
                forall|i: int|
                    0 <= i < worst_first@.len() ==> {
                        &&& (#[trigger] worst_first@[i]).atom_id.memory() == self.memory()
                        &&& held(kept, worst_first@[i]@)
                        &&& !held(best@, worst_first@[i]@)
                        &&& pushed.contains(worst_first@[i]@)
                    },
                forall|i: int, key: u128|
                    #![trigger worst_first@[i], best@.count(key)]
                    0 <= i < worst_first@.len() && best@.count(key) > 0 ==> rank_key(
                        worst_first@[i]@,
                    ) < key,
                forall|i: int, j: int|
                    #![trigger worst_first@[i], worst_first@[j]]
                    0 <= i < j < worst_first@.len() ==> rank_key(worst_first@[i]@) < rank_key(
                        worst_first@[j]@,
                    ),
                forall|key: u128|
                    #![trigger kept.count(key)]
                    kept.count(key) > 0 ==> best@.count(key) > 0 || exists|i: int|
                        0 <= i < worst_first@.len() && rank_key((#[trigger] worst_first@[i])@)
                            == key,
            decreases best@.len(),
        {
            let ghost before = best@;
            let ghost earlier = worst_first@;
            let key: u128 = best.pop().unwrap();
            let ghost at = choose|at: int|
                0 <= at < pushed.len() && rank_key(#[trigger] pushed[at]) == key;
            assert(before.count(key) <= kept.count(key));
            assert(kept.count(key) == 1);
            let ghost entry = pushed[at];
            proof {
                lemma_rank_key(entry, entry);
                assert(entry.1 <= SCALE);
            }
            let ppm: u32 = (key / 0x1_0000_0000_0000_0000) as u32;
            let sequence: u64 = 0xffff_ffff_ffff_ffff - (key % 0x1_0000_0000_0000_0000) as u64;
            let activation: Activation = Activation::from_ppm(ppm).unwrap();
            let atom_id: AtomId = AtomId::from_parts(self.memory_id, sequence);
            let hit = RecallHit { atom_id, activation };
            assert(hit@ == entry);
            worst_first.push(hit);
            proof {
                assert(pushed.contains(pushed[at]));
                assert(before.count(key) == 1);
                assert(best@.count(key) == 0);
                assert forall|i: int, other: u128|
                    #![trigger worst_first@[i], best@.count(other)]
                    0 <= i < worst_first@.len() && best@.count(other) > 0 implies rank_key(
                    worst_first@[i]@,
                ) < other by {
                    assert(before.count(other) > 0);
                    if i < earlier.len() {
                        assert(worst_first@[i] == earlier[i]);
                    }
                }
                assert forall|i: int, j: int|
                    #![trigger worst_first@[i], worst_first@[j]]
                    0 <= i < j < worst_first@.len() implies rank_key(worst_first@[i]@) < rank_key(
                    worst_first@[j]@,
                ) by {
                    assert(worst_first@[i] == earlier[i]);
                    if j < earlier.len() {
                        assert(worst_first@[j] == earlier[j]);
                    } else {
                        assert(before.count(key) > 0);
                    }
                }
                assert forall|other: u128|
                    #![trigger kept.count(other)]
                    kept.count(other) > 0 implies best@.count(other) > 0 || exists|i: int|
                    0 <= i < worst_first@.len() && rank_key((#[trigger] worst_first@[i])@)
                        == other by {
                    if other == key {
                        assert(rank_key(worst_first@[earlier.len() as int]@) == other);
                    } else if before.count(other) > 0 {
                        assert(best@.count(other) > 0);
                    } else {
                        let i = choose|i: int|
                            0 <= i < earlier.len() && rank_key((#[trigger] earlier[i])@) == other;
                        assert(rank_key(worst_first@[i]@) == other);
                    }
                }
                assert forall|i: int| 0 <= i < worst_first@.len() implies {
                    &&& (#[trigger] worst_first@[i]).atom_id.memory() == self.memory()
                    &&& held(kept, worst_first@[i]@)
                    &&& !held(best@, worst_first@[i]@)
                    &&& pushed.contains(worst_first@[i]@)
                } by {
                    if i < earlier.len() {
                        assert(worst_first@[i] == earlier[i]);
                        assert(!held(before, earlier[i]@));
                    }
                }
            }
        }
        let ghost sorted = worst_first@;
        let mut hits: Vec<RecallHit> = Vec::new();
        while worst_first.len() > 0
            invariant
                worst_first@.len() + hits@.len() == sorted.len(),
                worst_first@ =~= sorted.take(worst_first@.len() as int),
                forall|i: int|
                    0 <= i < hits@.len() ==> #[trigger] hits@[i] == sorted[sorted.len() - 1 - i],
            decreases worst_first@.len(),
        {
            let hit = worst_first.pop().unwrap();
            hits.push(hit);
        }
        proof {
            let ranked = scores(hits@);
            assert forall|i: int, j: int|
                #![trigger ranked[i], ranked[j]]
                0 <= i < j < ranked.len() implies ranks_before(ranked[i], ranked[j]) by {
                assert(hits@[i] == sorted[sorted.len() - 1 - i]);
                assert(hits@[j] == sorted[sorted.len() - 1 - j]);
                lemma_rank_key(ranked[i], ranked[j]);
            }
            assert forall|i: int| 0 <= i < ranked.len() implies pushed.contains(
                #[trigger] ranked[i],
            ) by {
                assert(hits@[i] == sorted[sorted.len() - 1 - i]);
            }
            assert forall|k: int| 0 <= k < pushed.len() implies ranked.contains(
                #[trigger] pushed[k],
            ) || ranks_all_before(ranked, pushed[k]) by {
                let entry = pushed[k];
                if held(kept, entry) {
                    assert(kept.count(rank_key(entry) as u128) > 0);
                    assert(best@.count(rank_key(entry) as u128) == 0);
                    let i = choose|i: int|
                        0 <= i < sorted.len() && rank_key((#[trigger] sorted[i])@) == rank_key(
                            entry,
                        ) as u128;
                    assert(rank_key(entry) as u128 == rank_key(entry)) by {
                        assert(entry.1 <= SCALE);
                    }
                    lemma_rank_key(sorted[i]@, entry);
                    assert(hits@[sorted.len() - 1 - i] == sorted[i]);
                    assert(ranked[sorted.len() - 1 - i] == entry);
                } else {
                    assert forall|i: int| 0 <= i < ranked.len() implies ranks_before(
                        #[trigger] ranked[i],
                        entry,
                    ) by {
                        assert(hits@[i] == sorted[sorted.len() - 1 - i]);
                        let hit = sorted[sorted.len() - 1 - i];
                        assert(held(kept, hit@));
                        assert(kept.count(rank_key(hit@) as u128) > 0);
                        lemma_rank_key(hit@, entry);
                    }
                }
            }
        }
        hits
    }
}

/// Ranks distinct hits and keeps the best ones.
pub fn rank_hits(memory_id: MemoryId, hits: &Vec<RecallHit>, limit: usize) -> (ranked: Vec<
    RecallHit,
>)
    requires
        distinct_sequences(scores(hits@)),
        forall|i: int|
            0 <= i < hits@.len() ==> (#[trigger] hits@[i]).atom_id.memory() == memory_id,
    ensures
        is_ranking(scores(hits@), limit as nat, scores(ranked@)),
        forall|i: int|
            0 <= i < ranked@.len() ==> (#[trigger] ranked@[i]).atom_id.memory() == memory_id,
{
    let mut ranking = BoundedHits::new(memory_id, limit);
    let mut index: usize = 0;
    let ghost all = scores(hits@);
    assert(all.take(0) =~= Seq::empty());
    while index < hits.len()
        invariant
            index <= hits@.len(),
            all == scores(hits@),
            distinct_sequences(all),
            ranking.wf(),
            ranking.memory() == memory_id,
            ranking.bound() == limit,
            ranking.candidates() == all.take(index as int),
        decreases hits@.len() - index,
    {
        let hit = hits[index];
        proof {
            assert forall|i: int| 0 <= i < ranking.candidates().len() implies (
            #[trigger] ranking.candidates()[i]).0 != hit.atom_id.position() by {
                assert(all[i].0 != all[index as int].0);
            }
        }
        ranking.consider(hit);
        index = index + 1;
        assert(ranking.candidates() =~= all.take(index as int));
    }
    assert(all.take(index as int) =~= all);
    ranking.finish()
}

} // verus!
