//! Source-conditioned recall over shared cues and direct feedback.

use vstd::prelude::*;

use crate::episode::{Cue, Episode};
use crate::memory::posting::{
    count_members, cue_sets, holding, lemma_count_members, stream_views, PostingMerge,
};
use crate::memory::ranking::{
    distinct_sequences, is_ranking, rank_hits, scores, RecallHit,
};
use crate::memory::{list_row, lists_row, lookup, Memory, Traces};
use crate::model::{count_helpful, Activation, AtomId, FeedbackTrace, GraphError};
use crate::parameters::{
    FEEDBACK_HISTORY_CAPACITY, FEEDBACK_PRIOR_MASS, LEARNED_GAIN_PPM, SCALE, STRUCTURAL_GAIN_PPM,
};

verus! {

/// Share of the structural gain that two cue counts with an overlap earn: the
/// overlap over the union, rounded down.
pub open spec fn overlap_score(shared: nat, first: nat, second: nat) -> nat {
    if shared == 0 {
        0
    } else {
        shared * (STRUCTURAL_GAIN_PPM as nat) / ((first + second - shared) as nat)
    }
}

/// Structural score of two cue sets.
pub open spec fn structural(first: Set<Cue>, second: Set<Cue>) -> nat {
    overlap_score(first.intersect(second).len(), first.len(), second.len())
}

/// Signed share of the learned gain that a history earns: the balance of its
/// samples against a neutral prior, rounded toward zero.
pub open spec fn balance_score(count: nat, helpful: nat) -> int {
    let balance = 2 * helpful - count;
    let gain = LEARNED_GAIN_PPM * (FEEDBACK_HISTORY_CAPACITY + FEEDBACK_PRIOR_MASS);
    let mass = FEEDBACK_HISTORY_CAPACITY * (count + FEEDBACK_PRIOR_MASS);
    if balance >= 0 {
        (gain * balance) / mass
    } else {
        -((gain * (-balance)) / mass)
    }
}

/// Learned score of a trace that may be absent.
pub open spec fn learned(trace: Option<FeedbackTrace>) -> int {
    match trace {
        Some(trace) => balance_score(trace.samples().len(), count_helpful(trace.samples())),
        None => 0,
    }
}

/// Both contributions together, held between zero and both gains.
pub open spec fn combined_score(structural: nat, learned: int) -> nat {
    let total = structural + learned;
    if total < 0 {
        0
    } else if total > STRUCTURAL_GAIN_PPM + LEARNED_GAIN_PPM {
        (STRUCTURAL_GAIN_PPM + LEARNED_GAIN_PPM) as nat
    } else {
        total as nat
    }
}

/// Recall score of one position from another.
pub open spec fn recall_score(sets: Seq<Set<Cue>>, traces: Traces, source: int, target: int) -> nat {
    combined_score(
        structural(sets[source], sets[target]),
        learned(lookup(traces, (source as usize, target as usize))),
    )
}

/// The positively scored targets below `end`, in ascending order with their scores.
pub open spec fn recall_candidates(
    sets: Seq<Set<Cue>>,
    traces: Traces,
    source: int,
    end: int,
) -> Seq<(u64, nat)>
    decreases end,
{
    if end <= 0 {
        Seq::empty()
    } else {
        let target = end - 1;
        let earlier = recall_candidates(sets, traces, source, target);
        let score = recall_score(sets, traces, source, target);
        if target != source && score > 0 {
            earlier.push((target as u64, score))
        } else {
            earlier
        }
    }
}

impl<E: Episode> Memory<E> {
    /// Every positively scored episode but the source, in ascending order.
    pub open spec fn recall_field(&self, source: AtomId) -> Seq<(u64, nat)> {
        recall_candidates(
            cue_sets(self.atoms()),
            self.traces(),
            source.position() as int,
            self.atoms().len() as int,
        )
    }
}

/// The candidates ascend, and they are exactly the positively scored targets.
pub proof fn lemma_candidates_members(
    sets: Seq<Set<Cue>>,
    traces: Traces,
    source: int,
    end: int,
)
    requires
        0 <= end <= sets.len(),
        sets.len() <= 0x1_0000_0000_0000_0000,
    ensures
        ({
            let candidates = recall_candidates(sets, traces, source, end);
            &&& forall|i: int|
                0 <= i < candidates.len() ==> {
                    let entry = #[trigger] candidates[i];
                    &&& entry.0 < end
                    &&& entry.0 != source
                    &&& entry.1 == recall_score(sets, traces, source, entry.0 as int)
                    &&& entry.1 > 0
                }
            &&& forall|i: int, j: int|
                #![trigger candidates[i], candidates[j]]
                0 <= i < j < candidates.len() ==> candidates[i].0 < candidates[j].0
            &&& forall|target: int|
                #![trigger recall_score(sets, traces, source, target)]
                0 <= target < end && target != source && recall_score(sets, traces, source, target)
                    > 0 ==> candidates.contains(
                    (target as u64, recall_score(sets, traces, source, target)),
                )
            &&& distinct_sequences(candidates)
        }),
    decreases end,
{
    if end > 0 {
        lemma_candidates_members(sets, traces, source, end - 1);
        let earlier = recall_candidates(sets, traces, source, end - 1);
        let candidates = recall_candidates(sets, traces, source, end);
        let score = recall_score(sets, traces, source, end - 1);
        assert forall|target: int|
            #![trigger recall_score(sets, traces, source, target)]
            0 <= target < end && target != source && recall_score(sets, traces, source, target)
                > 0 implies candidates.contains(
            (target as u64, recall_score(sets, traces, source, target)),
        ) by {
            let entry = (target as u64, recall_score(sets, traces, source, target));
            if target < end - 1 {
                assert(earlier.contains(entry));
                let k = earlier.index_of(entry);
                assert(candidates[k] == entry);
            } else {
                assert(candidates[earlier.len() as int] == entry);
            }
        }
        assert forall|i: int, j: int|
            #![trigger candidates[i], candidates[j]]
            0 <= i < j < candidates.len() implies candidates[i].0 < candidates[j].0 by {
            assert(candidates[i] == earlier[i]);
            if j < earlier.len() {
                assert(candidates[j] == earlier[j]);
            }
        }
    }
}

/// Targets without a score add no candidate.
proof fn lemma_candidates_gap(
    sets: Seq<Set<Cue>>,
    traces: Traces,
    source: int,
    start: int,
    end: int,
)
    requires
        0 <= start <= end,
        forall|target: int|
            start <= target < end && target != source ==> #[trigger] recall_score(
                sets,
                traces,
                source,
                target,
            ) == 0,
    ensures
        recall_candidates(sets, traces, source, end) == recall_candidates(
            sets,
            traces,
            source,
            start,
        ),
    decreases end,
{
    if start < end {
        lemma_candidates_gap(sets, traces, source, start, end - 1);
        if end - 1 != source {
            assert(recall_score(sets, traces, source, end - 1) == 0);
        }
    }
}

/// The learned score never exceeds its gain in either direction.
pub proof fn law_learned_score_is_bounded(count: nat, helpful: nat)
    requires
        1 <= count <= FEEDBACK_HISTORY_CAPACITY,
        helpful <= count,
    ensures
        -LEARNED_GAIN_PPM <= balance_score(count, helpful) <= LEARNED_GAIN_PPM,
        helpful == count ==> balance_score(count, helpful) > 0,
        2 * helpful == count ==> balance_score(count, helpful) == 0,
        helpful == 0 ==> balance_score(count, helpful) < 0,
        balance_score(count, helpful) == -balance_score(count, (count - helpful) as nat),
        helpful == count && count == FEEDBACK_HISTORY_CAPACITY ==> balance_score(count, helpful)
            == LEARNED_GAIN_PPM,
{
    let balance = 2 * helpful - count;
    let magnitude = if balance >= 0 {
        balance
    } else {
        -balance
    };
    let mass: int = 16 * (count as int + 7);
    let gain: int = 9_200_000 * magnitude;
    assert(gain <= 400_000 * mass) by {
        assert(magnitude <= count);
    }
    assert(0 <= gain / mass <= 400_000) by (nonlinear_arith)
        requires
            0 <= gain <= 400_000 * mass,
            mass > 0,
    ;
    if helpful == count || helpful == 0 {
        assert(gain >= mass);
        assert(gain / mass >= 1) by (nonlinear_arith)
            requires
                gain >= mass,
                mass > 0,
        ;
    }
    if helpful == count && count == 16 {
        assert(gain == 400_000 * mass);
        assert(gain / mass == 400_000) by (nonlinear_arith)
            requires
                gain == 400_000 * mass,
                mass > 0,
        ;
    }
    if balance == 0 {
        assert(gain == 0);
        assert(gain / mass == 0) by (nonlinear_arith)
            requires
                gain == 0,
                mass > 0,
        ;
    }
}

/// The structural score is symmetric, never exceeds its gain, and reaches it for
/// equal cue sets that are not empty.
pub proof fn law_structural_score_is_a_symmetric_share(first: Set<Cue>, second: Set<Cue>)
    requires
        first.finite(),
        second.finite(),
    ensures
        structural(first, second) == structural(second, first),
        structural(first, second) <= STRUCTURAL_GAIN_PPM,
        first.len() > 0 ==> structural(first, first) == STRUCTURAL_GAIN_PPM,
        first.disjoint(second) ==> structural(first, second) == 0,
{
    assert(first.intersect(second) =~= second.intersect(first));
    lemma_overlap_bounded(first, second);
    lemma_overlap_score_bounded(
        first.intersect(second).len(),
        first.len(),
        second.len(),
    );
    assert(first.intersect(first) =~= first);
    if first.len() > 0 {
        let count = first.len();
        assert(count * 400_000 / count == 400_000) by (nonlinear_arith)
            requires
                count > 0,
        ;
    }
    if first.disjoint(second) {
        assert(first.intersect(second) =~= Set::empty());
    }
}

/// Every recall score stays within the two gains together, and so within the scale.
pub proof fn law_recall_score_is_bounded(
    sets: Seq<Set<Cue>>,
    traces: Traces,
    source: int,
    target: int,
)
    ensures
        recall_score(sets, traces, source, target) <= STRUCTURAL_GAIN_PPM + LEARNED_GAIN_PPM
            <= SCALE,
{
}

proof fn lemma_overlap_bounded(first: Set<Cue>, second: Set<Cue>)
    requires
        first.finite(),
        second.finite(),
    ensures
        first.intersect(second).len() <= first.len(),
        first.intersect(second).len() <= second.len(),
        first.intersect(second).finite(),
{
    vstd::set_lib::lemma_len_subset(first.intersect(second), first);
    vstd::set_lib::lemma_len_subset(first.intersect(second), second);
}

proof fn lemma_overlap_score_bounded(shared: nat, first: nat, second: nat)
    requires
        shared <= first,
        shared <= second,
    ensures
        overlap_score(shared, first, second) <= STRUCTURAL_GAIN_PPM,
{
    if shared > 0 {
        let union = (first + second - shared) as nat;
        assert(shared * 400_000 / union <= 400_000) by (nonlinear_arith)
            requires
                0 < shared <= union,
        ;
    }
}

/// Returns the share of the structural gain that an overlap earns.
pub fn structural_score(shared_count: u64, source_count: u64, target_count: u64) -> (score: u32)
    requires
        shared_count <= source_count,
        shared_count <= target_count,
    ensures
        score == overlap_score(shared_count as nat, source_count as nat, target_count as nat),
        score <= STRUCTURAL_GAIN_PPM,
        shared_count == 0 ==> score == 0,
        shared_count > 0 ==> score * (source_count + target_count - shared_count) <= shared_count
            * 400_000 < (score + 1) * (source_count + target_count - shared_count),
{
    if shared_count == 0 {
        return 0;
    }
    let union_count: u128 = source_count as u128 + target_count as u128 - shared_count as u128;
    proof {
        lemma_overlap_score_bounded(
            shared_count as nat,
            source_count as nat,
            target_count as nat,
        );
    }
    let score: u128 = shared_count as u128 * (STRUCTURAL_GAIN_PPM as u128) / union_count;
    proof {
        let share = shared_count * 400_000;
        assert(score * union_count <= share < (score + 1) * union_count) by (nonlinear_arith)
            requires
                union_count > 0,
                score == share / union_count as int,
        ;
    }
    score as u32
}

/// Returns the signed share of the learned gain that a history earns.
pub fn project_feedback(trace: FeedbackTrace) -> (score: i32)
    ensures
        score == learned(Some(trace)),
        -LEARNED_GAIN_PPM <= score <= LEARNED_GAIN_PPM,
{
    let sample_count: i64 = trace.sample_count() as i64;
    let helpful_count: i64 = trace.helpful_count() as i64;
    proof {
        law_learned_score_is_bounded(sample_count as nat, helpful_count as nat);
    }
    let balance: i64 = helpful_count * 2 - sample_count;
    let gain: i64 = LEARNED_GAIN_PPM as i64 * (FEEDBACK_HISTORY_CAPACITY as i64
        + FEEDBACK_PRIOR_MASS as i64);
    let mass: i64 = FEEDBACK_HISTORY_CAPACITY as i64 * (sample_count + FEEDBACK_PRIOR_MASS as i64);
    if balance >= 0 {
        ((gain * balance) / mass) as i32
    } else {
        -(((gain * (-balance)) / mass) as i32)
    }
}

/// Returns both contributions together, held between zero and both gains.
pub fn combine_scores(structural_score: u32, learned_score: i32) -> (activation: Activation)
    requires
        structural_score <= STRUCTURAL_GAIN_PPM,
        -LEARNED_GAIN_PPM <= learned_score <= LEARNED_GAIN_PPM,
    ensures
        activation@ == combined_score(structural_score as nat, learned_score as int),
{
    let total: i64 = structural_score as i64 + learned_score as i64;
    let limit: i64 = STRUCTURAL_GAIN_PPM as i64 + LEARNED_GAIN_PPM as i64;
    let score: u32 = if total < 0 {
        0
    } else if total > limit {
        limit as u32
    } else {
        total as u32
    };
    Activation::from_ppm(score).unwrap()
}

/// The pending structural target and what the merge still holds, from `frontier` on.
spec fn structural_pending(
    sets: Seq<Set<Cue>>,
    source: int,
    frontier: int,
    pending: Option<(usize, u64)>,
    merge: PostingMerge,
) -> bool {
    &&& forall|target: usize|
        #![trigger merge.remaining(target)]
        merge.remaining(target) > 0 ==> target < sets.len() && target != source && target
            >= frontier && (pending is Some ==> target > (pending->0).0)
    &&& pending is None ==> forall|target: usize| #[trigger] merge.remaining(target) == 0
    &&& pending matches Some((target, count)) ==> {
        &&& frontier <= target < sets.len()
        &&& target != source
        &&& count > 0
        &&& count == sets[source].intersect(sets[target as int]).len()
    }
    &&& forall|target: usize|
        #![trigger merge.remaining(target)]
        frontier <= target < sets.len() && target != source && (pending is None || target
            != (pending->0).0) ==> merge.remaining(target) == sets[source].intersect(
            sets[target as int],
        ).len()
}

impl<E: Episode> Memory<E> {
    /// Ranks cue-derived similarity and direct learned feedback from `source`.
    ///
    /// Cue postings generate structural candidates from the source episode's
    /// symbolic content. Direct outgoing feedback can add candidates and a
    /// signed learned score. Both contributions use deterministic fixed-point
    /// arithmetic. Zero scores and the source itself are omitted; equal scores
    /// are ordered by ascending atom identifier.
    ///
    /// # Errors
    ///
    /// Returns [`GraphError::UnknownAtom`] if `source` does not belong to this
    /// memory. The source is validated even when `limit` is zero.
    pub fn recall_from(&self, source: AtomId, limit: usize) -> (result: Result<
        Vec<RecallHit>,
        GraphError,
    >)
        requires
            self.wf(),
        ensures
            result is Ok <==> self.knows(source),
            result matches Err(error) ==> error == GraphError::UnknownAtom(source),
            result matches Ok(hits) ==> {
                &&& is_ranking(self.recall_field(source), limit as nat, scores(hits@))
                &&& forall|i: int|
                    0 <= i < hits@.len() ==> (#[trigger] hits@[i]).atom_id.memory()
                        == self.identifier()
            },
    {
        let source_index: usize = match self.require_atom(source) {
            Ok(index) => index,
            Err(error) => {
                return Err(error);
            },
        };
        if limit == 0 {
            let hits: Vec<RecallHit> = Vec::new();
            return Ok(hits);
        }
        let candidates: Vec<RecallHit> = self.recall_hits(source_index);
        let total: usize = self.atoms.len();
        proof {
            assert(cue_sets(self.atoms()).len() == total);
            lemma_candidates_members(
                cue_sets(self.atoms()),
                self.traces(),
                source_index as int,
                self.atoms().len() as int,
            );
        }
        Ok(rank_hits(self.memory_id, &candidates, limit))
    }

    /// Scores every candidate of a source, in ascending target order.
    fn recall_hits(&self, source_index: usize) -> (hits: Vec<RecallHit>)
        requires
            self.wf(),
            source_index < self.atoms().len(),
        ensures
            scores(hits@) == recall_candidates(
                cue_sets(self.atoms()),
                self.traces(),
                source_index as int,
                self.atoms().len() as int,
            ),
            forall|i: int|
                0 <= i < hits@.len() ==> (#[trigger] hits@[i]).atom_id.memory()
                    == self.identifier(),
    {
        let ghost sets = cue_sets(self.atoms@);
        let ghost traces = self.traces();
        let ghost source = source_index as int;
        let total: usize = self.atoms.len();
        let source_cues: Vec<Cue> = self.atoms[source_index].episode_cues();
        let source_count: u64 = self.cue_index.cue_count(source_index, Ghost(sets));
        let streams = self.cue_index.streams(&source_cues, Ghost(sets));
        let mut merge = PostingMerge::new(streams, source_index);
        proof {
            assert(source_cues@.to_set() == sets[source]);
            assert forall|target: usize|
                #![trigger merge.remaining(target)]
                merge.remaining(target) == if target < sets.len() && target != source {
                    sets[source].intersect(sets[target as int]).len()
                } else {
                    0nat
                } by {
                assert(holding(stream_views(streams@), target) == if target < sets.len() {
                    count_members(source_cues@, sets[target as int])
                } else {
                    0nat
                });
                if target < sets.len() {
                    lemma_count_members(source_cues@, sets[target as int]);
                }
            }
        }
        let row: Vec<(usize, FeedbackTrace)> = match self.outgoing.get(&source_index) {
            Some(row) => list_row(row),
            None => Vec::new(),
        };
        let ghost full_row: Map<usize, FeedbackTrace> = if self.outgoing@.contains_key(
            source_index,
        ) {
            self.outgoing@[source_index]@
        } else {
            Map::empty()
        };
        assert(lists_row(row@, full_row));
        assert forall|target: usize| #[trigger]
            full_row.contains_key(target) <==> traces.contains_key((source_index, target)) by {}
        assert forall|target: usize| #[trigger]
            full_row.contains_key(target) implies full_row[target] == traces[(source_index, target)]
            && target < sets.len() && target != source_index by {
            assert(traces.contains_key((source_index, target)));
        }
        let ghost whole = merge;
        let mut pending: Option<(usize, u64)> = merge.next();
        proof {
            assert forall|target: usize|
                #![trigger merge.remaining(target)]
                merge.remaining(target) > 0 implies target < sets.len() && target != source && (
            pending is Some ==> target > (pending->0).0) by {
                assert(whole.remaining(target) > 0);
            }
            if pending is Some {
                assert(whole.remaining((pending->0).0) > 0);
            } else {
                assert forall|target: usize| #[trigger] merge.remaining(target) == 0 by {
                    assert(whole.remaining(target) == 0);
                }
            }
            assert forall|target: usize|
                #![trigger merge.remaining(target)]
                0 <= target < sets.len() && target != source && (pending is None || target
                    != (pending->0).0) implies merge.remaining(target) == sets[source].intersect(
                sets[target as int],
            ).len() by {
                assert(whole.remaining(target) == sets[source].intersect(
                    sets[target as int],
                ).len());
            }
        }
        let mut entry: usize = 0;
        let mut hits: Vec<RecallHit> = Vec::new();
        let ghost mut frontier: int = 0;
        assert(scores(hits@) =~= recall_candidates(sets, traces, source, 0));
        while pending.is_some() || entry < row.len()
            invariant
                self.wf(),
                total == self.atoms@.len(),
                sets == cue_sets(self.atoms@),
                traces == self.traces(),
                source == source_index,
                source_index < sets.len(),
                source_count == sets[source].len(),
                sets[source].finite(),
                merge.wf(),
                structural_pending(sets, source, frontier, pending, merge),
                lists_row(row@, full_row),
                forall|target: usize| #[trigger]
                    full_row.contains_key(target) <==> traces.contains_key((source_index, target)),
                forall|target: usize| #[trigger]
                    full_row.contains_key(target) ==> full_row[target] == traces[(
                        source_index,
                        target,
                    )] && target < sets.len() && target != source_index,
                entry <= row@.len(),
                0 <= frontier <= sets.len(),
                forall|i: int| entry <= i < row@.len() ==> (#[trigger] row@[i]).0 >= frontier,
                forall|i: int| 0 <= i < entry ==> (#[trigger] row@[i]).0 < frontier,
                scores(hits@) == recall_candidates(sets, traces, source, frontier),
                forall|i: int|
                    0 <= i < hits@.len() ==> (#[trigger] hits@[i]).atom_id.memory()
                        == self.memory_id,
            decreases sets.len() - frontier,
        {
            let structural_target: Option<usize> = match pending {
                Some((target, count)) => Some(target),
                None => None,
            };
            let feedback_target: Option<usize> = if entry < row.len() {
                Some(row[entry].0)
            } else {
                None
            };
            let target: usize = match (structural_target, feedback_target) {
                (Some(first), Some(second)) => if first < second {
                    first
                } else {
                    second
                },
                (Some(first), None) => first,
                (None, Some(second)) => second,
                (None, None) => 0,
            };
            proof {
                if entry < row@.len() {
                    assert(full_row.contains_key(row@[entry as int].0));
                }
                assert(frontier <= target < sets.len());
                assert(target != source);
                assert forall|other: int|
                    frontier <= other < target && other != source implies #[trigger] recall_score(
                    sets,
                    traces,
                    source,
                    other,
                ) == 0 by {
                    let at = other as usize;
                    if merge.remaining(at) > 0 {
                        assert(pending is Some && at > (pending->0).0);
                    }
                    assert(sets[source].intersect(sets[other]).len() == 0);
                    if full_row.contains_key(at) {
                        let i = choose|i: int| 0 <= i < row@.len() && (#[trigger] row@[i]).0 == at;
                        if entry <= i {
                            assert(row@[entry as int].0 <= row@[i].0);
                        }
                    }
                    assert(!traces.contains_key((source_index, at)));
                }
                lemma_candidates_gap(sets, traces, source, frontier, target as int);
            }
            let mut shared_count: u64 = 0;
            let ghost merge_before = merge;
            let ghost pending_before = pending;
            match pending {
                Some((structural, count)) => {
                    if structural == target {
                        shared_count = count;
                        pending = merge.next();
                    }
                },
                None => {},
            }
            let mut learned_score: i32 = 0;
            let ghost entry_before = entry;
            if entry < row.len() && row[entry].0 == target {
                learned_score = project_feedback(row[entry].1);
                entry = entry + 1;
            }
            proof {
                assert(shared_count == sets[source].intersect(sets[target as int]).len()) by {
                    if pending_before is None || (pending_before->0).0 != target {
                        assert(merge_before.remaining(target) == 0) by {
                            if merge_before.remaining(target) > 0 {
                                assert(pending_before is Some && target > (pending_before->0).0);
                            }
                        }
                    }
                }
                assert(learned_score == learned(lookup(traces, (source_index, target)))) by {
                    if full_row.contains_key(target) {
                        let i = choose|i: int|
                            0 <= i < row@.len() && (#[trigger] row@[i]).0 == target;
                        if i < entry_before {
                            assert(row@[i].0 < frontier);
                        }
                        if i > entry_before {
                            assert(row@[entry_before as int].0 < row@[i].0);
                        }
                        assert(i == entry_before);
                    } else if entry_before < row@.len() && row@[entry_before as int].0 == target {
                        assert(full_row.contains_key(row@[entry_before as int].0));
                    }
                }
                lemma_target_finite(sets, self.cue_index, target as int);
                lemma_overlap_bounded(sets[source], sets[target as int]);
            }
            let target_count: u64 = self.cue_index.cue_count(target, Ghost(sets));
            let structural_part: u32 = structural_score(shared_count, source_count, target_count);
            let activation: Activation = combine_scores(structural_part, learned_score);
            let ghost before = hits@;
            assert(activation@ == recall_score(sets, traces, source, target as int));
            if activation.as_ppm() != 0 {
                let atom_id: AtomId = self.atoms[target].identity();
                let hit = RecallHit { atom_id, activation };
                hits.push(hit);
                proof {
                    assert(self.atoms@[target as int].identifier() == AtomId::of(
                        self.memory_id,
                        target as u64,
                    ));
                    crate::model::lemma_atom_id_parts(self.memory_id, target as u64);
                    assert(hit@ == (target as u64, activation@));
                    assert(scores(hits@) =~= scores(before).push(hit@));
                }
            }
            proof {
                assert(scores(hits@) == recall_candidates(sets, traces, source, target + 1));
                assert(structural_pending(sets, source, target + 1, pending, merge)) by {
                    assert forall|other: usize|
                        #![trigger merge.remaining(other)]
                        merge.remaining(other) > 0 implies other < sets.len() && other != source
                        && other >= target + 1 && (pending is Some ==> other > (pending->0).0) by {
                        assert(merge_before.remaining(other) > 0);
                    }
                    if pending_before is Some && (pending_before->0).0 == target {
                        if pending is Some {
                            assert(merge_before.remaining((pending->0).0) > 0);
                        } else {
                            assert forall|other: usize| #[trigger] merge.remaining(other) == 0 by {
                                assert(merge_before.remaining(other) == 0);
                            }
                        }
                    }
                    assert forall|other: usize|
                        #![trigger merge.remaining(other)]
                        target + 1 <= other < sets.len() && other != source && (pending is None
                            || other != (pending->0).0) implies merge.remaining(other)
                        == sets[source].intersect(sets[other as int]).len() by {
                        assert(merge_before.remaining(other) >= 0);
                    }
                }
                assert forall|i: int| entry <= i < row@.len() implies (#[trigger] row@[i]).0
                    >= target + 1 by {
                    if entry_before < row@.len() && entry_before < i {
                        assert(row@[entry_before as int].0 < row@[i].0);
                    }
                }
                assert forall|i: int| 0 <= i < entry implies (#[trigger] row@[i]).0 < target + 1 by {
                    if i < entry_before {
                        assert(row@[i].0 < frontier);
                    }
                }
                frontier = target + 1;
            }
        }
        proof {
            assert forall|other: int|
                frontier <= other < sets.len() && other != source implies #[trigger] recall_score(
                sets,
                traces,
                source,
                other,
            ) == 0 by {
                let at = other as usize;
                assert(merge.remaining(at) == 0);
                if full_row.contains_key(at) {
                    let i = choose|i: int| 0 <= i < row@.len() && (#[trigger] row@[i]).0 == at;
                    assert(row@[i].0 < frontier);
                }
                assert(!traces.contains_key((source_index, at)));
            }
            lemma_candidates_gap(sets, traces, source, frontier, sets.len() as int);
        }
        hits
    }
}

proof fn lemma_target_finite(
    sets: Seq<Set<Cue>>,
    index: crate::memory::posting::CueIndex,
    target: int,
)
    requires
        index.describes(sets),
        0 <= target < sets.len(),
    ensures
        sets[target].finite(),
{
    index.lemma_described_finite(sets, target);
}

} // verus!
