//! What holds across the operations of a memory.

use vstd::prelude::*;

use crate::attribute;
use crate::episode::{Cue, Episode};
use crate::memory::posting::cue_sets;
use crate::memory::ranking::{distinct_sequences, is_ranking, law_ranking_prefix};
use crate::memory::recall::{
    learned, lemma_candidates_members, recall_candidates, recall_score, structural,
};
use crate::memory::{
    assessed, extends_trace, feedback_applied, lookup, positioned, Memory, Traces,
};
use crate::model::{law_trace_is_its_samples, AtomId};
use crate::parameters::{LEARNED_GAIN_PPM, STRUCTURAL_GAIN_PPM};
use crate::statement;

verus! {

/// Feedback treats its targets as a set without the source: the order of the
/// targets, repeated targets and the source among them change nothing.
pub proof fn law_feedback_treats_targets_as_a_set(
    before: Traces,
    source: AtomId,
    targets: Seq<AtomId>,
    others: Seq<AtomId>,
    helpful: bool,
    after: Traces,
    other_after: Traces,
)
    requires
        forall|position: u64|
            position != source.position() ==> (#[trigger] positioned(targets, position)
                <==> positioned(others, position)),
        feedback_applied(before, source, targets, helpful, after),
        feedback_applied(before, source, others, helpful, other_after),
    ensures
        after == other_after,
{
    assert forall|pair: (usize, usize)| #[trigger]
        assessed(source, targets, pair) <==> assessed(source, others, pair) by {
        if pair.1 != source.position() {
            assert(positioned(targets, pair.1 as u64) <==> positioned(others, pair.1 as u64));
        }
    }
    assert forall|pair: (usize, usize)| #[trigger]
        after.contains_key(pair) <==> other_after.contains_key(pair) by {
        assert(assessed(source, targets, pair) <==> assessed(source, others, pair));
    }
    assert forall|pair: (usize, usize)| #[trigger] after.contains_key(pair) implies after[pair]
        == other_after[pair] by {
        assert(assessed(source, targets, pair) <==> assessed(source, others, pair));
        assert(other_after.contains_key(pair));
        if assessed(source, targets, pair) {
            assert(extends_trace(lookup(before, pair), helpful, after[pair]));
            assert(extends_trace(lookup(before, pair), helpful, other_after[pair]));
            law_trace_is_its_samples(after[pair], other_after[pair]);
        }
    }
    assert(after =~= other_after);
}

/// Feedback is directed: it changes what is recalled from its source, never
/// what is recalled from another episode.
pub proof fn law_feedback_is_directed(
    sets: Seq<Set<Cue>>,
    before: Traces,
    source: AtomId,
    targets: Seq<AtomId>,
    helpful: bool,
    after: Traces,
    other: int,
    end: int,
)
    requires
        feedback_applied(before, source, targets, helpful, after),
        0 <= other <= usize::MAX,
        other != source.position(),
        end <= usize::MAX,
    ensures
        recall_candidates(sets, before, other, end) == recall_candidates(sets, after, other, end),
    decreases end,
{
    if end > 0 {
        law_feedback_is_directed(
            sets,
            before,
            source,
            targets,
            helpful,
            after,
            other,
            end - 1,
        );
        let pair = (other as usize, (end - 1) as usize);
        assert(!assessed(source, targets, pair));
        assert(after.contains_key(pair) <==> before.contains_key(pair));
        assert(lookup(before, pair) == lookup(after, pair));
    }
}

/// An episode that shares no cue with the source is no candidate unless its
/// feedback is positive.
pub proof fn law_unshared_cues_need_helpful_feedback(
    sets: Seq<Set<Cue>>,
    traces: Traces,
    source: int,
    target: int,
)
    requires
        sets[source].disjoint(sets[target]),
    ensures
        recall_score(sets, traces, source, target) > 0 <==> learned(
            lookup(traces, (source as usize, target as usize)),
        ) > 0,
{
    assert(sets[source].intersect(sets[target]) =~= Set::empty());
}

/// Without feedback the score of an episode is its structural score.
pub proof fn law_cold_recall_is_structural(
    sets: Seq<Set<Cue>>,
    traces: Traces,
    source: int,
    target: int,
)
    requires
        !traces.contains_key((source as usize, target as usize)),
        sets[source].finite(),
        sets[target].finite(),
    ensures
        recall_score(sets, traces, source, target) == structural(sets[source], sets[target]),
{
    crate::memory::recall::law_structural_score_is_a_symmetric_share(sets[source], sets[target]);
}

proof fn lemma_field<E: Episode>(memory: Memory<E>, source: AtomId)
    requires
        memory.atoms().len() <= usize::MAX,
    ensures
        distinct_sequences(memory.recall_field(source)),
        forall|i: int|
            0 <= i < memory.recall_field(source).len() ==> {
                let entry = #[trigger] memory.recall_field(source)[i];
                &&& entry.0 < memory.atoms().len()
                &&& entry.0 != source.position()
                &&& entry.1 == recall_score(
                    cue_sets(memory.atoms()),
                    memory.traces(),
                    source.position() as int,
                    entry.0 as int,
                )
                &&& 0 < entry.1 <= STRUCTURAL_GAIN_PPM + LEARNED_GAIN_PPM
            },
{
    assert(cue_sets(memory.atoms()).len() == memory.atoms().len());
    lemma_candidates_members(
        cue_sets(memory.atoms()),
        memory.traces(),
        source.position() as int,
        memory.atoms().len() as int,
    );
}

/// Recall returns each episode at most once, never its source, only episodes of
/// the memory, only positive activations, and no more than it was asked for.
pub proof fn law_recall_returns_other_positive_episodes<E: Episode>(
    memory: Memory<E>,
    source: AtomId,
    limit: nat,
    hits: Seq<(u64, nat)>,
)
    requires
        memory.atoms().len() <= usize::MAX,
        is_ranking(memory.recall_field(source), limit, hits),
    ensures
        hits.len() <= limit,
        distinct_sequences(hits),
        forall|i: int|
            0 <= i < hits.len() ==> {
                let hit = #[trigger] hits[i];
                &&& hit.0 < memory.atoms().len()
                &&& hit.0 != source.position()
                &&& 0 < hit.1 <= STRUCTURAL_GAIN_PPM + LEARNED_GAIN_PPM
            },
{
    let field = memory.recall_field(source);
    lemma_field(memory, source);
    assert forall|i: int| 0 <= i < hits.len() implies {
        let hit = #[trigger] hits[i];
        &&& hit.0 < memory.atoms().len()
        &&& hit.0 != source.position()
        &&& 0 < hit.1 <= STRUCTURAL_GAIN_PPM + LEARNED_GAIN_PPM
    } by {
        assert(field.contains(hits[i]));
        let k = field.index_of(hits[i]);
        assert(field[k] == hits[i]);
    }
    assert forall|i: int, j: int|
        #![trigger hits[i], hits[j]]
        0 <= i < j < hits.len() implies hits[i].0 != hits[j].0 by {
        let a = field.index_of(hits[i]);
        let b = field.index_of(hits[j]);
        assert(field.contains(hits[i]) && field.contains(hits[j]));
        assert(field[a] == hits[i] && field[b] == hits[j]);
        assert(crate::memory::ranking::ranks_before(hits[i], hits[j]));
        if a < b {
            assert(field[a].0 != field[b].0);
        } else if b < a {
            assert(field[b].0 != field[a].0);
        }
    }
}

/// A recall with a smaller limit gives the first hits of a recall with a larger
/// one, and two recalls with the same limit give the same hits.
pub proof fn law_recall_limit_selects_a_prefix<E: Episode>(
    memory: Memory<E>,
    source: AtomId,
    small: nat,
    large: nat,
    fewer: Seq<(u64, nat)>,
    more: Seq<(u64, nat)>,
)
    requires
        memory.atoms().len() <= usize::MAX,
        small <= large,
        is_ranking(memory.recall_field(source), small, fewer),
        is_ranking(memory.recall_field(source), large, more),
    ensures
        fewer == more.take(fewer.len() as int),
        small == large ==> fewer == more,
{
    lemma_field(memory, source);
    law_ranking_prefix(memory.recall_field(source), small, large, fewer, more);
}

/// Attribute memories into which the same drafts were inserted in the same
/// order, and which hold the same feedback, recall the same.
pub proof fn law_replayed_attribute_memory_recalls_alike(
    first: Memory<attribute::EpisodeAtom>,
    second: Memory<attribute::EpisodeAtom>,
    drafts: Seq<attribute::EpisodeDraft>,
    source: AtomId,
)
    requires
        first.atoms().len() == drafts.len(),
        second.atoms().len() == drafts.len(),
        forall|i: int|
            0 <= i < drafts.len() ==> (#[trigger] first.atoms()[i]).records(&drafts[i]),
        forall|i: int|
            0 <= i < drafts.len() ==> (#[trigger] second.atoms()[i]).records(&drafts[i]),
        first.traces() == second.traces(),
    ensures
        forall|i: int|
            0 <= i < drafts.len() ==> (#[trigger] first.atoms()[i]).content()
                == second.atoms()[i].content(),
        first.recall_field(source) == second.recall_field(source),
{
    assert forall|i: int| 0 <= i < drafts.len() implies (#[trigger] first.atoms()[i]).content()
        == second.atoms()[i].content() by {
        assert(second.atoms()[i].records(&drafts[i]));
    }
    assert(cue_sets(first.atoms()) =~= cue_sets(second.atoms()));
}

/// Statement memories into which the same drafts were inserted in the same
/// order, and which hold the same feedback, recall the same.
pub proof fn law_replayed_statement_memory_recalls_alike(
    first: Memory<statement::EpisodeAtom>,
    second: Memory<statement::EpisodeAtom>,
    drafts: Seq<statement::EpisodeDraft>,
    source: AtomId,
)
    requires
        first.atoms().len() == drafts.len(),
        second.atoms().len() == drafts.len(),
        forall|i: int|
            0 <= i < drafts.len() ==> (#[trigger] first.atoms()[i]).records(&drafts[i]),
        forall|i: int|
            0 <= i < drafts.len() ==> (#[trigger] second.atoms()[i]).records(&drafts[i]),
        first.traces() == second.traces(),
    ensures
        forall|i: int|
            0 <= i < drafts.len() ==> (#[trigger] first.atoms()[i]).content()
                == second.atoms()[i].content(),
        first.recall_field(source) == second.recall_field(source),
{
    assert forall|i: int| 0 <= i < drafts.len() implies (#[trigger] first.atoms()[i]).content()
        == second.atoms()[i].content() by {
        assert(second.atoms()[i].records(&drafts[i]));
        statement::law_canonical_content_is_unique(
            drafts[i].content(),
            first.atoms()[i].content(),
            second.atoms()[i].content(),
        );
    }
    assert(cue_sets(first.atoms()) =~= cue_sets(second.atoms()));
}

/// Timestamps take no part in recall: attribute memories whose episodes bind the
/// same pairs, and which hold the same feedback, recall the same.
pub proof fn law_timestamps_do_not_affect_recall(
    first: Memory<attribute::EpisodeAtom>,
    second: Memory<attribute::EpisodeAtom>,
    source: AtomId,
)
    requires
        first.atoms().len() == second.atoms().len(),
        forall|i: int|
            0 <= i < first.atoms().len() ==> (#[trigger] first.atoms()[i]).content().pairs
                == second.atoms()[i].content().pairs,
        first.traces() == second.traces(),
    ensures
        first.recall_field(source) == second.recall_field(source),
{
    assert(cue_sets(first.atoms()) =~= cue_sets(second.atoms()));
}

/// Times and sources take no part in recall: statement memories whose episodes
/// hold the same statements in the same roles, and which hold the same
/// feedback, recall the same.
pub proof fn law_times_and_sources_do_not_affect_recall(
    first: Memory<statement::EpisodeAtom>,
    second: Memory<statement::EpisodeAtom>,
    source: AtomId,
)
    requires
        first.atoms().len() == second.atoms().len(),
        forall|i: int|
            0 <= i < first.atoms().len() ==> {
                let content = (#[trigger] first.atoms()[i]).content();
                let other = second.atoms()[i].content();
                &&& content.context == other.context
                &&& content.observation == other.observation
                &&& content.action == other.action
                &&& content.outcome == other.outcome
            },
        first.traces() == second.traces(),
    ensures
        first.recall_field(source) == second.recall_field(source),
{
    assert forall|i: int| 0 <= i < first.atoms().len() implies (#[trigger] first.atoms()[i]).cue_set()
        == second.atoms()[i].cue_set() by {
        assert(first.atoms()[i].cue_set() =~= second.atoms()[i].cue_set());
    }
    assert(cue_sets(first.atoms()) =~= cue_sets(second.atoms()));
}

} // verus!
