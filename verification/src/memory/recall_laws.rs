//! What a recall score is made of, and which episodes a recall gives.

use vstd::prelude::*;

use crate::episode::{Cue, Episode};
use crate::memory::posting::cue_sets;
use crate::memory::ranking::{is_ranking, scores, RecallHit};
use crate::memory::recall::{
    law_learned_score_is_bounded, law_structural_score_is_a_symmetric_share,
    learned, lemma_candidates_members, recall_score, structural,
};
use crate::memory::{feedback_applied, Memory, Traces};
use crate::model::{
    count_helpful, law_trace_history_is_bounded, AtomId, FeedbackTrace,
};

verus! {

/// The structural score is the Jaccard share of the structural gain, rounded
/// down: the common cues over the cues of either set.
pub proof fn law_structural_score_is_the_jaccard_share(first: Set<Cue>, second: Set<Cue>)
    requires
        first.finite(),
        second.finite(),
        first.union(second).len() > 0,
    ensures
        ({
            let score = structural(first, second);
            let common = first.intersect(second).len();
            let all = first.union(second).len();
            score * all <= common * 400_000 < (score + 1) * all
        }),
{
    let common = first.intersect(second).len();
    let all = first.union(second).len();
    let score = structural(first, second);
    vstd::set_lib::lemma_set_intersect_union_lens(first, second);
    if common == 0 {
        assert(score == 0);
        assert(0 * all == 0 && 1 * all == all) by (nonlinear_arith);
    } else {
        assert(score == common * 400_000 / all);
        assert(score * all <= common * 400_000 < (score + 1) * all) by (nonlinear_arith)
            requires
                all > 0,
                score == common * 400_000 / all,
        ;
    }
}

/// Of two targets that hold as many cues together with their sources, the one
/// with more common cues never scores less.
pub proof fn law_more_common_cues_never_score_less(
    first: Set<Cue>,
    second: Set<Cue>,
    third: Set<Cue>,
    fourth: Set<Cue>,
)
    requires
        first.finite(),
        second.finite(),
        third.finite(),
        fourth.finite(),
        first.union(second).len() == third.union(fourth).len() > 0,
        first.intersect(second).len() <= third.intersect(fourth).len(),
    ensures
        structural(first, second) <= structural(third, fourth),
{
    law_structural_score_is_the_jaccard_share(first, second);
    law_structural_score_is_the_jaccard_share(third, fourth);
    let all = first.union(second).len();
    let less = structural(first, second);
    let more = structural(third, fourth);
    assert(less * all < (more + 1) * all);
    assert(less < more + 1) by (nonlinear_arith)
        requires
            less * all < (more + 1) * all,
            all > 0,
    ;
}

/// The number of helpful samples.
pub open spec fn helpful_samples(samples: Seq<bool>) -> nat {
    samples.filter(|sample: bool| sample).len()
}

proof fn lemma_helpful_are_filtered(samples: Seq<bool>)
    ensures
        count_helpful(samples) == helpful_samples(samples),
    decreases samples.len(),
{
    reveal(Seq::filter);
    if samples.len() > 0 {
        lemma_helpful_are_filtered(samples.drop_last());
    }
}

/// The learned score of a history of `n` samples, `h` of them helpful, is the
/// share `(2h - n) / (n + 7)` of the learned gain, scaled so that a full helpful
/// history earns all of it, and rounded toward zero. No history earns nothing.
pub proof fn law_learned_score_is_the_rounded_balance(trace: FeedbackTrace)
    requires
        trace.canonical(),
    ensures
        learned(None) == 0,
        ({
            let score = learned(Some(trace));
            let count = trace.samples().len() as int;
            let helpful = helpful_samples(trace.samples()) as int;
            let mass = 16 * (count + 7);
            let balance = 400_000 * 23 * (2 * helpful - count);
            &&& balance >= 0 ==> score >= 0 && score * mass <= balance < (score + 1) * mass
            &&& balance <= 0 ==> score <= 0 && (score - 1) * mass < balance <= score * mass
        }),
{
    let score = learned(Some(trace));
    let count = trace.samples().len() as int;
    lemma_helpful_are_filtered(trace.samples());
    law_trace_history_is_bounded(trace);
    let helpful = count_helpful(trace.samples()) as int;
    let mass = 16 * (count + 7);
    let balance = 400_000 * 23 * (2 * helpful - count);
    assert(mass > 0);
    if 2 * helpful - count >= 0 {
        assert(score == balance / mass);
        assert(score * mass <= balance < (score + 1) * mass && score >= 0) by (nonlinear_arith)
            requires
                mass > 0,
                balance >= 0,
                score == balance / mass,
        ;
        if balance == 0 {
            assert((score - 1) * mass < balance <= score * mass && score <= 0) by (nonlinear_arith)
                requires
                    mass > 0,
                    balance == 0,
                    score == balance / mass,
            ;
        }
    } else {
        let opposite = 9_200_000 * -(2 * helpful - count);
        assert(balance == -opposite);
        assert(score == -(opposite / mass));
        assert((score - 1) * mass < balance <= score * mass && score <= 0) by (nonlinear_arith)
            requires
                mass > 0,
                opposite > 0,
                balance == -opposite,
                score == -(opposite / mass),
        ;
    }
}

/// Of two histories of the same length, the one with more helpful samples has
/// the higher learned score.
pub proof fn law_helpful_samples_raise_the_learned_score(
    first: FeedbackTrace,
    second: FeedbackTrace,
)
    requires
        first.canonical(),
        second.canonical(),
        first.samples().len() == second.samples().len(),
        helpful_samples(first.samples()) < helpful_samples(second.samples()),
    ensures
        learned(Some(first)) < learned(Some(second)),
{
    law_learned_score_is_the_rounded_balance(first);
    law_learned_score_is_the_rounded_balance(second);
    law_trace_history_is_bounded(first);
    let count = first.samples().len() as int;
    let mass = 16 * (count + 7);
    let less = learned(Some(first));
    let more = learned(Some(second));
    let fewer = helpful_samples(first.samples()) as int;
    let others = helpful_samples(second.samples()) as int;
    let low = 400_000 * 23 * (2 * fewer - count);
    let high = 400_000 * 23 * (2 * others - count);
    assert(high >= low + 18_400_000) by (nonlinear_arith)
        requires
            fewer < others,
            low == 400_000 * 23 * (2 * fewer - count),
            high == 400_000 * 23 * (2 * others - count),
    ;
    assert(0 < mass <= 368);
    assert(less < more) by (nonlinear_arith)
        requires
            0 < mass <= 368,
            high >= low + 18_400_000,
            (low >= 0 ==> less >= 0 && less * mass <= low < (less + 1) * mass),
            (low <= 0 ==> less <= 0 && (less - 1) * mass < low <= less * mass),
            (high >= 0 ==> more >= 0 && more * mass <= high < (more + 1) * mass),
            (high <= 0 ==> more <= 0 && (more - 1) * mass < high <= more * mass),
    ;
}

/// The learned score that leads from one position to another: that of the
/// stored history, and nothing without one.
pub open spec fn direct_feedback(traces: Traces, source: int, target: int) -> int {
    if traces.contains_key((source as usize, target as usize)) {
        learned(Some(traces[(source as usize, target as usize)]))
    } else {
        0
    }
}

/// A recall score is the sum of the structural and the learned score where the
/// sum is positive, and zero elsewhere.
pub proof fn law_recall_score_is_the_positive_sum(
    sets: Seq<Set<Cue>>,
    traces: Traces,
    source: int,
    target: int,
)
    requires
        sets[source].finite(),
        sets[target].finite(),
        traces.contains_key((source as usize, target as usize)) ==> traces[(
            source as usize,
            target as usize,
        )].canonical(),
    ensures
        ({
            let sum = structural(sets[source], sets[target]) + direct_feedback(
                traces,
                source,
                target,
            );
            &&& sum >= 0 ==> recall_score(sets, traces, source, target) == sum
            &&& sum <= 0 ==> recall_score(sets, traces, source, target) == 0
        }),
{
    law_structural_score_is_a_symmetric_share(sets[source], sets[target]);
    if traces.contains_key((source as usize, target as usize)) {
        let trace = traces[(source as usize, target as usize)];
        law_trace_history_is_bounded(trace);
        law_learned_score_is_bounded(trace.samples().len(), count_helpful(trace.samples()));
    }
}

/// A hit of one score and position comes before another one.
pub open spec fn better(score: int, position: int, other_score: int, other_position: int) -> bool {
    score > other_score || (score == other_score && position < other_position)
}

/// The sum of the structural and the learned score between two episodes of a memory.
pub open spec fn contributions<E: Episode>(memory: Memory<E>, source: int, target: int) -> int {
    structural(memory.atoms()[source].cue_set(), memory.atoms()[target].cue_set())
        + direct_feedback(memory.traces(), source, target)
}

/// A recall gives the other episodes whose contributions are positive together,
/// each once and with that sum, in descending order of the sums and ascending
/// order of equal ones; it leaves out only what the limit leaves no room for.
pub proof fn law_recall_gives_the_best_positive_sums<E: Episode>(
    memory: Memory<E>,
    source: AtomId,
    limit: nat,
    hits: Seq<RecallHit>,
)
    requires
        memory.wf(),
        memory.atoms().len() <= usize::MAX,
        source.position() < memory.atoms().len(),
        is_ranking(memory.recall_field(source), limit, scores(hits)),
    ensures
        hits.len() <= limit,
        forall|i: int|
            0 <= i < hits.len() ==> {
                let hit = #[trigger] hits[i];
                let target = hit.atom_id.position() as int;
                &&& target < memory.atoms().len()
                &&& target != source.position()
                &&& hit.activation@ == contributions(memory, source.position() as int, target)
                &&& hit.activation@ > 0
            },
        forall|i: int, j: int|
            #![trigger hits[i], hits[j]]
            0 <= i < j < hits.len() ==> better(
                hits[i].activation@ as int,
                hits[i].atom_id.position() as int,
                hits[j].activation@ as int,
                hits[j].atom_id.position() as int,
            ),
        forall|target: int|
            #![trigger contributions(memory, source.position() as int, target)]
            0 <= target < memory.atoms().len() && target != source.position() && contributions(
                memory,
                source.position() as int,
                target,
            ) > 0 ==> {
                ||| exists|i: int|
                    0 <= i < hits.len() && (#[trigger] hits[i]).atom_id.position() == target
                ||| hits.len() == limit && forall|i: int|
                    0 <= i < hits.len() ==> better(
                        (#[trigger] hits[i]).activation@ as int,
                        hits[i].atom_id.position() as int,
                        contributions(memory, source.position() as int, target),
                        target,
                    )
            },
{
    let sets = cue_sets(memory.atoms());
    let traces = memory.traces();
    let start = source.position() as int;
    let field = memory.recall_field(source);
    let ranked = scores(hits);
    lemma_candidates_members(sets, traces, start, memory.atoms().len() as int);
    memory.lemma_traces_join_episodes();
    assert forall|target: int|
        #![trigger contributions(memory, start, target)]
        0 <= target < memory.atoms().len() implies {
        let sum = contributions(memory, start, target);
        &&& sum >= 0 ==> recall_score(sets, traces, start, target) == sum
        &&& sum <= 0 ==> recall_score(sets, traces, start, target) == 0
    } by {
        memory.lemma_cues_are_finite(start);
        memory.lemma_cues_are_finite(target);
        law_recall_score_is_the_positive_sum(sets, traces, start, target);
    }
    assert forall|i: int| 0 <= i < hits.len() implies {
        let hit = #[trigger] hits[i];
        let target = hit.atom_id.position() as int;
        &&& target < memory.atoms().len()
        &&& target != source.position()
        &&& hit.activation@ == contributions(memory, start, target)
        &&& hit.activation@ > 0
    } by {
        assert(ranked[i] == hits[i]@);
        assert(field.contains(ranked[i]));
        let k = field.index_of(ranked[i]);
        assert(field[k] == ranked[i]);
        let sum = contributions(memory, start, ranked[i].0 as int);
    }
    assert forall|i: int, j: int|
        #![trigger hits[i], hits[j]]
        0 <= i < j < hits.len() implies better(
        hits[i].activation@ as int,
        hits[i].atom_id.position() as int,
        hits[j].activation@ as int,
        hits[j].atom_id.position() as int,
    ) by {
        assert(ranked[i] == hits[i]@ && ranked[j] == hits[j]@);
    }
    assert forall|target: int|
        #![trigger contributions(memory, start, target)]
        0 <= target < memory.atoms().len() && target != start && contributions(
            memory,
            start,
            target,
        ) > 0 implies {
        ||| exists|i: int| 0 <= i < hits.len() && (#[trigger] hits[i]).atom_id.position() == target
        ||| hits.len() == limit && forall|i: int|
            0 <= i < hits.len() ==> better(
                (#[trigger] hits[i]).activation@ as int,
                hits[i].atom_id.position() as int,
                contributions(memory, start, target),
                target,
            )
    } by {
        let entry = (target as u64, recall_score(sets, traces, start, target));
        assert(field.contains(entry));
        let k = field.index_of(entry);
        assert(field[k] == entry);
        if ranked.contains(entry) {
            let i = ranked.index_of(entry);
            assert(hits[i]@ == entry);
        } else {
            if hits.len() != limit {
                lemma_whole_field(field, ranked);
                assert(false);
            }
            assert forall|i: int| 0 <= i < hits.len() implies better(
                (#[trigger] hits[i]).activation@ as int,
                hits[i].atom_id.position() as int,
                contributions(memory, start, target),
                target,
            ) by {
                assert(ranked[i] == hits[i]@);
            }
        }
    }
}

/// A ranking with room to spare holds every candidate.
pub proof fn lemma_whole_field(field: Seq<(u64, nat)>, ranked: Seq<(u64, nat)>)
    requires
        ranked.len() == field.len(),
        forall|i: int, j: int|
            #![trigger ranked[i], ranked[j]]
            0 <= i < j < ranked.len() ==> ranked[i] != ranked[j],
        forall|i: int, j: int|
            #![trigger field[i], field[j]]
            0 <= i < j < field.len() ==> field[i] != field[j],
        forall|i: int| 0 <= i < ranked.len() ==> field.contains(#[trigger] ranked[i]),
    ensures
        forall|k: int| 0 <= k < field.len() ==> ranked.contains(#[trigger] field[k]),
{
    assert(ranked.no_duplicates());
    assert(field.no_duplicates());
    ranked.unique_seq_to_set();
    field.unique_seq_to_set();
    assert(ranked.to_set().subset_of(field.to_set())) by {
        assert forall|entry: (u64, nat)| ranked.to_set().contains(entry) implies field.to_set().contains(
            entry,
        ) by {
            let i = ranked.index_of(entry);
            assert(field.contains(ranked[i]));
        }
    }
    vstd::set_lib::lemma_subset_equality(ranked.to_set(), field.to_set());
    assert forall|k: int| 0 <= k < field.len() implies ranked.contains(#[trigger] field[k]) by {
        assert(field.to_set().contains(field[k]));
    }
}

/// An assessment reaches every listed target but the source: its history gains
/// the sample at its end, and loses its first one if it held sixteen. Every
/// other history stays as it was.
pub proof fn law_feedback_adds_the_sample_to_each_target(
    before: Traces,
    source: AtomId,
    targets: Seq<AtomId>,
    helpful: bool,
    after: Traces,
)
    requires
        feedback_applied(before, source, targets, helpful, after),
        forall|pair: (usize, usize)| #[trigger]
            before.contains_key(pair) ==> before[pair].canonical(),
    ensures
        forall|i: int|
            0 <= i < targets.len() && (#[trigger] targets[i]).position() != source.position()
                && source.position() <= usize::MAX && targets[i].position() <= usize::MAX ==> {
                let pair = (source.position() as usize, targets[i].position() as usize);
                &&& after.contains_key(pair)
                &&& after[pair].canonical()
                &&& after[pair].samples() == if !before.contains_key(pair) {
                    seq![helpful]
                } else if before[pair].samples().len() < 16 {
                    before[pair].samples().push(helpful)
                } else {
                    before[pair].samples().drop_first().push(helpful)
                }
            },
        forall|pair: (usize, usize)|
            #![trigger after.contains_key(pair)]
            pair.0 != source.position() || pair.1 == source.position() || (forall|i: int|
                0 <= i < targets.len() ==> (#[trigger] targets[i]).position() != pair.1) ==> {
                &&& after.contains_key(pair) <==> before.contains_key(pair)
                &&& before.contains_key(pair) ==> after[pair] == before[pair]
            },
{
    assert forall|i: int|
        0 <= i < targets.len() && (#[trigger] targets[i]).position() != source.position()
            && source.position() <= usize::MAX && targets[i].position() <= usize::MAX implies {
        let pair = (source.position() as usize, targets[i].position() as usize);
        &&& after.contains_key(pair)
        &&& after[pair].canonical()
        &&& after[pair].samples() == if !before.contains_key(pair) {
            seq![helpful]
        } else if before[pair].samples().len() < 16 {
            before[pair].samples().push(helpful)
        } else {
            before[pair].samples().drop_first().push(helpful)
        }
    } by {
        let pair = (source.position() as usize, targets[i].position() as usize);
        assert(crate::memory::positioned(targets, pair.1 as u64));
        assert(crate::memory::assessed(source, targets, pair));
        assert(after.contains_key(pair));
        if before.contains_key(pair) {
            law_trace_history_is_bounded(before[pair]);
            let samples = before[pair].samples();
            if samples.len() == 16 {
                assert(crate::model::recent(samples.push(helpful)) =~= samples.drop_first().push(
                    helpful,
                ));
            }
        } else {
            assert(Seq::<bool>::empty().push(helpful) =~= seq![helpful]);
        }
    }
    assert forall|pair: (usize, usize)|
        #![trigger after.contains_key(pair)]
        pair.0 != source.position() || pair.1 == source.position() || (forall|i: int|
            0 <= i < targets.len() ==> (#[trigger] targets[i]).position() != pair.1) implies {
        &&& after.contains_key(pair) <==> before.contains_key(pair)
        &&& before.contains_key(pair) ==> after[pair] == before[pair]
    } by {
        assert(!crate::memory::assessed(source, targets, pair));
    }
}

} // verus!
