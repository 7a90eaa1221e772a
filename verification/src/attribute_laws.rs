//! What an attribute episode binds, and which cues it gives.

use vstd::prelude::*;

use crate::attribute::{
    binds, bound_pairs, canonical_groups, groups, pair_cues, pair_gives, Attribute, EpisodeAtom,
    EpisodeDraft,
};
use crate::episode::{Cue, Episode};
use crate::model::{recent, samples_of, FeedbackTrace};

verus! {

/// Attributes bind a key to a value exactly if one of them has the key and lists
/// the value.
pub proof fn law_attributes_bind_their_values(attributes: Seq<Attribute>, key: u64, value: u64)
    ensures
        bound_pairs(groups(attributes)).contains((key, value)) <==> exists|i: int, j: int|
            0 <= i < attributes.len() && 0 <= j < attributes[i]@.1.len() && attributes[i]@.0 == key
                && (#[trigger] attributes[i]@.1[j]) == value,
{
    let all = groups(attributes);
    if bound_pairs(all).contains((key, value)) {
        let i = choose|i: int|
            0 <= i < all.len() && (#[trigger] all[i]).0 == key && all[i].1.contains(value);
        let j = all[i].1.index_of(value);
        assert(all[i] == attributes[i]@);
        assert(attributes[i]@.1[j] == value);
    }
    if exists|i: int, j: int|
        0 <= i < attributes.len() && 0 <= j < attributes[i]@.1.len() && attributes[i]@.0 == key && (
        #[trigger] attributes[i]@.1[j]) == value {
        let (i, j) = choose|i: int, j: int|
            0 <= i < attributes.len() && 0 <= j < attributes[i]@.1.len() && attributes[i]@.0 == key
                && (#[trigger] attributes[i]@.1[j]) == value;
        assert(all[i] == attributes[i]@);
        assert(all[i].1.contains(value));
        assert(binds(all, (key, value)));
    }
}

/// Groups bind a key to a value exactly if one of them has the key and lists the value.
pub proof fn law_groups_bind_their_values(all: Seq<(u64, Seq<u64>)>, key: u64, value: u64)
    ensures
        bound_pairs(all).contains((key, value)) <==> exists|i: int, j: int|
            0 <= i < all.len() && 0 <= j < all[i].1.len() && all[i].0 == key && (
            #[trigger] all[i].1[j]) == value,
{
    if bound_pairs(all).contains((key, value)) {
        let i = choose|i: int|
            0 <= i < all.len() && (#[trigger] all[i]).0 == key && all[i].1.contains(value);
        let j = all[i].1.index_of(value);
        assert(all[i].1[j] == value);
    }
    if exists|i: int, j: int|
        0 <= i < all.len() && 0 <= j < all[i].1.len() && all[i].0 == key && (
        #[trigger] all[i].1[j]) == value {
        let (i, j) = choose|i: int, j: int|
            0 <= i < all.len() && 0 <= j < all[i].1.len() && all[i].0 == key && (
            #[trigger] all[i].1[j]) == value;
        assert(all[i].1.contains(value));
        assert(binds(all, (key, value)));
    }
}

/// Canonical groups have ascending keys, none of them twice, and ascending
/// values, none of them twice under a key and at least one.
pub proof fn law_canonical_groups_ascend(all: Seq<(u64, Seq<u64>)>)
    ensures
        canonical_groups(all) <==> {
            &&& forall|i: int, j: int|
                #![trigger all[i], all[j]]
                0 <= i < j < all.len() ==> all[i].0 < all[j].0
            &&& forall|i: int| 0 <= i < all.len() ==> (#[trigger] all[i]).1.len() > 0
            &&& forall|i: int, a: int, b: int|
                #![trigger all[i].1[a], all[i].1[b]]
                0 <= i < all.len() && 0 <= a < b < all[i].1.len() ==> all[i].1[a] < all[i].1[b]
        },
{
    if canonical_groups(all) {
        assert forall|i: int, a: int, b: int|
            #![trigger all[i].1[a], all[i].1[b]]
            0 <= i < all.len() && 0 <= a < b < all[i].1.len() implies all[i].1[a] < all[i].1[b] by {
            assert(crate::attribute::canonical_group(all[i]));
        }
    }
}

/// An episode gives a cue for each key, for each value and for each bound pair
/// of both, and no other cue.
pub proof fn law_cues_are_keys_values_and_pairs(pairs: Set<(u64, u64)>)
    ensures
        forall|key: u64| #[trigger]
            pair_cues(pairs).contains((0, key, 0, 0, 0)) <==> exists|value: u64|
                pairs.contains((key, value)),
        forall|value: u64| #[trigger]
            pair_cues(pairs).contains((1, value, 0, 0, 0)) <==> exists|key: u64|
                pairs.contains((key, value)),
        forall|key: u64, value: u64| #[trigger]
            pair_cues(pairs).contains((2, key, value, 0, 0)) <==> pairs.contains((key, value)),
        forall|cue: Cue| #[trigger]
            pair_cues(pairs).contains(cue) ==> cue.3 == 0 && cue.4 == 0 && (cue.0 == 2 || (cue.2
                == 0 && (cue.0 == 0 || cue.0 == 1))),
{
    assert forall|key: u64| #[trigger]
        pair_cues(pairs).contains((0, key, 0, 0, 0)) <==> exists|value: u64|
            pairs.contains((key, value)) by {
        let cue = (0u64, key, 0u64, 0u64, 0u64);
        if pair_cues(pairs).contains(cue) {
            let pair = choose|pair: (u64, u64)| #[trigger]
                pairs.contains(pair) && pair_gives(pair, cue);
            assert(pairs.contains((key, pair.1)));
        }
        if exists|value: u64| pairs.contains((key, value)) {
            let value = choose|value: u64| pairs.contains((key, value));
            assert(pairs.contains((key, value)) && pair_gives((key, value), cue));
        }
    }
    assert forall|value: u64| #[trigger]
        pair_cues(pairs).contains((1, value, 0, 0, 0)) <==> exists|key: u64|
            pairs.contains((key, value)) by {
        let cue = (1u64, value, 0u64, 0u64, 0u64);
        if pair_cues(pairs).contains(cue) {
            let pair = choose|pair: (u64, u64)| #[trigger]
                pairs.contains(pair) && pair_gives(pair, cue);
            assert(pairs.contains((pair.0, value)));
        }
        if exists|key: u64| pairs.contains((key, value)) {
            let key = choose|key: u64| pairs.contains((key, value));
            assert(pairs.contains((key, value)) && pair_gives((key, value), cue));
        }
    }
    assert forall|key: u64, value: u64| #[trigger]
        pair_cues(pairs).contains((2, key, value, 0, 0)) <==> pairs.contains((key, value)) by {
        let cue = (2u64, key, value, 0u64, 0u64);
        if pair_cues(pairs).contains(cue) {
            let pair = choose|pair: (u64, u64)| #[trigger]
                pairs.contains(pair) && pair_gives(pair, cue);
            assert(pair == (key, value));
        }
        if pairs.contains((key, value)) {
            assert(pair_gives((key, value), cue));
        }
    }
}

/// Episodes share all of their cues exactly if they bind the same pairs.
pub proof fn law_cues_tell_episodes_apart(first: EpisodeAtom, second: EpisodeAtom)
    ensures
        first.cue_set() == second.cue_set() <==> first.content().pairs == second.content().pairs,
{
    let a = first.content().pairs;
    let b = second.content().pairs;
    law_cues_are_keys_values_and_pairs(a);
    law_cues_are_keys_values_and_pairs(b);
    if first.cue_set() == second.cue_set() {
        assert forall|pair: (u64, u64)| a.contains(pair) <==> b.contains(pair) by {
            assert(pair_cues(a).contains((2, pair.0, pair.1, 0, 0)) <==> a.contains(
                (pair.0, pair.1),
            ));
            assert(pair_cues(b).contains((2, pair.0, pair.1, 0, 0)) <==> b.contains(
                (pair.0, pair.1),
            ));
        }
        assert(a =~= b);
    }
}

/// An episode keeps the timestamp and the bound pairs of its draft.
pub proof fn law_episodes_keep_their_drafts(atom: EpisodeAtom, draft: EpisodeDraft)
    requires
        atom.records(&draft),
    ensures
        atom.content().timestamp == draft.content().timestamp,
        atom.content().pairs == draft.content().pairs,
        atom.groups() == draft.groups(),
{
}

/// The newest sample of a history is its lowest bit, and the bits above it are
/// the history without it.
pub proof fn law_bits_are_samples(bits: nat, count: nat)
    ensures
        samples_of(bits, 0) == Seq::<bool>::empty(),
        samples_of(bits, count + 1) == samples_of(bits / 2, count) + seq![bits % 2 == 1],
{
    assert(samples_of(bits / 2, count).push(bits % 2 == 1) =~= samples_of(bits / 2, count)
        + seq![bits % 2 == 1]);
}

/// The samples of a trace are those of its bits, as many as it counts.
pub proof fn law_traces_hold_their_bits(trace: FeedbackTrace)
    ensures
        trace.samples() == samples_of(trace.bits() as nat, trace.count() as nat),
{
}

/// A history keeps its newest samples in order, all of them up to sixteen.
pub proof fn law_histories_keep_the_newest(samples: Seq<bool>, place: int)
    requires
        0 <= place < samples.len(),
        samples.len() - place <= 16,
    ensures
        recent(samples).len() == if samples.len() <= 16 {
            samples.len()
        } else {
            16
        },
        recent(samples)[recent(samples).len() - (samples.len() - place)] == samples[place],
{
}

} // verus!
