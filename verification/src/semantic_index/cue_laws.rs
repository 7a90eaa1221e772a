//! Which cues and postings an index holds, and which rows it accepts.

use vstd::prelude::*;

use crate::attribute::EpisodeAtom;
use crate::bytes::be_value;
use crate::episode::Episode;
use crate::order::increasing;
use crate::semantic_index::cues::{
    cue_in, cues_in, lemma_place, lists_pair, CueRow, Pair,
};
use crate::semantic_index::format::{
    holds_vector, metadata_in, version_error, IndexMetadataRow,
};
use crate::semantic_index::index::{
    batch_end, batch_texts, embeds, has_texts, holds_answers, index_in, row_vectors, texts_of,
    uses_symbol, CueValues, IndexRows, SemanticCueIndex, SyncObservation,
};
use crate::semantic_index::model::{fits, CueEmbedder, EmbeddingProfile};
use crate::semantic_index::postings::{
    add_episodes, add_pairs, ascending_of, cue_ids, episode_postings, group_pairs, pairs_of,
    posting_in, postings_of, validated_postings, NewCue, PostingRow,
};
use crate::semantic_index::synchronize::{extends_index, some_cue_uses, SyncStart};
use crate::sqlite::format::{object_contents, ObjectContent};
use crate::sqlite::row::Value;
use crate::sqlite::vectors::components;

verus! {

/// The pairs of an episode are each key with each of its values, group by group.
pub proof fn law_pairs_are_keys_with_values(all: Seq<(u64, Seq<u64>)>)
    ensures
        pairs_of(all) == all.map_values(
            |group: (u64, Seq<u64>)| group.1.map_values(|value: u64| (group.0, value)),
        ).flatten(),
    decreases all.len(),
{
    let line = |group: (u64, Seq<u64>)| group.1.map_values(|value: u64| (group.0, value));
    let lists = all.map_values(line);
    lists.lemma_flatten_and_flatten_alt_are_equivalent();
    if all.len() > 0 {
        let rest = all.drop_last();
        law_pairs_are_keys_with_values(rest);
        assert(rest.map_values(line) =~= lists.drop_last());
        rest.map_values(line).lemma_flatten_and_flatten_alt_are_equivalent();
        assert(lists.last() =~= group_pairs(all.last()));
    }
}

/// A pair belongs to an episode exactly if one of its groups binds it.
pub proof fn law_pairs_are_bound(all: Seq<(u64, Seq<u64>)>, pair: Pair)
    ensures
        pairs_of(all).contains(pair) <==> binds(all, pair),
    decreases all.len(),
{
    if all.len() > 0 {
        let rest = all.drop_last();
        let last = all.last();
        let line = group_pairs(last);
        law_pairs_are_bound(rest, pair);
        assert(all[all.len() - 1] == last);
        let pairs = pairs_of(all);
        assert(pairs == pairs_of(rest) + line);
        if pairs.contains(pair) {
            let k = pairs.index_of(pair);
            if k < pairs_of(rest).len() {
                assert(pairs_of(rest)[k] == pair);
                let i = choose|i: int|
                    0 <= i < rest.len() && (#[trigger] rest[i]).0 == pair.0 && rest[i].1.contains(
                        pair.1,
                    );
                assert(all[i] == rest[i]);
            } else {
                let j = k - pairs_of(rest).len();
                assert(line[j] == pair);
                assert(last.1[j] == pair.1);
            }
        }
        if binds(all, pair) {
            let i = choose|i: int|
                0 <= i < all.len() && (#[trigger] all[i]).0 == pair.0 && all[i].1.contains(pair.1);
            if i < rest.len() {
                assert(rest[i] == all[i]);
                let k = pairs_of(rest).index_of(pair);
                assert(pairs[k] == pair);
            } else {
                let j = last.1.index_of(pair.1);
                assert(line[j] == pair);
                assert(pairs[pairs_of(rest).len() + j] == pair);
            }
        }
    }
}

/// One of the groups binds the value to the key.
pub open spec fn binds(all: Seq<(u64, Seq<u64>)>, pair: Pair) -> bool {
    exists|i: int|
        0 <= i < all.len() && (#[trigger] all[i]).0 == pair.0 && all[i].1.contains(pair.1)
}

/// Later pairs are appended behind the known ones: every pair is listed, each
/// once and nothing else, and new ones in the order in which they first occur.
pub proof fn law_new_pairs_are_appended_once(known: Seq<Pair>, pairs: Seq<Pair>)
    requires
        known.no_duplicates(),
    ensures
        ({
            let all = add_pairs(known, pairs);
            &&& all.no_duplicates()
            &&& known.is_prefix_of(all)
            &&& forall|pair: Pair| #[trigger]
                all.contains(pair) <==> known.contains(pair) || pairs.contains(pair)
            &&& forall|i: int, j: int, later: int|
                #![trigger all[i], all[j], pairs[later]]
                known.len() <= i < j < all.len() && 0 <= later < pairs.len() && pairs[later]
                    == all[j] ==> occurs_before(pairs, all[i], later)
        }),
    decreases pairs.len(),
{
    let all = add_pairs(known, pairs);
    if pairs.len() == 0 {
        assert(known.subrange(0, known.len() as int) =~= known);
    } else {
        let rest = pairs.drop_last();
        let last = pairs.last();
        let before = add_pairs(known, rest);
        law_new_pairs_are_appended_once(known, rest);
        assert(pairs[pairs.len() - 1] == last);
        assert(lists_pair(before, last) <==> before.contains(last));
        assert forall|pair: Pair| #[trigger] pairs.contains(pair) <==> rest.contains(pair) || pair
            == last by {
            if pairs.contains(pair) && pair != last {
                assert(rest[pairs.index_of(pair)] == pair);
            }
            if rest.contains(pair) {
                assert(pairs[rest.index_of(pair)] == pair);
            }
        }
        assert forall|pair: Pair| #[trigger] all.contains(pair) <==> known.contains(pair)
            || pairs.contains(pair) by {
            assert(before.contains(pair) <==> known.contains(pair) || rest.contains(pair));
            if !lists_pair(before, last) {
                if all.contains(pair) && pair != last {
                    assert(before[all.index_of(pair)] == pair);
                }
                if before.contains(pair) {
                    assert(all[before.index_of(pair)] == pair);
                }
                assert(all[before.len() as int] == last);
            }
        }
        assert(all.no_duplicates()) by {
            assert forall|i: int, j: int|
                0 <= i < all.len() && 0 <= j < all.len() && i != j implies all[i] != all[j] by {
                if i == before.len() {
                    assert(before[j] == all[j]);
                } else if j == before.len() {
                    assert(before[i] == all[i]);
                } else {
                    assert(before[i] != before[j]);
                }
            }
        }
        assert(known.is_prefix_of(all)) by {
            assert forall|i: int| 0 <= i < known.len() implies known[i] == all[i] by {
                assert(known[i] == before[i]);
            }
        }
        assert forall|i: int, j: int, later: int|
            #![trigger all[i], all[j], pairs[later]]
            known.len() <= i < j < all.len() && 0 <= later < pairs.len() && pairs[later]
                == all[j] implies occurs_before(pairs, all[i], later) by {
            assert(all[i] == before[i]);
            if j < before.len() {
                assert(all[j] == before[j]);
                if later < rest.len() {
                    assert(rest[later] == before[j]);
                    assert(occurs_before(rest, before[i], later));
                    let earlier = choose|earlier: int|
                        0 <= earlier < later && #[trigger] rest[earlier] == before[i];
                    assert(pairs[earlier] == all[i]);
                } else {
                    lemma_new_occurs(known, rest, i);
                    let earlier = choose|earlier: int|
                        0 <= earlier < rest.len() && #[trigger] rest[earlier] == before[i];
                    assert(pairs[earlier] == all[i]);
                }
            } else {
                if later < rest.len() {
                    assert(rest[later] == last);
                    assert(rest.contains(last));
                    assert(before.contains(last));
                }
                lemma_new_occurs(known, rest, i);
                let earlier = choose|earlier: int|
                    0 <= earlier < rest.len() && #[trigger] rest[earlier] == before[i];
                assert(pairs[earlier] == all[i]);
            }
        }
    }
}

/// The pair stands somewhere before the place.
pub open spec fn occurs_before(pairs: Seq<Pair>, pair: Pair, place: int) -> bool {
    exists|i: int| 0 <= i < place && #[trigger] pairs[i] == pair
}

proof fn lemma_new_occurs(known: Seq<Pair>, pairs: Seq<Pair>, place: int)
    requires
        known.no_duplicates(),
        known.len() <= place < add_pairs(known, pairs).len(),
    ensures
        exists|i: int| 0 <= i < pairs.len() && #[trigger] pairs[i] == add_pairs(known, pairs)[place],
    decreases pairs.len(),
{
    if pairs.len() > 0 {
        let rest = pairs.drop_last();
        let before = add_pairs(known, rest);
        if place < before.len() {
            lemma_new_occurs(known, rest, place);
            let i = choose|i: int| 0 <= i < rest.len() && #[trigger] rest[i] == before[place];
            assert(pairs[i] == before[place]);
        } else {
            assert(pairs[pairs.len() - 1] == pairs.last());
        }
    }
}

/// The cues of episodes are their pairs, episode by episode, behind the known ones.
pub proof fn law_episodes_are_added_one_by_one(
    known: Seq<Pair>,
    atoms: Seq<EpisodeAtom>,
    atom: EpisodeAtom,
    pair: Pair,
)
    requires
        known.no_duplicates(),
    ensures
        add_episodes(known, Seq::empty()) == known,
        add_episodes(known, atoms.push(atom)) == add_pairs(
            add_episodes(known, atoms),
            pairs_of(atom.groups()),
        ),
        add_episodes(known, atoms).no_duplicates(),
        known.is_prefix_of(add_episodes(known, atoms)),
        add_episodes(known, atoms).contains(pair) <==> known.contains(pair) || some_binds(
            atoms,
            pair,
        ),
    decreases atoms.len(),
{
    assert(atoms.push(atom).drop_last() =~= atoms);
    if atoms.len() > 0 {
        let rest = atoms.drop_last();
        law_episodes_are_added_one_by_one(known, rest, atom, pair);
        let before = add_episodes(known, rest);
        let pairs = pairs_of(atoms.last().groups());
        law_new_pairs_are_appended_once(before, pairs);
        law_pairs_are_bound(atoms.last().groups(), pair);
        assert(atoms[atoms.len() - 1] == atoms.last());
        let all = add_episodes(known, atoms);
        assert(all.contains(pair) <==> before.contains(pair) || pairs.contains(pair));
        if some_binds(rest, pair) {
            let i = choose|i: int| 0 <= i < rest.len() && binds((#[trigger] rest[i]).groups(), pair);
            assert(atoms[i] == rest[i]);
        }
        if some_binds(atoms, pair) {
            let i = choose|i: int|
                0 <= i < atoms.len() && binds((#[trigger] atoms[i]).groups(), pair);
            if i < rest.len() {
                assert(rest[i] == atoms[i]);
            }
        }
        assert(known.is_prefix_of(all)) by {
            assert(before.is_prefix_of(all));
            assert forall|i: int| 0 <= i < known.len() implies known[i] == all[i] by {
                assert(known[i] == before[i] && before[i] == all[i]);
            }
        }
    }
}

/// One of the episodes binds the value to the key.
pub open spec fn some_binds(atoms: Seq<EpisodeAtom>, pair: Pair) -> bool {
    exists|i: int| 0 <= i < atoms.len() && binds((#[trigger] atoms[i]).groups(), pair)
}

proof fn inserted(sorted: Seq<u64>, value: u64) -> (all: Seq<u64>)
    requires
        increasing(sorted),
    ensures
        increasing(all),
        forall|other: u64| #[trigger]
            all.contains(other) <==> sorted.contains(other) || other == value,
    decreases sorted.len(),
{
    if sorted.len() == 0 {
        let all = seq![value];
        assert(all[0] == value);
        all
    } else if sorted.last() < value {
        let all = sorted.push(value);
        assert forall|other: u64| #[trigger] all.contains(other) <==> sorted.contains(other)
            || other == value by {
            if sorted.contains(other) {
                assert(all[sorted.index_of(other)] == other);
            }
            if all.contains(other) && other != value {
                assert(sorted[all.index_of(other)] == other);
            }
            assert(all[sorted.len() as int] == value);
        }
        all
    } else if sorted.last() == value {
        assert(sorted[sorted.len() - 1] == value);
        sorted
    } else {
        let rest = sorted.drop_last();
        let before = inserted(rest, value);
        let all = before.push(sorted.last());
        assert forall|other: u64| #[trigger] all.contains(other) <==> sorted.contains(other)
            || other == value by {
            if sorted.contains(other) {
                let k = sorted.index_of(other);
                if k < rest.len() {
                    assert(rest[k] == other);
                    assert(before.contains(other));
                    assert(all[before.index_of(other)] == other);
                } else {
                    assert(all[before.len() as int] == other);
                }
            }
            if other == value {
                assert(before.contains(other));
                assert(all[before.index_of(other)] == other);
            }
            if all.contains(other) {
                let k = all.index_of(other);
                if k < before.len() {
                    assert(before[k] == other);
                    if other != value {
                        assert(before.contains(other));
                        assert(rest.contains(other));
                        assert(sorted[rest.index_of(other)] == other);
                    }
                } else {
                    assert(sorted[sorted.len() - 1] == other);
                }
            }
        }
        assert forall|i: int, j: int|
            #![trigger all[i], all[j]]
            0 <= i < j < all.len() implies all[i] < all[j] by {
            assert(before.contains(before[i]));
            if j == before.len() && before[i] != value {
                let k = rest.index_of(before[i]);
                assert(sorted[k] < sorted[sorted.len() - 1]);
            }
        }
        all
    }
}

/// The identifiers of a posting list ascend, each once and nothing else.
pub proof fn law_posting_identifiers_ascend(ids: Seq<u64>)
    ensures
        increasing(ascending_of(ids)),
        forall|id: u64| #[trigger] ascending_of(ids).contains(id) <==> ids.contains(id),
{
    let sorted = ascending_list(ids);
    assert(sorted.to_set() =~= ids.to_set()) by {
        assert forall|id: u64| sorted.to_set().contains(id) <==> ids.to_set().contains(id) by {
            assert(sorted.contains(id) <==> ids.contains(id));
        }
    }
    let chosen = ascending_of(ids);
    assert(increasing(chosen) && chosen.to_set() == ids.to_set());
    assert forall|id: u64| #[trigger] chosen.contains(id) <==> ids.contains(id) by {
        assert(chosen.to_set().contains(id) <==> ids.to_set().contains(id));
    }
}

proof fn ascending_list(ids: Seq<u64>) -> (sorted: Seq<u64>)
    ensures
        increasing(sorted),
        forall|id: u64| #[trigger] sorted.contains(id) <==> ids.contains(id),
    decreases ids.len(),
{
    if ids.len() == 0 {
        ids
    } else {
        let before = ascending_list(ids.drop_last());
        let sorted = inserted(before, ids.last());
        assert forall|id: u64| #[trigger] sorted.contains(id) <==> ids.contains(id) by {
            assert(before.contains(id) <==> ids.drop_last().contains(id));
            if ids.drop_last().contains(id) {
                assert(ids[ids.drop_last().index_of(id)] == id);
            }
            assert(ids[ids.len() - 1] == ids.last());
            if ids.contains(id) && id != ids.last() {
                assert(ids.drop_last()[ids.index_of(id)] == id);
            }
        }
        sorted
    }
}

/// A posting joins an episode with a cue exactly if the episode binds the pair
/// of the cue.
pub proof fn law_postings_join_episodes_with_their_cues(
    atoms: Seq<EpisodeAtom>,
    cues: Seq<Pair>,
    sequence: u64,
    cue: u64,
)
    requires
        cues.no_duplicates(),
        cues.len() <= u64::MAX,
        forall|i: int, pair: Pair|
            #![trigger binds(atoms[i].groups(), pair)]
            0 <= i < atoms.len() && binds(atoms[i].groups(), pair) ==> cues.contains(pair),
    ensures
        postings_of(atoms, cues).contains((sequence, cue)) <==> cue < cues.len() && exists|i: int|
            0 <= i < atoms.len() && (#[trigger] atoms[i]).identifier().position() == sequence
                && binds(atoms[i].groups(), cues[cue as int]),
    decreases atoms.len(),
{
    let posting = (sequence, cue);
    let postings = postings_of(atoms, cues);
    if atoms.len() > 0 {
        let rest = atoms.drop_last();
        let last = atoms.last();
        assert(atoms[atoms.len() - 1] == last);
        assert forall|i: int, pair: Pair|
            #![trigger binds(rest[i].groups(), pair)]
            0 <= i < rest.len() && binds(rest[i].groups(), pair) implies cues.contains(pair) by {
            assert(binds(atoms[i].groups(), pair));
        }
        law_postings_join_episodes_with_their_cues(rest, cues, sequence, cue);
        let before = postings_of(rest, cues);
        let pairs = pairs_of(last.groups());
        let ids = cue_ids(cues, pairs);
        let lines = episode_postings(last.identifier().position(), ids);
        assert(postings == before + lines);
        law_posting_identifiers_ascend(ids);
        let sorted = ascending_of(ids);
        assert forall|k: int| 0 <= k < pairs.len() implies ids[k] < cues.len() && cues[(
        #[trigger] ids[k]) as int] == pairs[k] by {
            assert(pairs.contains(pairs[k]));
            law_pairs_are_bound(last.groups(), pairs[k]);
            assert(binds(atoms[atoms.len() - 1].groups(), pairs[k]));
            let place = cues.index_of(pairs[k]);
            assert(cues[place] == pairs[k]);
            lemma_place(cues, place);
        }
        if lines.contains(posting) {
            let k = lines.index_of(posting);
            assert(sorted[k] == cue);
            assert(sorted.contains(cue));
            let place = ids.index_of(cue);
            assert(ids[place] == cue);
            assert(pairs.contains(pairs[place]));
            law_pairs_are_bound(last.groups(), pairs[place]);
            assert(binds(atoms[atoms.len() - 1].groups(), cues[cue as int]));
            assert(postings[before.len() + k] == posting);
        }
        if postings.contains(posting) {
            let k = postings.index_of(posting);
            if k < before.len() {
                assert(before[k] == posting);
                let i = choose|i: int|
                    0 <= i < rest.len() && (#[trigger] rest[i]).identifier().position() == sequence
                        && binds(rest[i].groups(), cues[cue as int]);
                assert(atoms[i] == rest[i]);
            } else {
                assert(lines[k - before.len()] == posting);
                assert(lines.contains(posting));
            }
        }
        if cue < cues.len() && exists|i: int|
            0 <= i < atoms.len() && (#[trigger] atoms[i]).identifier().position() == sequence
                && binds(atoms[i].groups(), cues[cue as int]) {
            let i = choose|i: int|
                0 <= i < atoms.len() && (#[trigger] atoms[i]).identifier().position() == sequence
                    && binds(atoms[i].groups(), cues[cue as int]);
            if i < rest.len() {
                assert(rest[i] == atoms[i]);
                assert(before.contains(posting));
                assert(postings[before.index_of(posting)] == posting);
            } else {
                law_pairs_are_bound(last.groups(), cues[cue as int]);
                let place = pairs.index_of(cues[cue as int]);
                assert(pairs[place] == cues[cue as int]);
                assert(cues[ids[place] as int] == cues[cue as int]);
                assert(ids[place] == cue);
                assert(ids.contains(cue));
                assert(sorted.contains(cue));
                let k = sorted.index_of(cue);
                assert(lines[k] == posting);
                assert(postings[before.len() + k] == posting);
            }
        }
    }
}

/// The postings of episodes in ascending order ascend by sequence and cue.
pub proof fn law_postings_ascend(atoms: Seq<EpisodeAtom>, cues: Seq<Pair>)
    requires
        forall|i: int, j: int|
            #![trigger atoms[i], atoms[j]]
            0 <= i < j < atoms.len() ==> atoms[i].identifier().position()
                < atoms[j].identifier().position(),
    ensures
        forall|i: int, j: int|
            #![trigger postings_of(atoms, cues)[i], postings_of(atoms, cues)[j]]
            0 <= i < j < postings_of(atoms, cues).len() ==> {
                let first = postings_of(atoms, cues)[i];
                let second = postings_of(atoms, cues)[j];
                first.0 < second.0 || first.0 == second.0 && first.1 < second.1
            },
        forall|i: int|
            0 <= i < postings_of(atoms, cues).len() ==> exists|k: int|
                0 <= k < atoms.len() && (#[trigger] atoms[k]).identifier().position() == (
                #[trigger] postings_of(atoms, cues)[i]).0,
    decreases atoms.len(),
{
    if atoms.len() > 0 {
        let rest = atoms.drop_last();
        let last = atoms.last();
        assert(atoms[atoms.len() - 1] == last);
        assert forall|i: int, j: int|
            #![trigger rest[i], rest[j]]
            0 <= i < j < rest.len() implies rest[i].identifier().position()
            < rest[j].identifier().position() by {
            assert(atoms[i] == rest[i] && atoms[j] == rest[j]);
        }
        law_postings_ascend(rest, cues);
        let before = postings_of(rest, cues);
        let ids = cue_ids(cues, pairs_of(last.groups()));
        law_posting_identifiers_ascend(ids);
        let lines = episode_postings(last.identifier().position(), ids);
        let postings = postings_of(atoms, cues);
        assert(postings == before + lines);
        assert forall|i: int| 0 <= i < postings.len() implies exists|k: int|
            0 <= k < atoms.len() && (#[trigger] atoms[k]).identifier().position() == (
            #[trigger] postings[i]).0 by {
            if i < before.len() {
                assert(postings[i] == before[i]);
                let k = choose|k: int|
                    0 <= k < rest.len() && (#[trigger] rest[k]).identifier().position()
                        == before[i].0;
                assert(atoms[k] == rest[k]);
            } else {
                assert(postings[i] == lines[i - before.len()]);
            }
        }
        assert forall|i: int, j: int|
            #![trigger postings[i], postings[j]]
            0 <= i < j < postings.len() implies postings[i].0 < postings[j].0 || postings[i].0
            == postings[j].0 && postings[i].1 < postings[j].1 by {
            if j < before.len() {
                assert(postings[i] == before[i] && postings[j] == before[j]);
            } else if i < before.len() {
                assert(postings[i] == before[i]);
                let k = choose|k: int|
                    0 <= k < rest.len() && (#[trigger] rest[k]).identifier().position()
                        == before[i].0;
                assert(atoms[k] == rest[k]);
                assert(postings[j] == lines[j - before.len()]);
            } else {
                let sorted = ascending_of(ids);
                assert(sorted[i - before.len()] < sorted[j - before.len()]);
            }
        }
    }
}

/// A posting row is read as its two numbers.
pub proof fn law_posting_rows_hold_their_numbers(row: PostingRow)
    ensures
        posting_in(row) matches Ok(posting) ==> {
            &&& row.sequence matches Value::Blob(bytes) && bytes@.len() == 8 && be_value(bytes@)
                == posting.0
            &&& row.cue_id matches Value::Blob(bytes) && bytes@.len() == 8 && be_value(bytes@)
                == posting.1
        },
        (row.sequence matches Value::Blob(bytes) && bytes@.len() == 8) && (
        row.cue_id matches Value::Blob(bytes) && bytes@.len() == 8) ==> posting_in(row) is Ok,
{
    lemma_number(row.sequence);
    lemma_number(row.cue_id);
}

proof fn lemma_number(value: Value)
    ensures
        value matches Value::Blob(bytes) ==> (bytes@.len() == 8 ==> be_value(bytes@)
            <= u64::MAX),
{
    if let Value::Blob(bytes) = value {
        crate::bytes::lemma_capacities();
        crate::bytes::lemma_be_canonical(bytes@);
    }
}

/// A number is the big-endian value of eight bytes.
pub open spec fn is_number(value: Value, number: nat) -> bool {
    value matches Value::Blob(bytes) && bytes@.len() == 8 && be_value(bytes@) == number
}

/// Accepted cue rows are read one by one: each under its own identifier, with a
/// vector of the profile that is not zero, and no pair twice.
pub proof fn law_cue_rows_are_read_one_by_one(rows: Seq<CueRow>, dimensions: u16)
    requires
        rows.len() <= u64::MAX,
        cues_in(rows, dimensions) is Ok,
    ensures
        ({
            let pairs = cues_in(rows, dimensions)->Ok_0;
            &&& pairs.len() == rows.len()
            &&& pairs.no_duplicates()
            &&& forall|i: int|
                0 <= i < rows.len() ==> {
                    let row = #[trigger] rows[i];
                    &&& is_number(row.cue_id, i as nat)
                    &&& is_number(row.key_id, pairs[i].0 as nat)
                    &&& is_number(row.value_id, pairs[i].1 as nat)
                    &&& row.vector matches Value::Blob(bytes) && bytes@.len() == 2 * dimensions
                        && exists|k: int|
                        0 <= k < dimensions && (#[trigger] components(bytes@)[k]) != 0
                }
        }),
    decreases rows.len(),
{
    let pairs = cues_in(rows, dimensions)->Ok_0;
    if rows.len() > 0 {
        let rest = rows.drop_last();
        let last = rows.last();
        law_cue_rows_are_read_one_by_one(rest, dimensions);
        let before = cues_in(rest, dimensions)->Ok_0;
        lemma_number(last.cue_id);
        lemma_number(last.key_id);
        lemma_number(last.value_id);
        assert(cue_in(last, before, dimensions) is Ok);
        assert(rows[rows.len() - 1] == last);
        assert(!lists_pair(before, pairs.last()));
        assert forall|i: int, j: int|
            0 <= i < pairs.len() && 0 <= j < pairs.len() && i != j implies pairs[i] != pairs[j] by {
            if i < before.len() && j < before.len() {
                assert(before[i] != before[j]);
            } else if i < before.len() {
                assert(before[i] == pairs[i]);
            } else {
                assert(before[j] == pairs[j]);
            }
        }
        assert forall|i: int| 0 <= i < rows.len() implies {
            let row = #[trigger] rows[i];
            &&& is_number(row.cue_id, i as nat)
            &&& is_number(row.key_id, pairs[i].0 as nat)
            &&& is_number(row.value_id, pairs[i].1 as nat)
            &&& row.vector matches Value::Blob(bytes) && bytes@.len() == 2 * dimensions
                && exists|k: int| 0 <= k < dimensions && (#[trigger] components(bytes@)[k]) != 0
        } by {
            if i < rest.len() {
                assert(rest[i] == rows[i]);
                assert(pairs[i] == before[i]);
            } else {
                let bytes = last.vector->Blob_0@;
                assert(holds_vector(bytes, dimensions));
                let k = choose|k: int|
                    0 <= k < components(bytes).len() && (#[trigger] components(bytes)[k]) != 0;
                assert(components(bytes)[k] != 0);
            }
        }
    }
}

/// Metadata is accepted exactly if it is one row of format version 1, with a
/// memory identifier and a profile fingerprint that are not zero, with at least
/// one dimension, and with a count of episodes.
pub proof fn law_accepted_index_metadata(rows: Seq<IndexMetadataRow>)
    ensures
        metadata_in(rows) is Ok <==> {
            &&& rows.len() == 1
            &&& rows[0].format_version == Value::Integer(1)
            &&& rows[0].memory_id matches Value::Blob(bytes) && bytes@.len() == 16 && be_value(
                bytes@,
            ) != 0
            &&& rows[0].profile_fingerprint matches Value::Blob(bytes) && bytes@.len() == 32
                && exists|i: int| 0 <= i < 32 && (#[trigger] bytes@[i]) != 0
            &&& rows[0].dimensions matches Value::Integer(dimensions) && 1 <= dimensions <= 65535
            &&& rows[0].indexed_episode_count matches Value::Blob(bytes) && bytes@.len() == 8
        },
        metadata_in(rows) matches Ok(content) ==> {
            &&& rows[0].memory_id matches Value::Blob(bytes) && content.memory == be_value(bytes@)
            &&& rows[0].profile_fingerprint matches Value::Blob(bytes) && content.profile.0
                == bytes@
            &&& rows[0].dimensions == Value::Integer(content.profile.1 as i64)
            &&& is_number(rows[0].indexed_episode_count, content.episodes as nat)
        },
        version_error(Seq::new(rows.len(), |i: int| rows[i].format_version)) is None
            <==> rows.len() == 1 && rows[0].format_version == Value::Integer(1),
{
    if rows.len() > 0 {
        lemma_number(rows[0].indexed_episode_count);
        assert(Seq::new(rows.len(), |i: int| rows[i].format_version)[0] == rows[0].format_version);
    }
}

/// An accepted index belongs to the memory and to the profile, covers no more
/// than the committed episodes, and is counted as it is.
pub proof fn law_accepted_indexes(
    rows: IndexRows,
    atoms: Seq<EpisodeAtom>,
    memory: nat,
    profile: EmbeddingProfile,
    canonical: Seq<ObjectContent>,
)
    requires
        rows.cues@.len() <= u64::MAX,
        index_in(rows, atoms, memory, profile, canonical) is Ok,
    ensures
        ({
            let found = index_in(rows, atoms, memory, profile, canonical)->Ok_0;
            &&& rows.application_id == 0x4E41_4F53
            &&& metadata_in(rows.metadata@) matches Ok(content) && content.memory == memory
                && content.profile == profile@ && content.episodes == found.1.0
            &&& found.1.0 <= atoms.len()
            &&& object_contents(rows.schema@) == canonical
            &&& rows.quick_check@ == "ok"@
            &&& !rows.broken_reference
            &&& found.1.1 == rows.cues@.len() == found.0.len()
        }),
{
    law_cue_rows_are_read_one_by_one(rows.cues@, profile@.1);
}

/// A synchronization goes on only in the index that it started from.
pub proof fn law_changed_indexes_are_refused(
    index: SemanticCueIndex,
    seen: SyncObservation,
    canonical: Seq<ObjectContent>,
    covered: u64,
)
    ensures
        index.change_error(seen, canonical, covered) is None <==> {
            &&& seen.application_id == 0x4E41_4F53
            &&& seen.versions@.len() == 1 && seen.versions@[0] == Value::Integer(1)
            &&& object_contents(seen.schema@) == canonical
            &&& metadata_in(seen.metadata@) matches Ok(content) && content.memory
                == index.memory()@ && content.profile == index.made_for()@ && content.episodes
                == covered
        },
{
}

/// Cues are embedded in batches of at most 256: each batch is handed over by its
/// texts, and the vectors of its rows are the answer.
pub proof fn law_batches_are_embedded_in_order<E: CueEmbedder>(
    rows: Seq<CueValues>,
    cues: Seq<NewCue>,
    texts: Map<u64, Seq<char>>,
    batch: int,
)
    requires
        rows.len() == cues.len(),
        holds_answers::<E>(rows, cues, texts, cues.len() as int),
        0 <= 256 * batch < cues.len(),
    ensures
        ({
            let start = 256 * batch;
            let end = if start + 256 < cues.len() {
                start + 256
            } else {
                cues.len() as int
            };
            E::may_answer(
                Seq::new(
                    (end - start) as nat,
                    |i: int| (texts[cues[start + i].key_id], texts[cues[start + i].value_id]),
                ),
                Seq::new((end - start) as nat, |i: int| components(rows[start + i].3@)),
            )
        }),
{
    let start = 256 * batch;
    let end = batch_end(cues.len(), start as nat) as int;
    assert(crate::semantic_index::index::holds_answer::<E>(rows, cues, texts, start));
    assert(batch_texts(cues.subrange(start, end), texts) =~= Seq::new(
        (end - start) as nat,
        |i: int| (texts[cues[start + i].key_id], texts[cues[start + i].value_id]),
    ));
    assert(row_vectors(rows.subrange(start, end)) =~= Seq::new(
        (end - start) as nat,
        |i: int| components(rows[start + i].3@),
    ));
}

/// A synchronization starts where the index ends: its new cues take the next
/// identifiers in the order of the catalog, its postings are those of the later
/// episodes, and the texts of exactly the symbols of the new cues are needed.
pub proof fn law_synchronizations_start_where_the_index_ends(
    start: SyncStart,
    pairs: Seq<Pair>,
    counts: (u64, u64, u64),
    atoms: Seq<EpisodeAtom>,
    id: u64,
)
    requires
        pairs.no_duplicates(),
        counts.0 <= atoms.len() <= u64::MAX,
        extends_index(start, pairs, counts, atoms),
    ensures
        pairs.is_prefix_of(start.pairs()),
        start.new_cues().len() == start.pairs().len() - pairs.len(),
        forall|i: int|
            0 <= i < start.new_cues().len() ==> (#[trigger] start.new_cues()[i]).cue_id
                == pairs.len() + i && (start.new_cues()[i].key_id, start.new_cues()[i].value_id)
                == start.pairs()[pairs.len() + i],
        start.new_postings() == postings_of(
            atoms.subrange(counts.0 as int, atoms.len() as int),
            start.pairs(),
        ),
        start.coverage().0 == counts.0,
        start.coverage().1 == atoms.len(),
        start.needed().contains(id) <==> exists|i: int|
            0 <= i < start.new_cues().len() && ((#[trigger] start.new_cues()[i]).key_id == id
                || start.new_cues()[i].value_id == id),
{
    let later = atoms.skip(counts.0 as int);
    assert(later =~= atoms.subrange(counts.0 as int, atoms.len() as int));
    if later.len() > 0 {
        law_episodes_are_added_one_by_one(pairs, later, later[0], (0u64, 0u64));
    } else {
        assert(pairs.subrange(0, pairs.len() as int) =~= pairs);
    }
    if start.needed().contains(id) {
        assert(some_cue_uses(start.new_cues(), id));
    }
    if exists|i: int|
        0 <= i < start.new_cues().len() && ((#[trigger] start.new_cues()[i]).key_id == id
            || start.new_cues()[i].value_id == id) {
        let i = choose|i: int|
            0 <= i < start.new_cues().len() && ((#[trigger] start.new_cues()[i]).key_id == id
                || start.new_cues()[i].value_id == id);
        assert(uses_symbol(start.new_cues()[i], id));
        assert(some_cue_uses(start.new_cues(), id));
    }
}

/// The row of a cue has its identifier, its key and its value, and a vector of
/// the profile that is not zero.
pub proof fn law_cue_rows_hold_their_cues(row: CueValues, cue: NewCue, dimensions: u16)
    requires
        embeds(row, cue, dimensions),
    ensures
        row.0 == cue.cue_id,
        row.1 == cue.key_id,
        row.2 == cue.value_id,
        row.3@.len() == 2 * dimensions,
        exists|i: int| 0 <= i < dimensions && (#[trigger] components(row.3@)[i]) != 0,
{
    let i = choose|i: int|
        0 <= i < components(row.3@).len() && (#[trigger] components(row.3@)[i]) != 0;
    assert(components(row.3@)[i] != 0);
}

/// A cue is embedded by the text of its key and then the text of its value, and
/// is refused without them.
pub proof fn law_cues_are_embedded_by_their_texts(cue: NewCue, texts: Map<u64, Seq<char>>)
    ensures
        texts_of(cue, texts) == (texts[cue.key_id], texts[cue.value_id]),
        has_texts(cue, texts) <==> texts.contains_key(cue.key_id) && texts.contains_key(
            cue.value_id,
        ),
{
}

/// An embedding profile is told by its fingerprint and its dimensions, and an
/// embedding fits it exactly if it has as many components and one is not zero.
pub proof fn law_embeddings_fit_their_profile(values: Seq<i16>, dimension: u16)
    ensures
        fits(values, dimension) <==> values.len() == dimension && exists|i: int|
            0 <= i < dimension && (#[trigger] values[i]) != 0,
{
    if fits(values, dimension) {
        let i = choose|i: int| 0 <= i < values.len() && (#[trigger] values[i]) != 0;
        assert(values[i] != 0);
    }
}

/// A cue row is accepted behind others exactly if it has the next identifier, two
/// numbers that are not listed as a pair yet, and a vector of the profile.
pub proof fn law_accepted_cue_rows(rows: Seq<CueRow>, row: CueRow, dimensions: u16)
    requires
        rows.len() < u64::MAX,
        cues_in(rows, dimensions) is Ok,
    ensures
        cues_in(rows.push(row), dimensions) is Ok <==> {
            &&& is_number(row.cue_id, rows.len())
            &&& exists|key: u64, value: u64|
                is_number(row.key_id, key as nat) && #[trigger] is_other_pair(
                    row,
                    value,
                    cues_in(rows, dimensions)->Ok_0,
                    key,
                )
            &&& row.vector matches Value::Blob(bytes) && holds_vector(bytes@, dimensions)
        },
{
    assert(rows.push(row).drop_last() =~= rows);
    law_cue_rows_are_read_one_by_one(rows, dimensions);
    let listed = cues_in(rows, dimensions)->Ok_0;
    lemma_number(row.cue_id);
    lemma_number(row.key_id);
    lemma_number(row.value_id);
    if cues_in(rows.push(row), dimensions) is Ok {
        let pair = cue_in(row, listed, dimensions)->Ok_0;
        assert(!lists_pair(listed, pair));
        assert(!listed.contains(pair));
        assert(is_other_pair(row, pair.1, listed, pair.0));
    }
    if exists|key: u64, value: u64|
        is_number(row.key_id, key as nat) && #[trigger] is_other_pair(row, value, listed, key) {
        let (key, value) = choose|key: u64, value: u64|
            is_number(row.key_id, key as nat) && #[trigger] is_other_pair(row, value, listed, key);
        assert(!listed.contains((key, value)));
        assert(!lists_pair(listed, (key, value)));
    }
}

/// The row has the value, and the pair with the key is not listed.
pub open spec fn is_other_pair(row: CueRow, value: u64, listed: Seq<Pair>, key: u64) -> bool {
    is_number(row.value_id, value as nat) && !listed.contains((key, value))
}

/// An index is accepted exactly if its header, its metadata and its schema are
/// those of the format, for this memory and this profile, its checks pass, it
/// covers no more than the committed episodes, and its cues and postings are
/// accepted.
pub proof fn law_indexes_are_accepted_whole(
    rows: IndexRows,
    atoms: Seq<EpisodeAtom>,
    memory: nat,
    profile: EmbeddingProfile,
    canonical: Seq<ObjectContent>,
)
    ensures
        index_in(rows, atoms, memory, profile, canonical) is Ok <==> {
            &&& rows.application_id == 0x4E41_4F53
            &&& object_contents(rows.schema@) == canonical
            &&& rows.quick_check@ == "ok"@
            &&& !rows.broken_reference
            &&& metadata_in(rows.metadata@) matches Ok(content) && content.memory == memory
                && content.profile == profile@ && content.episodes <= atoms.len() && (cues_in(
                rows.cues@,
                profile@.1,
            ) matches Ok(pairs) && validated_postings(
                atoms.take(content.episodes as int),
                pairs,
                rows.postings@,
            ) is Ok)
        },
{
}

} // verus!
