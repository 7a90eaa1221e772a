//! What a valid index covers, and that synchronization keeps it valid.

use vstd::prelude::*;

use crate::attribute::EpisodeAtom;
use crate::episode::Episode;
use crate::semantic_index::cues::{distinct_pairs, lemma_place, lists_pair, place_of, Pair};
use crate::semantic_index::error::IndexError;
use crate::semantic_index::postings::{
    add_episodes, add_pairs, ascending_of, checked_pairs, cue_ids, episode_postings,
    lemma_add_episodes, lemma_add_pairs, lemma_same_place, lemma_same_postings, pairs_of,
    posting_fault, posting_in, postings_of, scanned_postings, starts, validated_postings,
    PostingRow,
};

verus! {

/// The rows from a position on hold the postings.
pub open spec fn holds_postings(
    rows: Seq<PostingRow>,
    position: nat,
    postings: Seq<(u64, u64)>,
) -> bool {
    &&& position + postings.len() <= rows.len()
    &&& forall|i: int|
        0 <= i < postings.len() ==> posting_in(rows[position + i]) == Ok::<(u64, u64), IndexError>(
            #[trigger] postings[i],
        )
}

proof fn lemma_checked_sound(
    pairs: Seq<Pair>,
    cues: Seq<Pair>,
    sequence: u64,
    next: nat,
)
    requires
        distinct_pairs(cues),
        next <= cues.len() <= u64::MAX,
        checked_pairs(pairs, cues, sequence, next) is Ok,
    ensures
        ({
            let (reached, ids) = checked_pairs(pairs, cues, sequence, next)->Ok_0;
            &&& reached <= cues.len()
            &&& cues.take(reached as int) == add_pairs(cues.take(next as int), pairs)
            &&& ids == cue_ids(cues, pairs)
        }),
    decreases pairs.len(),
{
    if pairs.len() == 0 {
        assert(cue_ids(cues, pairs) =~= Seq::empty());
    } else {
        let rest = pairs.drop_last();
        lemma_checked_sound(rest, cues, sequence, next);
        let (before, earlier) = checked_pairs(rest, cues, sequence, next)->Ok_0;
        let (reached, ids) = checked_pairs(pairs, cues, sequence, next)->Ok_0;
        let pair = pairs.last();
        let place = place_of(cues, pair);
        assert(0 <= place < cues.len() && cues[place] == pair);
        let known = cues.take(before as int);
        if place < before {
            assert(known[place] == pair);
            assert(lists_pair(known, pair));
        } else {
            assert(place == before);
            assert(!lists_pair(known, pair)) by {
                if lists_pair(known, pair) {
                    let k = choose|k: int| 0 <= k < known.len() && #[trigger] known[k] == pair;
                    assert(cues[k] == pair);
                    assert(cues[k] != cues[place]);
                }
            }
            assert(cues.take(reached as int) =~= known.push(pair));
        }
        assert(cue_ids(cues, pairs) =~= cue_ids(cues, rest).push(place as u64));
    }
}

proof fn lemma_fault_sound(
    rows: Seq<PostingRow>,
    position: nat,
    sequence: u64,
    ids: Seq<u64>,
)
    requires
        position <= rows.len(),
        posting_fault(rows, position, sequence, ids) is None,
    ensures
        holds_postings(rows, position, ids.map_values(|id: u64| (sequence, id))),
    decreases ids.len(),
{
    if ids.len() > 0 {
        lemma_fault_sound(rows, position, sequence, ids.drop_last());
        let postings = ids.map_values(|id: u64| (sequence, id));
        let fewer = ids.drop_last().map_values(|id: u64| (sequence, id));
        assert forall|i: int| 0 <= i < postings.len() implies posting_in(rows[position + i]) == Ok::<
            (u64, u64),
            IndexError,
        >(#[trigger] postings[i]) by {
            if i < fewer.len() {
                assert(fewer[i] == postings[i]);
            }
        }
    }
}

proof fn lemma_fault_complete(
    rows: Seq<PostingRow>,
    position: nat,
    sequence: u64,
    ids: Seq<u64>,
)
    requires
        holds_postings(rows, position, ids.map_values(|id: u64| (sequence, id))),
    ensures
        posting_fault(rows, position, sequence, ids) is None,
    decreases ids.len(),
{
    if ids.len() > 0 {
        let rest = ids.drop_last();
        let postings = ids.map_values(|id: u64| (sequence, id));
        let fewer = rest.map_values(|id: u64| (sequence, id));
        assert forall|i: int| 0 <= i < fewer.len() implies posting_in(rows[position + i]) == Ok::<
            (u64, u64),
            IndexError,
        >(#[trigger] fewer[i]) by {
            assert(fewer[i] == postings[i]);
        }
        lemma_fault_complete(rows, position, sequence, rest);
        assert(postings[ids.len() - 1] == (sequence, ids.last()));
    }
}

proof fn lemma_scan_sound(atoms: Seq<EpisodeAtom>, cues: Seq<Pair>, rows: Seq<PostingRow>)
    requires
        distinct_pairs(cues),
        cues.len() <= u64::MAX,
        scanned_postings(atoms, cues, rows) is Ok,
    ensures
        ({
            let (next, position) = scanned_postings(atoms, cues, rows)->Ok_0;
            &&& next <= cues.len()
            &&& cues.take(next as int) == add_episodes(Seq::empty(), atoms)
            &&& position == postings_of(atoms, cues).len()
            &&& holds_postings(rows, 0, postings_of(atoms, cues))
        }),
    decreases atoms.len(),
{
    if atoms.len() == 0 {
        assert(cues.take(0) =~= Seq::empty());
    } else {
        let rest = atoms.drop_last();
        lemma_scan_sound(rest, cues, rows);
        let (next, position) = scanned_postings(rest, cues, rows)->Ok_0;
        let sequence = atoms.last().identifier().position();
        let pairs = pairs_of(atoms.last().groups());
        lemma_checked_sound(pairs, cues, sequence, next);
        let (reached, ids) = checked_pairs(pairs, cues, sequence, next)->Ok_0;
        let sorted = ascending_of(ids);
        lemma_fault_sound(rows, position, sequence, sorted);
        let before = postings_of(rest, cues);
        let added = episode_postings(sequence, ids);
        let all = postings_of(atoms, cues);
        assert(all == before + added);
        assert forall|i: int| 0 <= i < all.len() implies posting_in(rows[0 + i]) == Ok::<
            (u64, u64),
            IndexError,
        >(#[trigger] all[i]) by {
            if i < before.len() {
                assert(before[i] == all[i]);
                assert(posting_in(rows[0 + i]) == Ok::<(u64, u64), IndexError>(before[i]));
            } else {
                let k = i - before.len();
                assert(added[k] == all[i]);
                assert(posting_in(rows[position + k]) == Ok::<(u64, u64), IndexError>(added[k]));
            }
        }
    }
}

/// An accepted index is the projection of its episodes: cues are numbered in
/// the order of their first occurrence, and the postings are exactly those of
/// the episodes.
pub proof fn law_valid_index_is_its_episodes_projection(
    atoms: Seq<EpisodeAtom>,
    cues: Seq<Pair>,
    rows: Seq<PostingRow>,
)
    requires
        distinct_pairs(cues),
        cues.len() <= u64::MAX,
        validated_postings(atoms, cues, rows) is Ok,
    ensures
        cues == add_episodes(Seq::empty(), atoms),
        rows.len() == postings_of(atoms, cues).len(),
        holds_postings(rows, 0, postings_of(atoms, cues)),
        validated_postings(atoms, cues, rows)->Ok_0 == rows.len(),
{
    lemma_scan_sound(atoms, cues, rows);
    let (next, position) = scanned_postings(atoms, cues, rows)->Ok_0;
    assert(cues.take(next as int) =~= cues);
}

proof fn lemma_checked_complete(
    pairs: Seq<Pair>,
    cues: Seq<Pair>,
    sequence: u64,
    next: nat,
)
    requires
        distinct_pairs(cues),
        next <= cues.len() <= u64::MAX,
        starts(add_pairs(cues.take(next as int), pairs), cues),
    ensures
        checked_pairs(pairs, cues, sequence, next) == Ok::<(nat, Seq<u64>), IndexError>(
            (add_pairs(cues.take(next as int), pairs).len(), cue_ids(cues, pairs)),
        ),
    decreases pairs.len(),
{
    let start = cues.take(next as int);
    assert(distinct_pairs(start)) by {
        assert forall|i: int, j: int|
            #![trigger start[i], start[j]]
            0 <= i < j < start.len() implies start[i] != start[j] by {
            assert(cues[i] != cues[j]);
        }
    }
    if pairs.len() == 0 {
        assert(cue_ids(cues, pairs) =~= Seq::empty());
    } else {
        let rest = pairs.drop_last();
        let pair = pairs.last();
        let before = add_pairs(start, rest);
        let all = add_pairs(start, pairs);
        lemma_add_pairs(start, rest);
        lemma_add_pairs(start, pairs);
        assert(before =~= cues.take(before.len() as int)) by {
            assert(all == cues.take(all.len() as int));
            if !lists_pair(before, pair) {
                assert(before =~= all.take(before.len() as int));
            }
        }
        lemma_checked_complete(rest, cues, sequence, next);
        if lists_pair(before, pair) {
            lemma_same_place(before, cues, pair);
        } else {
            let place = before.len() as int;
            assert(all[place] == pair);
            assert(cues.take(all.len() as int)[place] == cues[place]);
            lemma_place(cues, place);
        }
        assert(cue_ids(cues, pairs) =~= cue_ids(cues, rest).push(place_of(cues, pair) as u64));
    }
}

proof fn lemma_scan_complete(atoms: Seq<EpisodeAtom>, cues: Seq<Pair>, rows: Seq<PostingRow>)
    requires
        distinct_pairs(cues),
        cues.len() <= u64::MAX,
        starts(add_episodes(Seq::empty(), atoms), cues),
        holds_postings(rows, 0, postings_of(atoms, cues)),
    ensures
        scanned_postings(atoms, cues, rows) == Ok::<(nat, nat), IndexError>(
            (add_episodes(Seq::empty(), atoms).len(), postings_of(atoms, cues).len()),
        ),
    decreases atoms.len(),
{
    if atoms.len() > 0 {
        let rest = atoms.drop_last();
        let sequence = atoms.last().identifier().position();
        let pairs = pairs_of(atoms.last().groups());
        let known = add_episodes(Seq::empty(), rest);
        let all = add_episodes(Seq::empty(), atoms);
        assert(distinct_pairs(Seq::<Pair>::empty()));
        lemma_add_episodes(Seq::empty(), rest);
        lemma_add_pairs(known, pairs);
        assert(known =~= cues.take(known.len() as int)) by {
            assert(all == cues.take(all.len() as int));
            assert(known == all.take(known.len() as int));
        }
        let before = postings_of(rest, cues);
        let ids = cue_ids(cues, pairs);
        let added = episode_postings(sequence, ids);
        let postings = postings_of(atoms, cues);
        assert(postings == before + added);
        assert forall|i: int| 0 <= i < before.len() implies posting_in(rows[0 + i]) == Ok::<
            (u64, u64),
            IndexError,
        >(#[trigger] before[i]) by {
            assert(postings[i] == before[i]);
        }
        lemma_scan_complete(rest, cues, rows);
        lemma_checked_complete(pairs, cues, sequence, known.len());
        assert forall|i: int| 0 <= i < added.len() implies posting_in(
            rows[before.len() + i],
        ) == Ok::<(u64, u64), IndexError>(#[trigger] added[i]) by {
            assert(postings[before.len() + i] == added[i]);
            assert(posting_in(rows[0 + (before.len() + i)]) == Ok::<(u64, u64), IndexError>(
                postings[before.len() + i],
            ));
        }
        lemma_fault_complete(rows, before.len(), sequence, ascending_of(ids));
    }
}

proof fn lemma_add_split(known: Seq<Pair>, first: Seq<EpisodeAtom>, second: Seq<EpisodeAtom>)
    ensures
        add_episodes(known, first + second) == add_episodes(add_episodes(known, first), second),
    decreases second.len(),
{
    if second.len() == 0 {
        assert(first + second =~= first);
    } else {
        assert((first + second).drop_last() =~= first + second.drop_last());
        assert((first + second).last() == second.last());
        lemma_add_split(known, first, second.drop_last());
    }
}

proof fn lemma_postings_split(first: Seq<EpisodeAtom>, second: Seq<EpisodeAtom>, cues: Seq<Pair>)
    ensures
        postings_of(first + second, cues) == postings_of(first, cues) + postings_of(second, cues),
    decreases second.len(),
{
    if second.len() == 0 {
        assert(first + second =~= first);
        assert(postings_of(first, cues) + postings_of(second, cues) =~= postings_of(first, cues));
    } else {
        assert((first + second).drop_last() =~= first + second.drop_last());
        assert((first + second).last() == second.last());
        lemma_postings_split(first, second.drop_last(), cues);
        assert(postings_of(first + second, cues) =~= postings_of(first, cues) + postings_of(
            second,
            cues,
        ));
    }
}

/// An accepted index with the planned cues and postings of later episodes is
/// accepted over all of them.
pub proof fn law_synchronized_index_is_valid(
    covered: Seq<EpisodeAtom>,
    later: Seq<EpisodeAtom>,
    cues: Seq<Pair>,
    rows: Seq<PostingRow>,
    added: Seq<PostingRow>,
)
    requires
        distinct_pairs(cues),
        add_episodes(cues, later).len() <= u64::MAX,
        validated_postings(covered, cues, rows) is Ok,
        added.len() == postings_of(later, add_episodes(cues, later)).len(),
        holds_postings(added, 0, postings_of(later, add_episodes(cues, later))),
    ensures
        validated_postings(covered + later, add_episodes(cues, later), rows + added) == Ok::<
            nat,
            IndexError,
        >((rows.len() + added.len()) as nat),
{
    let all = add_episodes(cues, later);
    lemma_add_episodes(cues, later);
    law_valid_index_is_its_episodes_projection(covered, cues, rows);
    lemma_add_split(Seq::empty(), covered, later);
    lemma_postings_split(covered, later, all);
    assert(distinct_pairs(Seq::<Pair>::empty()));
    assert(cues.take(cues.len() as int) =~= cues);
    lemma_same_postings(covered, Seq::empty(), cues, all);
    assert(all.take(all.len() as int) =~= all);
    let before = postings_of(covered, all);
    let tail = postings_of(later, all);
    let postings = postings_of(covered + later, all);
    let stream = rows + added;
    assert forall|i: int| 0 <= i < postings.len() implies posting_in(stream[0 + i]) == Ok::<
        (u64, u64),
        IndexError,
    >(#[trigger] postings[i]) by {
        if i < before.len() {
            assert(before[i] == postings[i]);
            assert(posting_in(rows[0 + i]) == Ok::<(u64, u64), IndexError>(before[i]));
        } else {
            let k = i - before.len();
            assert(tail[k] == postings[i]);
            assert(posting_in(added[0 + k]) == Ok::<(u64, u64), IndexError>(tail[k]));
        }
    }
    lemma_scan_complete(covered + later, all, stream);
}

} // verus!
