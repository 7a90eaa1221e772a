//! Cue postings of episodes: validation and planning.

use vstd::prelude::*;

use crate::attribute::{groups, numbers, Attribute, EpisodeAtom};
use crate::episode::Episode;
use crate::order::{increasing, lemma_increasing_unique, sort_distinct_numbers};
use crate::semantic_index::cues::{
    bad_cue, distinct_pairs, lemma_place, lists_pair, place_of, CueCatalog, Pair,
};
use crate::semantic_index::error::{invalid_index, IndexError, IndexIntegrityError};
use crate::semantic_index::format::{number_of, read_u64};
use crate::sqlite::row::Value;

verus! {

const POSTING_TABLE: &'static str = "episode_cues";

const NO_EMBEDDING: &'static str = "episode cue has no embedding row";

const WRONG_ORDER: &'static str = "cue identifier differs from deterministic first occurrence";

const ABSENT_POSTING: &'static str = "required episode cue posting is absent";

const OTHER_POSTING: &'static str = "posting stream differs from the committed episode cues";

const OUTSIDE_PREFIX: &'static str = "posting lies outside the indexed episode prefix";

const UNUSED_CUE: &'static str = "cue embedding has no episode posting";

/// The pairs of one key with its values.
pub open spec fn group_pairs(group: (u64, Seq<u64>)) -> Seq<Pair> {
    group.1.map_values(|value: u64| (group.0, value))
}

/// The bound pairs of attributes, in the order of keys and values.
pub open spec fn pairs_of(all: Seq<(u64, Seq<u64>)>) -> Seq<Pair>
    decreases all.len(),
{
    if all.len() == 0 {
        Seq::empty()
    } else {
        pairs_of(all.drop_last()) + group_pairs(all.last())
    }
}

/// The listed pairs with those added that are new, in order.
pub open spec fn add_pairs(known: Seq<Pair>, pairs: Seq<Pair>) -> Seq<Pair>
    decreases pairs.len(),
{
    if pairs.len() == 0 {
        known
    } else {
        let before = add_pairs(known, pairs.drop_last());
        if lists_pair(before, pairs.last()) {
            before
        } else {
            before.push(pairs.last())
        }
    }
}

/// The listed pairs with those of the episodes added that are new, in order.
pub open spec fn add_episodes(known: Seq<Pair>, atoms: Seq<EpisodeAtom>) -> Seq<Pair>
    decreases atoms.len(),
{
    if atoms.len() == 0 {
        known
    } else {
        add_pairs(add_episodes(known, atoms.drop_last()), pairs_of(atoms.last().groups()))
    }
}

/// The identifiers of listed pairs.
pub open spec fn cue_ids(cues: Seq<Pair>, pairs: Seq<Pair>) -> Seq<u64> {
    pairs.map_values(|pair: Pair| place_of(cues, pair) as u64)
}

/// The numbers, each once, in ascending order.
pub open spec fn ascending_of(ids: Seq<u64>) -> Seq<u64> {
    choose|sorted: Seq<u64>| increasing(sorted) && sorted.to_set() == ids.to_set()
}

/// The postings of one episode.
pub open spec fn episode_postings(sequence: u64, ids: Seq<u64>) -> Seq<(u64, u64)> {
    ascending_of(ids).map_values(|id: u64| (sequence, id))
}

/// The postings of episodes, in the order of sequences and cues.
pub open spec fn postings_of(atoms: Seq<EpisodeAtom>, cues: Seq<Pair>) -> Seq<(u64, u64)>
    decreases atoms.len(),
{
    if atoms.len() == 0 {
        Seq::empty()
    } else {
        postings_of(atoms.drop_last(), cues) + episode_postings(
            atoms.last().identifier().position(),
            cue_ids(cues, pairs_of(atoms.last().groups())),
        )
    }
}

/// One row of the posting table, in the order of its columns.
#[derive(Clone, Debug, PartialEq, Eq)]
pub struct PostingRow {
    /// Episode sequence.
    pub sequence: Value,
    /// Cue identifier.
    pub cue_id: Value,
}

/// The posting that a row holds.
pub open spec fn posting_in(row: PostingRow) -> Result<(u64, u64), IndexError> {
    match number_of(row.sequence, "episode_cues", "sequence") {
        Err(error) => Err(error),
        Ok(sequence) => match number_of(row.cue_id, "episode_cues", "cue_id") {
            Err(error) => Err(error),
            Ok(cue_id) => Ok((sequence, cue_id)),
        },
    }
}

/// Reads one posting.
pub fn read_posting(row: &PostingRow) -> (result: Result<(u64, u64), IndexError>)
    ensures
        result == posting_in(*row),
{
    let sequence: u64 = match read_u64(&row.sequence, POSTING_TABLE, "sequence") {
        Ok(sequence) => sequence,
        Err(error) => {
            return Err(error);
        },
    };
    match read_u64(&row.cue_id, POSTING_TABLE, "cue_id") {
        Ok(cue_id) => Ok((sequence, cue_id)),
        Err(error) => Err(error),
    }
}

/// The posting violates a rule.
pub open spec fn bad_posting(sequence: u64, cue_id: u64, detail: &'static str) -> IndexError {
    IndexError::InvalidIndex(IndexIntegrityError::InvalidPosting { sequence, cue_id, detail })
}

fn invalid_posting<T>(sequence: u64, cue_id: u64, detail: &'static str) -> (result: Result<
    T,
    IndexError,
>)
    ensures
        result == Err::<T, IndexError>(bad_posting(sequence, cue_id, detail)),
{
    invalid_index(IndexIntegrityError::InvalidPosting { sequence, cue_id, detail })
}

/// The identifiers of an episode's pairs, of which those below `next` occurred
/// before; new ones follow in first-occurrence order.
pub open spec fn checked_pairs(
    pairs: Seq<Pair>,
    cues: Seq<Pair>,
    sequence: u64,
    next: nat,
) -> Result<(nat, Seq<u64>), IndexError>
    decreases pairs.len(),
{
    if pairs.len() == 0 {
        Ok((next, Seq::empty()))
    } else {
        match checked_pairs(pairs.drop_last(), cues, sequence, next) {
            Err(error) => Err(error),
            Ok((reached, ids)) => if !lists_pair(cues, pairs.last()) {
                Err(bad_posting(sequence, 0, "episode cue has no embedding row"))
            } else {
                let id = place_of(cues, pairs.last()) as u64;
                if id < reached {
                    Ok((reached, ids.push(id)))
                } else if id == reached {
                    Ok((reached + 1, ids.push(id)))
                } else {
                    Err(
                        bad_cue(
                            id,
                            "cue identifier differs from deterministic first occurrence",
                        ),
                    )
                }
            },
        }
    }
}

/// The error of the rows from a position on that should hold an episode's postings.
pub open spec fn posting_fault(
    rows: Seq<PostingRow>,
    position: nat,
    sequence: u64,
    ids: Seq<u64>,
) -> Option<IndexError>
    decreases ids.len(),
{
    if ids.len() == 0 {
        None
    } else {
        match posting_fault(rows, position, sequence, ids.drop_last()) {
            Some(error) => Some(error),
            None => {
                let place = position + ids.len() - 1;
                if place >= rows.len() {
                    Some(
                        bad_posting(
                            sequence,
                            ids.last(),
                            "required episode cue posting is absent",
                        ),
                    )
                } else {
                    match posting_in(rows[place]) {
                        Err(error) => Some(error),
                        Ok((found_sequence, found_cue)) => if found_sequence == sequence
                            && found_cue == ids.last() {
                            None
                        } else {
                            Some(
                                bad_posting(
                                    found_sequence,
                                    found_cue,
                                    "posting stream differs from the committed episode cues",
                                ),
                            )
                        },
                    }
                }
            },
        }
    }
}

/// The number of cues and postings that the episodes use, or the first error.
pub open spec fn scanned_postings(
    atoms: Seq<EpisodeAtom>,
    cues: Seq<Pair>,
    rows: Seq<PostingRow>,
) -> Result<(nat, nat), IndexError>
    decreases atoms.len(),
{
    if atoms.len() == 0 {
        Ok((0, 0))
    } else {
        match scanned_postings(atoms.drop_last(), cues, rows) {
            Err(error) => Err(error),
            Ok((next, position)) => {
                let sequence = atoms.last().identifier().position();
                match checked_pairs(pairs_of(atoms.last().groups()), cues, sequence, next) {
                    Err(error) => Err(error),
                    Ok((reached, ids)) => {
                        let sorted = ascending_of(ids);
                        match posting_fault(rows, position, sequence, sorted) {
                            Some(error) => Err(error),
                            None => Ok((reached, position + sorted.len())),
                        }
                    },
                }
            },
        }
    }
}

/// The number of postings of an index over the first episodes, or the first error.
pub open spec fn validated_postings(
    atoms: Seq<EpisodeAtom>,
    cues: Seq<Pair>,
    rows: Seq<PostingRow>,
) -> Result<nat, IndexError> {
    match scanned_postings(atoms, cues, rows) {
        Err(error) => Err(error),
        Ok((next, position)) => if position < rows.len() {
            match posting_in(rows[position as int]) {
                Err(error) => Err(error),
                Ok((sequence, cue_id)) => Err(
                    bad_posting(
                        sequence,
                        cue_id,
                        "posting lies outside the indexed episode prefix",
                    ),
                ),
            }
        } else if next < cues.len() {
            Err(bad_cue(next as u64, "cue embedding has no episode posting"))
        } else {
            Ok(position)
        },
    }
}

fn list_pairs(attributes: &[Attribute]) -> (pairs: Vec<Pair>)
    ensures
        pairs@ == pairs_of(groups(attributes@)),
{
    let ghost all = groups(attributes@);
    let mut pairs: Vec<Pair> = Vec::new();
    let mut index: usize = 0;
    assert(all.take(0) =~= Seq::empty());
    while index < attributes.len()
        invariant
            index <= attributes@.len(),
            all == groups(attributes@),
            pairs@ == pairs_of(all.take(index as int)),
        decreases attributes.len() - index,
    {
        let attribute = &attributes[index];
        let ghost before = pairs@;
        let key: u64 = attribute.key().get();
        let values = attribute.values();
        let ghost listed = group_pairs(attribute@);
        let mut place: usize = 0;
        assert(before + listed.take(0) =~= before);
        while place < values.len()
            invariant
                place <= values@.len(),
                numbers(values@) == attribute@.1,
                key == attribute@.0,
                listed == group_pairs(attribute@),
                pairs@ == before + listed.take(place as int),
            decreases values.len() - place,
        {
            let value: u64 = values[place].get();
            pairs.push((key, value));
            proof {
                assert(numbers(values@)[place as int] == value);
                assert(listed[place as int] == (key, value));
                assert(pairs@ =~= before + listed.take(place + 1));
            }
            place += 1;
        }
        proof {
            assert(values@.len() == numbers(values@).len());
            assert(listed.take(place as int) =~= listed);
            let part = all.take(index + 1);
            assert(part.drop_last() =~= all.take(index as int));
            assert(part.last() == attribute@);
        }
        index += 1;
    }
    assert(all.take(all.len() as int) =~= all);
    pairs
}

proof fn lemma_checked_stop(
    pairs: Seq<Pair>,
    cues: Seq<Pair>,
    sequence: u64,
    next: nat,
    end: int,
)
    requires
        0 <= end <= pairs.len(),
        checked_pairs(pairs.take(end), cues, sequence, next) is Err,
    ensures
        checked_pairs(pairs, cues, sequence, next) == checked_pairs(
            pairs.take(end),
            cues,
            sequence,
            next,
        ),
    decreases pairs.len(),
{
    if end < pairs.len() {
        assert(pairs.drop_last().take(end) =~= pairs.take(end));
        lemma_checked_stop(pairs.drop_last(), cues, sequence, next, end);
    } else {
        assert(pairs.take(end) =~= pairs);
    }
}

fn check_pairs(pairs: &[Pair], catalog: &CueCatalog, sequence: u64, next: u64) -> (result: Result<
    (u64, Vec<u64>),
    IndexError,
>)
    requires
        next <= catalog@.len() <= u64::MAX,
    ensures
        match (checked_pairs(pairs@, catalog@, sequence, next as nat), result) {
            (Ok((reached, ids)), Ok(found)) => found.0 == reached && found.1@ == ids && reached
                <= catalog@.len(),
            (Err(expected), Err(error)) => error == expected,
            _ => false,
        },
{
    let mut reached: u64 = next;
    let mut ids: Vec<u64> = Vec::new();
    let mut index: usize = 0;
    assert(pairs@.take(0) =~= Seq::empty());
    while index < pairs.len()
        invariant
            index <= pairs@.len(),
            reached <= catalog@.len() <= u64::MAX,
            checked_pairs(pairs@.take(index as int), catalog@, sequence, next as nat) == Ok::<
                (nat, Seq<u64>),
                IndexError,
            >((reached as nat, ids@)),
        decreases pairs.len() - index,
    {
        let pair = pairs[index];
        proof {
            let part = pairs@.take(index + 1);
            assert(part.drop_last() =~= pairs@.take(index as int));
            assert(part.last() == pair);
            if checked_pairs(part, catalog@, sequence, next as nat) is Err {
                lemma_checked_stop(pairs@, catalog@, sequence, next as nat, index + 1);
            }
        }
        match catalog.find(pair) {
            None => {
                return invalid_posting(sequence, 0, NO_EMBEDDING);
            },
            Some(id) => {
                if id >= reached {
                    if id != reached {
                        return invalid_index(
                            IndexIntegrityError::InvalidCue { cue_id: id, detail: WRONG_ORDER },
                        );
                    }
                    reached += 1;
                }
                ids.push(id);
            },
        }
        index += 1;
    }
    assert(pairs@.take(pairs@.len() as int) =~= pairs@);
    Ok((reached, ids))
}

fn ascending(ids: &[u64]) -> (sorted: Vec<u64>)
    ensures
        sorted@ == ascending_of(ids@),
        increasing(sorted@),
        sorted@.to_set() == ids@.to_set(),
{
    let sorted = sort_distinct_numbers(ids);
    proof {
        assert(sorted@.to_set() =~= ids@.to_set());
        lemma_ascending(ids@, sorted@);
    }
    sorted
}

proof fn lemma_ascending(ids: Seq<u64>, sorted: Seq<u64>)
    requires
        increasing(sorted),
        sorted.to_set() == ids.to_set(),
    ensures
        sorted == ascending_of(ids),
{
    let chosen = ascending_of(ids);
    assert(increasing(chosen) && chosen.to_set() == ids.to_set());
    assert forall|value: u64| sorted.contains(value) <==> chosen.contains(value) by {
        assert(sorted.to_set().contains(value) == chosen.to_set().contains(value));
    }
    lemma_increasing_unique(sorted, chosen);
}

proof fn lemma_fault_stays(
    rows: Seq<PostingRow>,
    position: nat,
    sequence: u64,
    ids: Seq<u64>,
    end: int,
)
    requires
        0 <= end <= ids.len(),
        posting_fault(rows, position, sequence, ids.take(end)) is Some,
    ensures
        posting_fault(rows, position, sequence, ids) == posting_fault(
            rows,
            position,
            sequence,
            ids.take(end),
        ),
    decreases ids.len(),
{
    if end < ids.len() {
        assert(ids.drop_last().take(end) =~= ids.take(end));
        lemma_fault_stays(rows, position, sequence, ids.drop_last(), end);
    } else {
        assert(ids.take(end) =~= ids);
    }
}

fn match_postings(rows: &[PostingRow], position: usize, sequence: u64, ids: &[u64]) -> (result:
    Result<usize, IndexError>)
    requires
        position <= rows@.len(),
    ensures
        match (posting_fault(rows@, position as nat, sequence, ids@), result) {
            (None, Ok(reached)) => reached == position + ids@.len() && reached <= rows@.len(),
            (Some(expected), Err(error)) => error == expected,
            _ => false,
        },
{
    let mut index: usize = 0;
    let mut place: usize = position;
    assert(ids@.take(0) =~= Seq::empty());
    while index < ids.len()
        invariant
            index <= ids@.len(),
            place == position + index,
            place <= rows@.len(),
            posting_fault(rows@, position as nat, sequence, ids@.take(index as int)) is None,
        decreases ids.len() - index,
    {
        let cue_id: u64 = ids[index];
        proof {
            let part = ids@.take(index + 1);
            assert(part.drop_last() =~= ids@.take(index as int));
            assert(part.last() == cue_id);
            if posting_fault(rows@, position as nat, sequence, part) is Some {
                lemma_fault_stays(rows@, position as nat, sequence, ids@, index + 1);
            }
        }
        if place >= rows.len() {
            return invalid_posting(sequence, cue_id, ABSENT_POSTING);
        }
        match read_posting(&rows[place]) {
            Err(error) => {
                return Err(error);
            },
            Ok((found_sequence, found_cue)) => {
                if found_sequence != sequence || found_cue != cue_id {
                    return invalid_posting(found_sequence, found_cue, OTHER_POSTING);
                }
            },
        }
        place += 1;
        index += 1;
    }
    assert(ids@.take(ids@.len() as int) =~= ids@);
    Ok(place)
}

proof fn lemma_scan_stops(
    atoms: Seq<EpisodeAtom>,
    cues: Seq<Pair>,
    rows: Seq<PostingRow>,
    end: int,
)
    requires
        0 <= end <= atoms.len(),
        scanned_postings(atoms.take(end), cues, rows) is Err,
    ensures
        scanned_postings(atoms, cues, rows) == scanned_postings(atoms.take(end), cues, rows),
    decreases atoms.len(),
{
    if end < atoms.len() {
        assert(atoms.drop_last().take(end) =~= atoms.take(end));
        lemma_scan_stops(atoms.drop_last(), cues, rows, end);
    } else {
        assert(atoms.take(end) =~= atoms);
    }
}

/// Holds the postings to the cues of the first episodes: every cue has its
/// row, identifiers follow first occurrences, and no posting is left over.
pub fn validate_postings(
    rows: &[PostingRow],
    atoms: &[EpisodeAtom],
    indexed_episode_count: u64,
    catalog: &CueCatalog,
) -> (result: Result<u64, IndexError>)
    requires
        indexed_episode_count <= atoms@.len(),
    ensures
        match (
            validated_postings(atoms@.take(indexed_episode_count as int), catalog@, rows@),
            result,
        ) {
            (Ok(expected), Ok(count)) => count == expected,
            (Err(expected), Err(error)) => error == expected,
            _ => false,
        },
{
    let ghost covered = atoms@.take(indexed_episode_count as int);
    let cue_count: usize = catalog.len();
    let length: usize = atoms.len();
    let take: usize = indexed_episode_count as usize;
    let mut next: u64 = 0;
    let mut position: usize = 0;
    let mut index: usize = 0;
    assert(covered.take(0) =~= Seq::empty());
    while index < take
        invariant
            index <= take,
            take == indexed_episode_count,
            take <= atoms@.len(),
            covered == atoms@.take(indexed_episode_count as int),
            cue_count == catalog@.len(),
            next <= cue_count,
            position <= rows@.len(),
            scanned_postings(covered.take(index as int), catalog@, rows@) == Ok::<
                (nat, nat),
                IndexError,
            >((next as nat, position as nat)),
        decreases take - index,
    {
        let episode = &atoms[index];
        proof {
            let part = covered.take(index + 1);
            assert(part.drop_last() =~= covered.take(index as int));
            assert(part.last() == *episode);
            if scanned_postings(part, catalog@, rows@) is Err {
                lemma_scan_stops(covered, catalog@, rows@, index + 1);
            }
        }
        let sequence: u64 = episode.id().sequence();
        let pairs = list_pairs(episode.attributes());
        let (reached, ids) = match check_pairs(pairs.as_slice(), catalog, sequence, next) {
            Ok(found) => found,
            Err(error) => {
                return Err(error);
            },
        };
        let sorted = ascending(ids.as_slice());
        match match_postings(rows, position, sequence, sorted.as_slice()) {
            Ok(place) => {
                position = place;
            },
            Err(error) => {
                return Err(error);
            },
        }
        next = reached;
        index += 1;
    }
    assert(covered.take(covered.len() as int) =~= covered);
    if position < rows.len() {
        return match read_posting(&rows[position]) {
            Err(error) => Err(error),
            Ok((sequence, cue_id)) => invalid_posting(sequence, cue_id, OUTSIDE_PREFIX),
        };
    }
    if next < cue_count as u64 {
        return invalid_index(
            IndexIntegrityError::InvalidCue { cue_id: next, detail: UNUSED_CUE },
        );
    }
    Ok(position as u64)
}

/// A cue that has no embedding yet.
#[derive(Clone, Copy, Debug, PartialEq, Eq, Structural)]
pub struct NewCue {
    /// Identifier that the cue takes.
    pub cue_id: u64,
    /// Attribute key.
    pub key_id: u64,
    /// Attribute value.
    pub value_id: u64,
}

/// The changes that cover the episodes behind an index.
pub struct SyncPlan {
    /// The catalog with the new cues.
    pub catalog: CueCatalog,
    /// The new cues in identifier order.
    pub new_cues: Vec<NewCue>,
    /// The new postings in the order of sequences and cues.
    pub postings: Vec<(u64, u64)>,
}

/// The new cues are the pairs behind the first `start` ones.
pub open spec fn lists_new_cues(cues: Seq<NewCue>, pairs: Seq<Pair>, start: nat) -> bool {
    &&& cues.len() == pairs.len() - start
    &&& forall|i: int|
        0 <= i < cues.len() ==> {
            let cue = #[trigger] cues[i];
            cue.cue_id == start + i && (cue.key_id, cue.value_id) == pairs[start + i]
        }
}

/// The first list starts the second.
pub open spec fn starts(first: Seq<Pair>, second: Seq<Pair>) -> bool {
    first.len() <= second.len() && first == second.take(first.len() as int)
}

/// Adding pairs keeps the listed ones, and lists each pair once.
pub proof fn lemma_add_pairs(known: Seq<Pair>, pairs: Seq<Pair>)
    requires
        distinct_pairs(known),
    ensures
        distinct_pairs(add_pairs(known, pairs)),
        starts(known, add_pairs(known, pairs)),
        forall|i: int|
            0 <= i < pairs.len() ==> lists_pair(add_pairs(known, pairs), #[trigger] pairs[i]),
    decreases pairs.len(),
{
    let all = add_pairs(known, pairs);
    if pairs.len() == 0 {
        assert(known.take(known.len() as int) =~= known);
    } else {
        let rest = pairs.drop_last();
        lemma_add_pairs(known, rest);
        let before = add_pairs(known, rest);
        if !lists_pair(before, pairs.last()) {
            assert(all.take(known.len() as int) =~= before.take(known.len() as int));
            assert forall|i: int, j: int|
                #![trigger all[i], all[j]]
                0 <= i < j < all.len() implies all[i] != all[j] by {
                if j == before.len() {
                    assert(before[i] == all[i]);
                } else {
                    assert(before[i] != before[j]);
                }
            }
            assert(all[before.len() as int] == pairs.last());
        }
        assert forall|i: int| 0 <= i < pairs.len() implies lists_pair(all, #[trigger] pairs[i]) by {
            if i < rest.len() {
                assert(rest[i] == pairs[i]);
                assert(lists_pair(before, rest[i]));
                let k = choose|k: int| 0 <= k < before.len() && #[trigger] before[k] == pairs[i];
                assert(all[k] == pairs[i]);
            }
        }
    }
}

/// Adding episodes keeps the listed pairs, and lists each pair once.
pub proof fn lemma_add_episodes(known: Seq<Pair>, atoms: Seq<EpisodeAtom>)
    requires
        distinct_pairs(known),
    ensures
        distinct_pairs(add_episodes(known, atoms)),
        starts(known, add_episodes(known, atoms)),
    decreases atoms.len(),
{
    if atoms.len() == 0 {
        assert(known.take(known.len() as int) =~= known);
    } else {
        let before = add_episodes(known, atoms.drop_last());
        lemma_add_episodes(known, atoms.drop_last());
        lemma_add_pairs(before, pairs_of(atoms.last().groups()));
        let all = add_episodes(known, atoms);
        assert(all.take(known.len() as int) =~= before.take(known.len() as int)) by {
            assert(before == all.take(before.len() as int));
        }
    }
}

/// Listed pairs keep their places in a longer list.
pub proof fn lemma_same_place(short: Seq<Pair>, long: Seq<Pair>, pair: Pair)
    requires
        distinct_pairs(long),
        starts(short, long),
        lists_pair(short, pair),
    ensures
        lists_pair(long, pair),
        place_of(short, pair) == place_of(long, pair),
        place_of(short, pair) < short.len(),
{
    let place = place_of(short, pair);
    assert(0 <= place < short.len() && short[place] == pair);
    assert(long[place] == pair) by {
        assert(long.take(short.len() as int)[place] == long[place]);
    }
    lemma_place(long, place);
}

proof fn lemma_same_ids(short: Seq<Pair>, long: Seq<Pair>, pairs: Seq<Pair>)
    requires
        distinct_pairs(long),
        starts(short, long),
        forall|i: int| 0 <= i < pairs.len() ==> lists_pair(short, #[trigger] pairs[i]),
    ensures
        cue_ids(short, pairs) == cue_ids(long, pairs),
{
    assert forall|i: int| 0 <= i < pairs.len() implies cue_ids(short, pairs)[i] == cue_ids(
        long,
        pairs,
    )[i] by {
        lemma_same_place(short, long, pairs[i]);
    }
    assert(cue_ids(short, pairs) =~= cue_ids(long, pairs));
}

/// The postings of episodes are the same by a longer catalog.
pub proof fn lemma_same_postings(
    atoms: Seq<EpisodeAtom>,
    known: Seq<Pair>,
    short: Seq<Pair>,
    long: Seq<Pair>,
)
    requires
        distinct_pairs(known),
        distinct_pairs(long),
        starts(short, long),
        starts(add_episodes(known, atoms), short),
    ensures
        postings_of(atoms, short) == postings_of(atoms, long),
    decreases atoms.len(),
{
    if atoms.len() > 0 {
        let pairs = pairs_of(atoms.last().groups());
        let before = add_episodes(known, atoms.drop_last());
        lemma_add_episodes(known, atoms.drop_last());
        lemma_add_pairs(before, pairs);
        let all = add_pairs(before, pairs);
        assert(before =~= short.take(before.len() as int)) by {
            assert(all == short.take(all.len() as int));
            assert(before == all.take(before.len() as int));
        }
        lemma_same_postings(atoms.drop_last(), known, short, long);
        assert forall|i: int| 0 <= i < pairs.len() implies lists_pair(
            short,
            #[trigger] pairs[i],
        ) by {
            assert(lists_pair(all, pairs[i]));
            let k = choose|k: int| 0 <= k < all.len() && #[trigger] all[k] == pairs[i];
            assert(short.take(all.len() as int)[k] == short[k]);
            assert(short[k] == pairs[i]);
        }
        lemma_same_ids(short, long, pairs);
    }
}

fn plan_episode(
    pairs: &[Pair],
    sequence: u64,
    catalog: &mut CueCatalog,
    new_cues: &mut Vec<NewCue>,
    postings: &mut Vec<(u64, u64)>,
    Ghost(start): Ghost<nat>,
)
    requires
        start <= old(catalog)@.len(),
        lists_new_cues(old(new_cues)@, old(catalog)@, start),
        distinct_pairs(old(catalog)@),
    ensures
        final(catalog)@ == add_pairs(old(catalog)@, pairs@),
        lists_new_cues(final(new_cues)@, final(catalog)@, start),
        final(postings)@ == old(postings)@ + episode_postings(
            sequence,
            cue_ids(final(catalog)@, pairs@),
        ),
{
    let ghost known = catalog@;
    let mut ids: Vec<u64> = Vec::new();
    let mut index: usize = 0;
    proof {
        assert(pairs@.take(0) =~= Seq::empty());
        assert(cue_ids(catalog@, pairs@.take(0)) =~= Seq::empty());
    }
    while index < pairs.len()
        invariant
            index <= pairs@.len(),
            start <= known.len(),
            distinct_pairs(known),
            catalog@ == add_pairs(known, pairs@.take(index as int)),
            lists_new_cues(new_cues@, catalog@, start),
            start <= catalog@.len(),
            ids@ == cue_ids(catalog@, pairs@.take(index as int)),
        decreases pairs.len() - index,
    {
        let pair = pairs[index];
        let ghost before = catalog@;
        let ghost earlier = pairs@.take(index as int);
        let ghost part = pairs@.take(index + 1);
        proof {
            assert(part.drop_last() =~= earlier);
            assert(part.last() == pair);
            lemma_add_pairs(known, earlier);
            lemma_add_pairs(known, part);
        }
        let id: u64 = match catalog.find(pair) {
            Some(id) => id,
            None => {
                let id: u64 = catalog.insert(pair);
                new_cues.push(NewCue { cue_id: id, key_id: pair.0, value_id: pair.1 });
                id
            },
        };
        ids.push(id);
        proof {
            let after = catalog@;
            assert(after == add_pairs(known, part));
            assert(starts(before, after)) by {
                assert(after.take(before.len() as int) =~= before);
            }
            lemma_same_ids(before, after, earlier);
            assert(lists_pair(after, pair)) by {
                assert(lists_pair(add_pairs(known, part), part[part.len() - 1]));
            }
            if lists_pair(before, pair) {
                lemma_same_place(before, after, pair);
            } else {
                lemma_place(after, before.len() as int);
            }
            assert(cue_ids(after, part) =~= cue_ids(after, earlier).push(id));
        }
        index += 1;
    }
    assert(pairs@.take(pairs@.len() as int) =~= pairs@);
    let sorted = ascending(ids.as_slice());
    let ghost planned = postings@;
    let ghost added = episode_postings(sequence, ids@);
    let mut place: usize = 0;
    assert(planned + added.take(0) =~= planned);
    while place < sorted.len()
        invariant
            place <= sorted@.len(),
            added == sorted@.map_values(|id: u64| (sequence, id)),
            postings@ == planned + added.take(place as int),
        decreases sorted.len() - place,
    {
        postings.push((sequence, sorted[place]));
        proof {
            assert(postings@ =~= planned + added.take(place + 1));
        }
        place += 1;
    }
    assert(added.take(place as int) =~= added);
}

/// Plans the cues and postings of the episodes behind the first `start` ones.
pub fn plan_tail(atoms: &[EpisodeAtom], start: usize, catalog: CueCatalog) -> (plan: SyncPlan)
    requires
        start <= atoms@.len(),
    ensures
        plan.catalog@ == add_episodes(catalog@, atoms@.skip(start as int)),
        lists_new_cues(plan.new_cues@, plan.catalog@, catalog@.len()),
        plan.postings@ == postings_of(atoms@.skip(start as int), plan.catalog@),
{
    let known: usize = catalog.len();
    let ghost first = catalog@;
    let ghost fresh = atoms@.skip(start as int);
    let mut catalog: CueCatalog = catalog;
    let mut new_cues: Vec<NewCue> = Vec::new();
    let mut postings: Vec<(u64, u64)> = Vec::new();
    let mut index: usize = start;
    assert(fresh.take(0) =~= Seq::empty());
    while index < atoms.len()
        invariant
            start <= index <= atoms@.len(),
            fresh == atoms@.skip(start as int),
            distinct_pairs(first),
            catalog@ == add_episodes(first, fresh.take(index - start)),
            first.len() <= catalog@.len(),
            lists_new_cues(new_cues@, catalog@, first.len()),
            postings@ == postings_of(fresh.take(index - start), catalog@),
        decreases atoms.len() - index,
    {
        let episode = &atoms[index];
        let ghost earlier = fresh.take(index - start);
        let ghost part = fresh.take(index + 1 - start);
        let ghost before = catalog@;
        proof {
            assert(part.drop_last() =~= earlier);
            assert(part.last() == *episode);
            lemma_add_episodes(first, earlier);
            lemma_add_episodes(first, part);
        }
        let pairs = list_pairs(episode.attributes());
        plan_episode(
            pairs.as_slice(),
            episode.id().sequence(),
            &mut catalog,
            &mut new_cues,
            &mut postings,
            Ghost(first.len()),
        );
        proof {
            let after = catalog@;
            assert(after == add_episodes(first, part));
            lemma_add_pairs(before, pairs@);
            assert(before.take(before.len() as int) =~= before);
            lemma_same_postings(earlier, first, before, after);
        }
        index += 1;
    }
    assert(fresh.take(index - start) =~= fresh);
    SyncPlan { catalog, new_cues, postings }
}

} // verus!
