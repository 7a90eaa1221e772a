//! Reconstructing a memory from its persisted rows.

use vstd::prelude::*;

use crate::attribute::{EpisodeAtom, EpisodeDraft};
use crate::bytes::be_bytes;
use crate::memory::Memory;
use crate::model::{FeedbackTrace, MemoryId, TimestampMs};
use crate::sqlite::episode_codec::{
    decode_episode, encode_episode, episode_bytes, law_episode_payload_round_trip, parse_episode,
    storable_groups,
};
use crate::sqlite::error::{StoreError, StoreIntegrityError};
use crate::sqlite::feedback::{
    encodes, law_feedback_row_round_trip, ordered, restored, sequence_blob, table, edge_table,
    FeedbackRecord, FeedbackRow,
};
use crate::sqlite::normalize::{normalized, SymbolValueError};
use crate::sqlite::row::{bad_encoding, read_u64, u64_in, Value};
use crate::sqlite::symbol_checks::{
    encodes_symbol, law_symbol_row_round_trip, persisted_symbol_error, unknown_symbol,
    validate_persisted_episode_symbols,
};
use crate::sqlite::symbols::{catalog, identifier_space, SymbolRow, SymbolState};
use crate::sqlite::vectors::{
    component_bytes, first_fault, law_vectors_are_canonical_embeddings, VectorRow,
};
use crate::sqlite::wire::law_u64_encoding;

verus! {

const EPISODE_TABLE: &'static str = "episodes";

const SEQUENCE_COLUMN: &'static str = "sequence";

const PAYLOAD_COLUMN: &'static str = "payload";

/// A timestamp and canonical attribute groups.
pub type StoredEpisode = (TimestampMs, Seq<(u64, Seq<u64>)>);

/// One row of the episode table, in the order of its columns.
#[derive(Clone, Debug, PartialEq, Eq)]
pub struct EpisodeRow {
    /// Episode sequence.
    pub sequence: Value,
    /// Encoded episode.
    pub payload: Value,
}

/// Why persisted rows are not a snapshot.
pub ghost enum SnapshotFault {
    /// A fault whose every part is fixed.
    Known(StoreError),
    /// An episode payload violates a rule of its encoding.
    Payload {
        /// Sequence of the episode.
        sequence: u64,
        /// Violated rule.
        detail: Seq<char>,
    },
    /// The quick check reported the diagnostics.
    QuickCheck {
        /// Joined diagnostics.
        detail: Seq<char>,
    },
}

/// The error reports the fault.
pub open spec fn reports(error: StoreError, fault: SnapshotFault) -> bool {
    match fault {
        SnapshotFault::Known(expected) => error == expected,
        SnapshotFault::Payload { sequence, detail } => error matches StoreError::InvalidStore(
            StoreIntegrityError::InvalidEpisode { sequence: found, detail: rule },
        ) && found == sequence && rule@ == detail,
        SnapshotFault::QuickCheck { detail } => error matches StoreError::InvalidStore(
            StoreIntegrityError::QuickCheckFailed { detail: text },
        ) && text@ == detail,
    }
}

/// The episode that a row holds at its place.
pub open spec fn episode_in(row: EpisodeRow, expected: nat, persisted: nat) -> Result<
    StoredEpisode,
    SnapshotFault,
> {
    match u64_in(row.sequence, "episodes", "sequence") {
        Err(error) => Err(SnapshotFault::Known(error)),
        Ok(sequence) => if sequence != expected {
            Err(
                SnapshotFault::Known(
                    StoreError::InvalidStore(
                        StoreIntegrityError::NonContiguousEpisodeSequence {
                            expected: expected as u64,
                            found: sequence,
                        },
                    ),
                ),
            )
        } else {
            match row.payload {
                Value::Blob(bytes) => match parse_episode(bytes@) {
                    Err(detail) => Err(SnapshotFault::Payload { sequence, detail }),
                    Ok((timestamp, groups)) => match unknown_symbol(groups, persisted) {
                        Some(unknown) => Err(
                            SnapshotFault::Known(persisted_symbol_error(sequence, unknown)),
                        ),
                        None => Ok((timestamp, groups)),
                    },
                },
                _ => Err(SnapshotFault::Known(bad_encoding("episodes", "payload"))),
            }
        },
    }
}

/// The episodes that the rows hold, with every symbol below the bound.
pub open spec fn episodes_in(rows: Seq<EpisodeRow>, persisted: nat) -> Result<
    Seq<StoredEpisode>,
    SnapshotFault,
>
    decreases rows.len(),
{
    if rows.len() == 0 {
        Ok(Seq::empty())
    } else {
        match episodes_in(rows.drop_last(), persisted) {
            Err(fault) => Err(fault),
            Ok(episodes) => match episode_in(rows.last(), (rows.len() - 1) as nat, persisted) {
                Err(fault) => Err(fault),
                Ok(episode) => Ok(episodes.push(episode)),
            },
        }
    }
}

/// What an atom stores.
pub open spec fn stored(atom: EpisodeAtom) -> StoredEpisode {
    (atom.content().timestamp, atom.groups())
}

/// What atoms store.
pub open spec fn stored_episodes(atoms: Seq<EpisodeAtom>) -> Seq<StoredEpisode> {
    atoms.map_values(|atom: EpisodeAtom| stored(atom))
}

proof fn lemma_episodes_stop(rows: Seq<EpisodeRow>, persisted: nat, end: int)
    requires
        0 <= end <= rows.len(),
        episodes_in(rows.take(end), persisted) is Err,
    ensures
        episodes_in(rows, persisted) == episodes_in(rows.take(end), persisted),
    decreases rows.len(),
{
    if end < rows.len() {
        assert(rows.drop_last().take(end) =~= rows.take(end));
        lemma_episodes_stop(rows.drop_last(), persisted, end);
    } else {
        assert(rows.take(end) =~= rows);
    }
}

fn read_episode(row: &EpisodeRow, expected: u64, symbols: &SymbolState) -> (result: Result<
    EpisodeDraft,
    StoreError,
>)
    ensures
        match (episode_in(*row, expected as nat, symbols.persisted()), result) {
            (Ok(episode), Ok(draft)) => draft.content().timestamp == episode.0 && draft.groups()
                == episode.1,
            (Err(fault), Err(error)) => reports(error, fault),
            _ => false,
        },
{
    let sequence: u64 = match read_u64(&row.sequence, EPISODE_TABLE, SEQUENCE_COLUMN) {
        Ok(sequence) => sequence,
        Err(error) => {
            return Err(error);
        },
    };
    if sequence != expected {
        return Err(
            StoreError::InvalidStore(
                StoreIntegrityError::NonContiguousEpisodeSequence { expected, found: sequence },
            ),
        );
    }
    let payload = match &row.payload {
        Value::Blob(payload) => payload,
        _ => {
            return Err(
                StoreError::InvalidStore(
                    StoreIntegrityError::InvalidEncoding {
                        table: EPISODE_TABLE,
                        column: PAYLOAD_COLUMN,
                    },
                ),
            );
        },
    };
    let draft = match decode_episode(payload.as_slice()) {
        Ok(draft) => draft,
        Err(error) => {
            return Err(
                StoreError::InvalidStore(
                    StoreIntegrityError::InvalidEpisode { sequence, detail: error.detail() },
                ),
            );
        },
    };
    match validate_persisted_episode_symbols(sequence, &draft, symbols) {
        Ok(_) => Ok(draft),
        Err(error) => Err(error),
    }
}

/// Rebuilds the episodes of a memory from their rows in sequence order.
pub fn reconstruct_memory(rows: &[EpisodeRow], memory_id: MemoryId, symbols: &SymbolState) -> (result:
    Result<Memory<EpisodeAtom>, StoreError>)
    ensures
        match (episodes_in(rows@, symbols.persisted()), result) {
            (Ok(episodes), Ok(memory)) => {
                &&& memory.wf()
                &&& memory.identifier() == memory_id
                &&& stored_episodes(memory.atoms()) == episodes
                &&& memory.traces() == Map::<(usize, usize), FeedbackTrace>::empty()
            },
            (Err(fault), Err(error)) => reports(error, fault),
            _ => false,
        },
{
    let mut memory: Memory<EpisodeAtom> = Memory::new(memory_id);
    let mut index: usize = 0;
    proof {
        assert(rows@.take(0) =~= Seq::empty());
        assert(stored_episodes(memory.atoms()) =~= Seq::empty());
    }
    while index < rows.len()
        invariant
            index <= rows@.len(),
            memory.wf(),
            memory.identifier() == memory_id,
            memory.traces() == Map::<(usize, usize), FeedbackTrace>::empty(),
            memory.atoms().len() == index,
            episodes_in(rows@.take(index as int), symbols.persisted()) == Ok::<
                Seq<StoredEpisode>,
                SnapshotFault,
            >(stored_episodes(memory.atoms())),
        decreases rows.len() - index,
    {
        proof {
            let part = rows@.take(index + 1);
            assert(part.drop_last() =~= rows@.take(index as int));
            assert(part.last() == rows@[index as int]);
            if episodes_in(part, symbols.persisted()) is Err {
                lemma_episodes_stop(rows@, symbols.persisted(), index + 1);
            }
        }
        match read_episode(&rows[index], index as u64, symbols) {
            Err(error) => {
                return Err(error);
            },
            Ok(draft) => {
                let ghost before = memory.atoms();
                let ghost episode = (draft.content().timestamp, draft.groups());
                let _ = memory.insert_episode(draft);
                proof {
                    let after = memory.atoms();
                    assert(after =~= before.push(after.last()));
                    assert(stored(after.last()) == episode);
                    assert(stored_episodes(after) =~= stored_episodes(before).push(episode));
                }
            },
        }
        index += 1;
    }
    assert(rows@.take(rows@.len() as int) =~= rows@);
    Ok(memory)
}

/// The row holds the episode in its persisted form.
pub open spec fn encodes_episode(row: EpisodeRow, sequence: nat, episode: StoredEpisode) -> bool {
    &&& row.sequence matches Value::Blob(bytes) && bytes@ == be_bytes(sequence, 8)
    &&& row.payload matches Value::Blob(bytes) && bytes@ == episode_bytes(episode.0, episode.1)
}

/// Lists the rows that append a memory's episodes behind the first `start` ones.
pub fn append_episodes(memory: &Memory<EpisodeAtom>, start: usize) -> (rows: Vec<EpisodeRow>)
    requires
        memory.wf(),
    ensures
        start <= memory.atoms().len() ==> rows@.len() == memory.atoms().len() - start,
        start > memory.atoms().len() ==> rows@.len() == 0,
        forall|i: int|
            0 <= i < rows@.len() ==> encodes_episode(
                #[trigger] rows@[i],
                (start + i) as nat,
                stored(memory.atoms()[start + i]),
            ),
{
    let atoms = memory.episodes();
    let mut rows: Vec<EpisodeRow> = Vec::new();
    let mut index: usize = start;
    while index < atoms.len()
        invariant
            start <= index,
            index <= atoms@.len() || index == start,
            atoms@ == memory.atoms(),
            rows@.len() == index - start,
            forall|i: int|
                0 <= i < rows@.len() ==> encodes_episode(
                    #[trigger] rows@[i],
                    (start + i) as nat,
                    stored(memory.atoms()[start + i]),
                ),
        decreases atoms.len() - index,
    {
        let mut payload: Vec<u8> = Vec::new();
        encode_episode(&atoms[index], &mut payload);
        let row = EpisodeRow {
            sequence: sequence_blob(index as u64),
            payload: Value::Blob(payload),
        };
        assert(encodes_episode(row, index as nat, stored(memory.atoms()[index as int])));
        rows.push(row);
        index += 1;
    }
    rows
}

/// Rows that hold a snapshot, with the rows of later episodes behind them,
/// hold the snapshot with those episodes.
///
/// The later episodes are canonical and use persisted symbols only.
pub proof fn law_appended_episodes_are_read_back(
    rows: Seq<EpisodeRow>,
    added: Seq<EpisodeRow>,
    later: Seq<StoredEpisode>,
    before: nat,
    persisted: nat,
)
    requires
        rows.len() + added.len() <= u64::MAX,
        before <= persisted,
        episodes_in(rows, before) is Ok,
        added.len() == later.len(),
        forall|i: int|
            0 <= i < added.len() ==> {
                &&& encodes_episode(#[trigger] added[i], rows.len() + i as nat, later[i])
                &&& storable_groups(later[i].1)
                &&& unknown_symbol(later[i].1, persisted) is None
            },
    ensures
        episodes_in(rows + added, persisted) == Ok::<Seq<StoredEpisode>, SnapshotFault>(
            episodes_in(rows, before)->Ok_0 + later,
        ),
    decreases added.len(),
{
    let episodes = episodes_in(rows, before)->Ok_0;
    if added.len() == 0 {
        assert(rows + added =~= rows);
        assert(episodes + later =~= episodes);
        lemma_more_symbols(rows, before, persisted);
    } else {
        let shorter = added.drop_last();
        let fewer = later.drop_last();
        assert forall|i: int| 0 <= i < shorter.len() implies {
            &&& encodes_episode(#[trigger] shorter[i], rows.len() + i as nat, fewer[i])
            &&& storable_groups(fewer[i].1)
            &&& unknown_symbol(fewer[i].1, persisted) is None
        } by {
            assert(shorter[i] == added[i]);
            assert(fewer[i] == later[i]);
        }
        law_appended_episodes_are_read_back(rows, shorter, fewer, before, persisted);
        let all = rows + added;
        assert(all.drop_last() =~= rows + shorter);
        assert(all.last() == added.last());
        let place = added.len() - 1;
        let sequence = (rows.len() + place) as nat;
        assert(encodes_episode(added[place], sequence, later[place]));
        law_u64_encoding(sequence as u64, sequence as u64, be_bytes(sequence, 8));
        law_episode_payload_round_trip(later[place].0, later[place].1);
        assert(episodes + later =~= (episodes + fewer).push(later.last()));
    }
}

proof fn lemma_more_symbols(rows: Seq<EpisodeRow>, small: nat, large: nat)
    requires
        small <= large,
        episodes_in(rows, small) is Ok,
    ensures
        episodes_in(rows, large) == episodes_in(rows, small),
    decreases rows.len(),
{
    if rows.len() > 0 {
        lemma_more_symbols(rows.drop_last(), small, large);
        let episode = episode_in(rows.last(), (rows.len() - 1) as nat, small)->Ok_0;
        lemma_known_symbols(episode.1, small, large);
    }
}

proof fn lemma_known_symbols(all: Seq<(u64, Seq<u64>)>, small: nat, large: nat)
    requires
        small <= large,
        unknown_symbol(all, small) is None,
    ensures
        unknown_symbol(all, large) is None,
    decreases all.len(),
{
    if all.len() > 0 {
        lemma_known_values(all[0].1, small, large);
        lemma_known_symbols(all.drop_first(), small, large);
    }
}

proof fn lemma_known_values(values: Seq<u64>, small: nat, large: nat)
    requires
        small <= large,
        crate::sqlite::symbol_checks::first_beyond(values, small) is None,
    ensures
        crate::sqlite::symbol_checks::first_beyond(values, large) is None,
    decreases values.len(),
{
    if values.len() > 0 {
        lemma_known_values(values.drop_first(), small, large);
    }
}

/// Feedback rows written for a memory's edges are restored to the same edges.
pub proof fn law_feedback_rows_are_read_back(
    rows: Seq<FeedbackRow>,
    records: Seq<FeedbackRecord>,
    count: nat,
)
    requires
        ordered(records),
        count <= usize::MAX,
        rows.len() == records.len(),
        forall|i: int|
            0 <= i < rows.len() ==> {
                &&& encodes(#[trigger] rows[i], records[i])
                &&& records[i].from != records[i].to
                &&& records[i].from < count
                &&& records[i].to < count
                &&& records[i].trace.canonical()
            },
    ensures
        restored(rows, count, Map::empty()) is Ok,
        edge_table(restored(rows, count, Map::empty())->Ok_0) == table(records),
        forall|pair: (usize, usize)| #[trigger]
            restored(rows, count, Map::empty())->Ok_0.contains_key(pair) ==> pair.0 < count
                && pair.1 < count,
    decreases rows.len(),
{
    let empty = Map::<(usize, usize), FeedbackTrace>::empty();
    if rows.len() == 0 {
        assert(edge_table(empty) =~= table(records));
    } else {
        let shorter = rows.drop_last();
        let fewer = records.drop_last();
        assert forall|i: int| 0 <= i < shorter.len() implies {
            &&& encodes(#[trigger] shorter[i], fewer[i])
            &&& fewer[i].from != fewer[i].to
            &&& fewer[i].from < count
            &&& fewer[i].to < count
            &&& fewer[i].trace.canonical()
        } by {
            assert(shorter[i] == rows[i]);
            assert(fewer[i] == records[i]);
        }
        assert(ordered(fewer)) by {
            assert forall|i: int, j: int|
                #![trigger fewer[i], fewer[j]]
                0 <= i < j < fewer.len() implies crate::sqlite::feedback::key_before(
                fewer[i].key(),
                fewer[j].key(),
            ) by {
                assert(fewer[i] == records[i]);
                assert(fewer[j] == records[j]);
            }
        }
        law_feedback_rows_are_read_back(shorter, fewer, count);
        let place = rows.len() - 1;
        let last = records[place];
        assert(encodes(rows[place], records[place]));
        law_feedback_row_round_trip(rows[place], last);
        let before = restored(shorter, count, empty)->Ok_0;
        let after = restored(rows, count, empty)->Ok_0;
        assert(after == before.insert((last.from as usize, last.to as usize), last.trace));
        crate::sqlite::feedback::lemma_table_push(fewer, last);
        assert(records =~= fewer.push(last));
        assert(edge_table(after) =~= edge_table(before).insert(last.key(), last.trace));
    }
}

/// A catalog with the rows of staged symbols behind it is the longer catalog.
pub proof fn law_staged_symbols_extend_the_catalog(
    rows: Seq<SymbolRow>,
    added: Seq<SymbolRow>,
    staged: Seq<Seq<char>>,
)
    requires
        catalog(rows) is Ok,
        catalog(rows)->Ok_0 + staged.len() <= identifier_space(),
        added.len() == staged.len(),
        forall|i: int|
            0 <= i < added.len() ==> {
                &&& encodes_symbol(
                    #[trigger] added[i],
                    (catalog(rows)->Ok_0 + i) as u64,
                    staged[i],
                )
                &&& normalized(staged[i]) == Ok::<Seq<char>, SymbolValueError>(staged[i])
            },
    ensures
        catalog(rows + added) == Ok::<nat, StoreError>(catalog(rows)->Ok_0 + staged.len()),
    decreases added.len(),
{
    let count = catalog(rows)->Ok_0;
    if added.len() == 0 {
        assert(rows + added =~= rows);
    } else {
        let shorter = added.drop_last();
        let fewer = staged.drop_last();
        assert forall|i: int| 0 <= i < shorter.len() implies {
            &&& encodes_symbol(#[trigger] shorter[i], (count + i) as u64, fewer[i])
            &&& normalized(fewer[i]) == Ok::<Seq<char>, SymbolValueError>(fewer[i])
        } by {
            assert(shorter[i] == added[i]);
            assert(fewer[i] == staged[i]);
        }
        law_staged_symbols_extend_the_catalog(rows, shorter, fewer);
        let all = rows + added;
        assert(all.drop_last() =~= rows + shorter);
        assert(all.last() == added.last());
        let place = added.len() - 1;
        assert(encodes_symbol(added[place], (count + place) as u64, staged[place]));
        law_symbol_row_round_trip(added[place], (count + place) as u64, staged[place]);
    }
}

/// The row holds the vector in its persisted form.
pub open spec fn encodes_vector(row: VectorRow, sequence: nat, vector: Seq<i16>) -> bool {
    &&& row.sequence matches Value::Blob(bytes) && bytes@ == be_bytes(sequence, 8)
    &&& row.vector matches Value::Blob(bytes) && bytes@ == component_bytes(vector)
}

/// Audited vectors with the rows of later embeddings behind them pass the audit.
pub proof fn law_appended_vectors_pass_the_audit(
    rows: Seq<VectorRow>,
    added: Seq<VectorRow>,
    vectors: Seq<Seq<i16>>,
)
    requires
        rows.len() + added.len() <= u64::MAX,
        first_fault(rows) is None,
        added.len() == vectors.len(),
        forall|i: int|
            0 <= i < added.len() ==> {
                &&& encodes_vector(#[trigger] added[i], rows.len() + i as nat, vectors[i])
                &&& crate::semantic::model::canonical_components(vectors[i])
            },
    ensures
        first_fault(rows + added) is None,
    decreases added.len(),
{
    if added.len() == 0 {
        assert(rows + added =~= rows);
    } else {
        let shorter = added.drop_last();
        let fewer = vectors.drop_last();
        assert forall|i: int| 0 <= i < shorter.len() implies {
            &&& encodes_vector(#[trigger] shorter[i], rows.len() + i as nat, fewer[i])
            &&& crate::semantic::model::canonical_components(fewer[i])
        } by {
            assert(shorter[i] == added[i]);
            assert(fewer[i] == vectors[i]);
        }
        law_appended_vectors_pass_the_audit(rows, shorter, fewer);
        let all = rows + added;
        assert(all.drop_last() =~= rows + shorter);
        let place = added.len() - 1;
        let sequence = (rows.len() + place) as nat;
        assert(encodes_vector(added[place], sequence, vectors[place]));
        law_u64_encoding(sequence as u64, sequence as u64, be_bytes(sequence, 8));
        law_vectors_are_canonical_embeddings(vectors[place], component_bytes(vectors[place]));
    }
}

} // verus!
