//! One open store: its memory, its staged symbols and vectors, and its saves.

use vstd::prelude::*;

use crate::attribute::{numbers, EpisodeAtom};
use crate::bytes::be_value;
use crate::memory::ranking::{is_ranking, scores, RecallHit};
use crate::memory::{Memory, Traces};
use crate::model::{MemoryId, SymbolId};
use crate::order::increasing;
use crate::semantic::model::Embedding;
use crate::sqlite::error::{invalid_metadata, StoreError, StoreIntegrityError};
use crate::sqlite::feedback::{
    edge_table, lists_table, merge, reconcile, records_in, restore, restored, FeedbackPlan,
    FeedbackRecord, FeedbackRow,
};
use crate::sqlite::format::{
    metadata_error, object_contents, quick_faults, read_metadata, verify_application_id,
    verify_quick_check, verify_schema, MetadataRow, ObjectContent, SchemaObject, APPLICATION_ID,
};
use crate::sqlite::prepare::{
    episode_pairs, list_symbols, owned_pairs, symbols_in, text_pairs, texts_by_id,
};
use crate::sqlite::row::Value;
use crate::sqlite::semantic_recall::{
    normalize_query, rank_episode_vectors, semantic_field, verify_snapshot,
};
use crate::sqlite::snapshot::{
    append_episodes, encodes_episode, episodes_in, reconstruct_memory, reports, stored,
    stored_episodes, EpisodeRow, SnapshotFault, StoredEpisode,
};
use crate::sqlite::symbol_checks::{
    appended_since, optional_bytes, read_tail, tail_in, unknown_in_episodes,
    validate_new_episode_symbols, verify_symbol_tail,
};
use crate::sqlite::symbols::{
    bad_metadata, catalog, through, validate_symbol_catalog, SymbolRow, SymbolState,
};
use crate::sqlite::vectors::{
    closes_prefix, component_bytes, exceeds_space, vector_contents, verify_tail, SemanticState,
    VectorRow,
};
use crate::text::joined;
use crate::text_table::contents;

verus! {

const COUNT_EXCEEDS: &'static str = "persisted episode count exceeds in-memory episode count";

const OTHER_MEMORY: &'static str = "persisted memory ID differs from the owned memory";

const EPISODE_TAIL_CHANGED: &'static str =
    "persisted episode tail changed outside this store session";

const SINGLETON_CHANGED: &'static str = "metadata singleton changed during the save transaction";

const NOT_EMPTY: &'static str = "new store differs from its initialized empty snapshot";

const PREPARED_OVERFLOW: &'static str = "prepared semantic episode count overflowed";

const PREPARED_EXCEEDS: &'static str =
    "prepared semantic episode count exceeds in-memory episode count";

/// What identifies a database: its header, its metadata and its objects.
#[derive(Debug)]
pub struct DatabaseIdentity {
    /// Application identifier in the header.
    pub application_id: i64,
    /// Rows of the metadata table.
    pub metadata: Vec<MetadataRow>,
    /// Persistent objects, ordered by kind and name.
    pub schema: Vec<SchemaObject>,
}

/// The error of a database that is not of this format.
pub open spec fn identity_error(
    identity: DatabaseIdentity,
    canonical: Seq<ObjectContent>,
) -> Option<StoreError> {
    if identity.application_id != APPLICATION_ID {
        Some(
            StoreError::InvalidStore(
                StoreIntegrityError::ApplicationMismatch { found: identity.application_id },
            ),
        )
    } else {
        match metadata_error(identity.metadata@) {
            Some(error) => Some(error),
            None => if object_contents(identity.schema@) != canonical {
                Some(bad_metadata("database schema differs from the SQLite contract"))
            } else {
                None
            },
        }
    }
}

/// The number of the memory that the metadata names.
pub open spec fn named_memory(metadata: Seq<MetadataRow>) -> nat {
    match metadata[0].memory_id {
        Value::Blob(bytes) => be_value(bytes@),
        _ => 0,
    }
}

/// The revision that the metadata names.
pub open spec fn named_revision(metadata: Seq<MetadataRow>) -> i64 {
    match metadata[0].snapshot_revision {
        Value::Integer(revision) => revision,
        _ => 0,
    }
}

/// Verifies the identity and reads the memory identifier and the revision.
pub fn verify_identity(identity: &DatabaseIdentity, canonical: &[SchemaObject]) -> (result: Result<
    (MemoryId, i64),
    StoreError,
>)
    ensures
        match (identity_error(*identity, object_contents(canonical@)), result) {
            (Some(expected), Err(error)) => error == expected,
            (None, Ok((memory_id, revision))) => {
                &&& memory_id@ == named_memory(identity.metadata@)
                &&& revision == named_revision(identity.metadata@)
                &&& revision >= 0
            },
            _ => false,
        },
{
    match verify_application_id(identity.application_id) {
        Ok(_) => {},
        Err(error) => {
            return Err(error);
        },
    }
    let (memory_id, revision) = match read_metadata(identity.metadata.as_slice()) {
        Ok(found) => found,
        Err(error) => {
            return Err(error);
        },
    };
    match verify_schema(identity.schema.as_slice(), canonical) {
        Ok(_) => Ok((memory_id, revision)),
        Err(error) => Err(error),
    }
}

/// Every row of a database that a session loads.
#[derive(Debug)]
pub struct SnapshotRows {
    /// What identifies the database.
    pub identity: DatabaseIdentity,
    /// Diagnostics of the quick checks, with their tables.
    pub quick_check: Vec<(&'static str, String)>,
    /// The symbol table in identifier order.
    pub symbols: Vec<SymbolRow>,
    /// The episode table in sequence order.
    pub episodes: Vec<EpisodeRow>,
    /// The last sequence of the vector table.
    pub vector_tail: Option<Vec<u8>>,
    /// The feedback table in key order.
    pub feedback: Vec<FeedbackRow>,
}

/// What a database holds.
pub ghost struct SnapshotContent {
    /// Number of the memory.
    pub memory: nat,
    /// Number of saves.
    pub revision: i64,
    /// Number of symbols.
    pub symbols: nat,
    /// The episodes in sequence order.
    pub episodes: Seq<StoredEpisode>,
    /// The feedback traces.
    pub traces: Traces,
}

/// The bytes of an optional owned blob.
pub open spec fn owned_bytes(blob: Option<Vec<u8>>) -> Option<Seq<u8>> {
    match blob {
        Some(bytes) => Some(bytes@),
        None => None,
    }
}

fn borrowed_bytes<'a>(blob: &'a Option<Vec<u8>>) -> (bytes: Option<&'a [u8]>)
    ensures
        optional_bytes(bytes) == owned_bytes(*blob),
{
    match blob {
        Some(bytes) => Some(bytes.as_slice()),
        None => None,
    }
}

/// The error of a last sequence that does not close the prefix.
pub open spec fn tail_error(
    tail: Option<Seq<u8>>,
    table: &'static str,
    count: nat,
    detail: &'static str,
) -> Option<StoreError> {
    match tail_in(tail, table, "sequence") {
        Err(error) => Some(error),
        Ok(actual) => if through(actual) == count {
            None
        } else {
            Some(bad_metadata(detail))
        },
    }
}

/// What the rows hold, or the first fault.
pub open spec fn snapshot_in(rows: SnapshotRows, canonical: Seq<ObjectContent>) -> Result<
    SnapshotContent,
    SnapshotFault,
> {
    match identity_error(rows.identity, canonical) {
        Some(error) => Err(SnapshotFault::Known(error)),
        None => if quick_faults(rows.quick_check@).len() > 0 {
            Err(
                SnapshotFault::QuickCheck {
                    detail: joined(quick_faults(rows.quick_check@), "; "@),
                },
            )
        } else {
            match catalog(rows.symbols@) {
                Err(error) => Err(SnapshotFault::Known(error)),
                Ok(symbols) => match episodes_in(rows.episodes@, symbols) {
                    Err(fault) => Err(fault),
                    Ok(episodes) => match tail_error(
                        owned_bytes(rows.vector_tail),
                        "episode_vectors",
                        episodes.len(),
                        "persisted episode-vector tail differs from the episode prefix",
                    ) {
                        Some(error) => Err(SnapshotFault::Known(error)),
                        None => match restored(rows.feedback@, episodes.len(), Map::empty()) {
                            Err(error) => Err(SnapshotFault::Known(error)),
                            Ok(traces) => Ok(
                                SnapshotContent {
                                    memory: named_memory(rows.identity.metadata@),
                                    revision: named_revision(rows.identity.metadata@),
                                    symbols,
                                    episodes,
                                    traces,
                                },
                            ),
                        },
                    },
                },
            }
        },
    }
}

/// An explicitly saved SQLite database and its owned in-memory state.
///
/// A store represents one logical memory. Mutating [`Self::memory_mut`] does
/// not write to disk; the rows of a save plan atomically persist the changes.
/// The database connection stays with the caller, who reads the rows that the
/// methods ask for and writes those that they list.
#[derive(Debug)]
pub struct SqliteStore {
    memory: Memory<EpisodeAtom>,
    persisted_episode_count: usize,
    expected_revision: i64,
    symbols: SymbolState,
    semantic: SemanticState,
}

/// What the database held when a save was planned.
#[derive(Debug)]
pub struct SaveObservation {
    /// What identifies the database.
    pub identity: DatabaseIdentity,
    /// The last sequence of the episode table.
    pub episode_tail: Option<Vec<u8>>,
    /// The last identifier of the symbol table.
    pub symbol_tail: Option<Vec<u8>>,
    /// The last sequence of the vector table.
    pub vector_tail: Option<Vec<u8>>,
    /// The feedback table in key order.
    pub feedback: Vec<FeedbackRow>,
}

/// The changes that one save makes, all of them or none.
#[derive(Debug)]
pub struct SavePlan {
    /// Revision that the metadata takes.
    pub next_revision: i64,
    /// Symbols to add, in identifier order.
    pub symbols: Vec<(u64, String)>,
    /// Episodes to add, in sequence order.
    pub episodes: Vec<EpisodeRow>,
    /// Vectors to add, in sequence order.
    pub vectors: Vec<(u64, Vec<u8>)>,
    /// Changes of the feedback table.
    pub feedback: FeedbackPlan,
}

impl SqliteStore {
    /// The owned memory.
    pub closed spec fn owned(&self) -> Memory<EpisodeAtom> {
        self.memory
    }

    /// The number of saved episodes.
    pub closed spec fn saved_episodes(&self) -> nat {
        self.persisted_episode_count as nat
    }

    /// The revision that this session works on.
    pub closed spec fn revision(&self) -> i64 {
        self.expected_revision
    }

    /// The persisted and staged symbols.
    pub closed spec fn catalog_state(&self) -> SymbolState {
        self.symbols
    }

    /// The vectors that are encoded and not saved.
    pub closed spec fn prepared(&self) -> Seq<Seq<i16>> {
        self.semantic.vectors()
    }

    /// The owned memory is consistent.
    pub open spec fn wf(&self) -> bool {
        self.owned().wf()
    }

    /// Validates the rows of a database and takes over its memory.
    pub fn load_snapshot(rows: &SnapshotRows, canonical: &[SchemaObject]) -> (result: Result<
        SqliteStore,
        StoreError,
    >)
        ensures
            match (snapshot_in(*rows, object_contents(canonical@)), result) {
                (Ok(content), Ok(store)) => {
                    &&& store.wf()
                    &&& store.owned().identifier()@ == content.memory
                    &&& stored_episodes(store.owned().atoms()) == content.episodes
                    &&& store.owned().traces() == content.traces
                    &&& store.saved_episodes() == content.episodes.len()
                    &&& store.revision() == content.revision
                    &&& store.catalog_state().persisted() == content.symbols
                    &&& store.catalog_state().staged() == Seq::<Seq<char>>::empty()
                    &&& store.prepared() == Seq::<Seq<i16>>::empty()
                },
                (Err(fault), Err(error)) => reports(error, fault),
                _ => false,
            },
    {
        let (memory_id, revision) = match verify_identity(&rows.identity, canonical) {
            Ok(found) => found,
            Err(error) => {
                return Err(error);
            },
        };
        match verify_quick_check(rows.quick_check.as_slice()) {
            Ok(_) => {},
            Err(error) => {
                return Err(error);
            },
        }
        let symbols = match validate_symbol_catalog(rows.symbols.as_slice()) {
            Ok(symbols) => symbols,
            Err(error) => {
                return Err(error);
            },
        };
        let mut memory = match reconstruct_memory(rows.episodes.as_slice(), memory_id, &symbols) {
            Ok(memory) => memory,
            Err(error) => {
                return Err(error);
            },
        };
        let episode_count: usize = memory.episodes().len();
        proof {
            assert(stored_episodes(memory.atoms()).len() == memory.atoms().len());
        }
        match verify_tail(borrowed_bytes(&rows.vector_tail), episode_count) {
            Ok(_) => {},
            Err(error) => {
                return Err(error);
            },
        }
        match restore(rows.feedback.as_slice(), &mut memory) {
            Ok(_) => {},
            Err(error) => {
                return Err(error);
            },
        }
        Ok(
            SqliteStore {
                memory,
                persisted_episode_count: episode_count,
                expected_revision: revision,
                symbols,
                semantic: SemanticState::new(),
            },
        )
    }

    /// Requires a new store to hold its memory and nothing else.
    pub fn verify_initial(&self, memory_id: MemoryId) -> (result: Result<(), StoreError>)
        ensures
            result == if self.owned().identifier()@ != memory_id@ || self.saved_episodes() != 0
                || self.revision() != 0 || self.catalog_state().persisted() != 0 {
                Err::<(), StoreError>(
                    bad_metadata("new store differs from its initialized empty snapshot"),
                )
            } else {
                Ok(())
            },
    {
        if self.memory.memory_id().get() != memory_id.get() || self.persisted_episode_count != 0
            || self.expected_revision != 0 || !self.symbols.is_persisted_empty() {
            return invalid_metadata(NOT_EMPTY);
        }
        Ok(())
    }

    /// Returns the durable identifier of the owned logical memory.
    pub fn memory_id(&self) -> (memory_id: MemoryId)
        ensures
            memory_id == self.owned().identifier(),
    {
        self.memory.memory_id()
    }

    /// Returns the owned memory for read-only operations.
    pub fn memory(&self) -> (memory: &Memory<EpisodeAtom>)
        ensures
            *memory == self.owned(),
    {
        &self.memory
    }

    /// Returns the owned memory for mutations that remain unsaved until a
    /// save succeeds.
    pub fn memory_mut(&mut self) -> (memory: &mut Memory<EpisodeAtom>)
        ensures
            *memory == old(self).owned(),
            final(self).owned() == *final(memory),
            final(self).saved_episodes() == old(self).saved_episodes(),
            final(self).revision() == old(self).revision(),
            final(self).catalog_state() == old(self).catalog_state(),
            final(self).prepared() == old(self).prepared(),
    {
        &mut self.memory
    }

    /// Returns the revision that this session works on.
    pub fn expected_revision(&self) -> (revision: i64)
        ensures
            revision == self.revision(),
    {
        self.expected_revision
    }

    /// Returns the number of saved episodes.
    pub fn persisted_episode_count(&self) -> (count: usize)
        ensures
            count == self.saved_episodes(),
    {
        self.persisted_episode_count
    }

    /// Returns the persisted and staged symbols.
    pub fn symbols(&self) -> (symbols: &SymbolState)
        ensures
            *symbols == self.catalog_state(),
    {
        &self.symbols
    }

    /// Returns the persisted and staged symbols for interning.
    pub fn symbols_mut(&mut self) -> (symbols: &mut SymbolState)
        ensures
            *symbols == old(self).catalog_state(),
            final(self).catalog_state() == *final(symbols),
            final(self).owned() == old(self).owned(),
            final(self).saved_episodes() == old(self).saved_episodes(),
            final(self).revision() == old(self).revision(),
            final(self).prepared() == old(self).prepared(),
    {
        &mut self.symbols
    }

    /// Requires every symbol of the unsaved episodes to be known.
    pub fn validate_symbols(&self) -> (result: Result<(), StoreError>)
        ensures
            match unknown_in_episodes(
                appended_since(self.owned().atoms(), self.saved_episodes()),
                self.catalog_state().allocated(),
            ) {
                Some(id) => result == Err::<(), StoreError>(StoreError::UnknownSymbolId { id }),
                None => result is Ok,
            },
    {
        validate_new_episode_symbols(&self.memory, self.persisted_episode_count, &self.symbols)
    }

    /// Lists the symbols of the episodes that still need a vector, each once
    /// and in ascending order; `None` if there is no such episode.
    pub fn begin_prepare(&self) -> (result: Result<Option<Vec<SymbolId>>, StoreError>)
        ensures
            ({
                let first = self.saved_episodes() + self.prepared().len();
                let count = self.owned().atoms().len();
                if first > usize::MAX {
                    result == Err::<Option<Vec<SymbolId>>, StoreError>(
                        bad_metadata("prepared semantic episode count overflowed"),
                    )
                } else if first > count {
                    result == Err::<Option<Vec<SymbolId>>, StoreError>(
                        bad_metadata(
                            "prepared semantic episode count exceeds in-memory episode count",
                        ),
                    )
                } else if first == count {
                    result == Ok::<Option<Vec<SymbolId>>, StoreError>(None)
                } else {
                    let fresh = self.owned().atoms().skip(first as int);
                    match unknown_in_episodes(fresh, self.catalog_state().allocated()) {
                        Some(id) => result == Err::<Option<Vec<SymbolId>>, StoreError>(
                            StoreError::UnknownSymbolId { id },
                        ),
                        None => result matches Ok(Some(ids)) && {
                            &&& increasing(numbers(ids@))
                            &&& forall|id: u64| #[trigger]
                                numbers(ids@).contains(id) <==> symbols_in(fresh).contains(id)
                        },
                    }
                }
            }),
    {
        let episode_count: usize = self.memory.episodes().len();
        let first: usize = match self.persisted_episode_count.checked_add(
            self.semantic.pending_len(),
        ) {
            Some(first) => first,
            None => {
                return invalid_metadata(PREPARED_OVERFLOW);
            },
        };
        if first > episode_count {
            return invalid_metadata(PREPARED_EXCEEDS);
        }
        if first == episode_count {
            return Ok(None);
        }
        match validate_new_episode_symbols(&self.memory, first, &self.symbols) {
            Ok(_) => {},
            Err(error) => {
                return Err(error);
            },
        }
        Ok(Some(list_symbols(self.memory.episodes(), first)))
    }

    /// Requires the database to be at the revision of this session.
    pub fn verify_current_revision(&self, actual_revision: i64) -> (result: Result<(), StoreError>)
        ensures
            result == if actual_revision == self.revision() {
                Ok::<(), StoreError>(())
            } else {
                Err(
                    StoreError::ConcurrentModification {
                        expected_revision: self.revision(),
                        actual_revision,
                    },
                )
            },
    {
        if actual_revision == self.expected_revision {
            Ok(())
        } else {
            Err(
                StoreError::ConcurrentModification {
                    expected_revision: self.expected_revision,
                    actual_revision,
                },
            )
        }
    }

    /// Requires a text for each listed symbol.
    pub fn known_values(ids: &[SymbolId], values: Vec<Option<String>>) -> (result: Result<
        Vec<String>,
        StoreError,
    >)
        requires
            ids@.len() == values@.len(),
        ensures
            match result {
                Ok(texts) => texts@.len() == values@.len() && forall|i: int|
                    0 <= i < values@.len() ==> (#[trigger] values@[i]) is Some && texts@[i]@
                        == values@[i]->0@,
                Err(error) => exists|i: int| #[trigger]
                    first_unknown(values@, i) && error == (StoreError::UnknownSymbolId {
                        id: ids@[i].0,
                    }),
            },
    {
        let mut texts: Vec<String> = Vec::new();
        let mut index: usize = 0;
        while index < values.len()
            invariant
                index <= values@.len(),
                ids@.len() == values@.len(),
                texts@.len() == index,
                forall|i: int|
                    0 <= i < index ==> (#[trigger] values@[i]) is Some && texts@[i]@
                        == values@[i]->0@,
            decreases values.len() - index,
        {
            match &values[index] {
                Some(text) => {
                    texts.push(text.clone());
                },
                None => {
                    assert(first_unknown(values@, index as int));
                    return Err(StoreError::UnknownSymbolId { id: ids[index].get() });
                },
            }
            index += 1;
        }
        Ok(texts)
    }

    /// Lists the text pairs of each episode that still needs a vector.
    ///
    /// The identifiers are those that [`Self::begin_prepare`] listed, with
    /// their texts in the same order.
    pub fn prepare_texts(&self, ids: &[SymbolId], values: &[String]) -> (result: Result<
        Vec<Vec<(String, String)>>,
        StoreError,
    >)
        requires
            increasing(numbers(ids@)),
            ids@.len() == values@.len(),
        ensures
            ({
                let first = self.saved_episodes() + self.prepared().len();
                let fresh = appended_since(self.owned().atoms(), first);
                let texts = texts_by_id(numbers(ids@), contents(values@));
                match (episode_texts(fresh, texts), result) {
                    (Ok(expected), Ok(lists)) => pair_lists(lists@) == expected,
                    (Err(id), Err(error)) => error == (StoreError::UnknownSymbolId { id }),
                    _ => false,
                }
            }),
    {
        let atoms = self.memory.episodes();
        let total: usize = atoms.len();
        let pending: usize = self.semantic.pending_len();
        let ghost first = self.saved_episodes() + self.prepared().len();
        let ghost fresh = appended_since(self.owned().atoms(), first);
        let ghost texts = texts_by_id(numbers(ids@), contents(values@));
        let mut lists: Vec<Vec<(String, String)>> = Vec::new();
        let start: usize = match self.persisted_episode_count.checked_add(pending) {
            Some(start) => start,
            None => {
                assert(fresh =~= Seq::empty());
                assert(pair_lists(lists@) =~= Seq::empty());
                return Ok(lists);
            },
        };
        let mut index: usize = start;
        proof {
            assert(fresh.take(0) =~= Seq::empty());
            assert(pair_lists(lists@) =~= Seq::empty());
        }
        while index < atoms.len()
            invariant
                start <= index,
                index <= atoms@.len() || index == start,
                start == first,
                increasing(numbers(ids@)),
                ids@.len() == values@.len(),
                atoms@ == self.owned().atoms(),
                fresh == appended_since(self.owned().atoms(), first),
                texts == texts_by_id(numbers(ids@), contents(values@)),
                first == self.saved_episodes() + self.prepared().len(),
                start <= atoms@.len() ==> episode_texts(fresh.take(index - start), texts) == Ok::<
                    Seq<Seq<(Seq<char>, Seq<char>)>>,
                    u64,
                >(pair_lists(lists@)),
                start > atoms@.len() ==> lists@.len() == 0,
            decreases atoms.len() - index,
        {
            let ghost part = fresh.take(index + 1 - start);
            let ghost before = pair_lists(lists@);
            proof {
                assert(part.drop_last() =~= fresh.take(index - start));
                assert(part.last() == atoms@[index as int]);
                if episode_texts(part, texts) is Err {
                    lemma_texts_stop(fresh, texts, index + 1 - start);
                }
            }
            match episode_pairs(atoms[index].attributes(), ids, values) {
                Ok(pairs) => {
                    let ghost content = owned_pairs(pairs@);
                    lists.push(pairs);
                    assert(pair_lists(lists@) =~= before.push(content));
                },
                Err(error) => {
                    return Err(error);
                },
            }
            index += 1;
        }
        proof {
            if start <= atoms@.len() {
                assert(fresh.take(index - start) =~= fresh);
            } else {
                assert(pair_lists(lists@) =~= Seq::empty());
            }
        }
        Ok(lists)
    }

    /// Takes over the vectors of episodes that needed one, in episode order.
    pub fn stage_vectors(&mut self, encoded: Vec<Embedding>)
        ensures
            final(self).prepared() == old(self).prepared() + vector_contents(encoded@),
            final(self).owned() == old(self).owned(),
            final(self).saved_episodes() == old(self).saved_episodes(),
            final(self).revision() == old(self).revision(),
            final(self).catalog_state() == old(self).catalog_state(),
    {
        self.semantic.extend(encoded);
    }

    /// The error that a save meets, in the order of its checks.
    pub open spec fn save_error(
        &self,
        seen: SaveObservation,
        canonical: Seq<ObjectContent>,
    ) -> Option<StoreError> {
        if self.saved_episodes() > self.owned().atoms().len() {
            Some(bad_metadata("persisted episode count exceeds in-memory episode count"))
        } else {
            match identity_error(seen.identity, canonical) {
                Some(error) => Some(error),
                None => if named_memory(seen.identity.metadata@) != self.owned().identifier()@ {
                    Some(bad_metadata("persisted memory ID differs from the owned memory"))
                } else if named_revision(seen.identity.metadata@) != self.revision() {
                    Some(
                        StoreError::ConcurrentModification {
                            expected_revision: self.revision(),
                            actual_revision: named_revision(seen.identity.metadata@),
                        },
                    )
                } else if self.revision() == i64::MAX {
                    Some(StoreError::RevisionExhausted)
                } else {
                    self.tails_error(seen)
                },
            }
        }
    }

    /// The error of tables that do not end where this session left them.
    pub open spec fn tails_error(&self, seen: SaveObservation) -> Option<StoreError> {
        match tail_error(
            owned_bytes(seen.episode_tail),
            "episodes",
            self.saved_episodes(),
            "persisted episode tail changed outside this store session",
        ) {
            Some(error) => Some(error),
            None => match tail_in(owned_bytes(seen.symbol_tail), "symbols", "id") {
                Err(error) => Some(error),
                Ok(actual) => if through(actual) != self.catalog_state().persisted() {
                    Some(
                        bad_metadata("persisted symbol tail changed outside this store session"),
                    )
                } else {
                    match tail_error(
                        owned_bytes(seen.vector_tail),
                        "episode_vectors",
                        self.saved_episodes(),
                        "persisted episode-vector tail differs from the episode prefix",
                    ) {
                        Some(error) => Some(error),
                        None => if exceeds_space(self.saved_episodes(), self.prepared().len()) {
                            Some(bad_metadata("episode vector sequence space is exhausted"))
                        } else {
                            match records_in(seen.feedback@, self.saved_episodes() as u64) {
                                Err(error) => Some(error),
                                Ok(_) => None,
                            }
                        },
                    }
                },
            },
        }
    }

    /// Every unsaved episode has its vector.
    pub open spec fn encoded_all(&self) -> bool {
        self.saved_episodes() <= self.owned().atoms().len() ==> self.saved_episodes()
            + self.prepared().len() == self.owned().atoms().len()
    }

    /// The plan adds everything that is staged and nothing else.
    pub open spec fn plans(&self, seen: SaveObservation, plan: SavePlan) -> bool {
        &&& plan.next_revision == self.revision() + 1
        &&& plan.symbols@.len() == self.catalog_state().staged().len()
        &&& forall|i: int|
            0 <= i < plan.symbols@.len() ==> (#[trigger] plan.symbols@[i]).0
                == self.catalog_state().persisted() + i && plan.symbols@[i].1@
                == self.catalog_state().staged()[i]
        &&& plan.episodes@.len() == self.owned().atoms().len() - self.saved_episodes()
        &&& forall|i: int|
            0 <= i < plan.episodes@.len() ==> encodes_episode(
                #[trigger] plan.episodes@[i],
                (self.saved_episodes() + i) as nat,
                stored(self.owned().atoms()[self.saved_episodes() + i]),
            )
        &&& plan.vectors@.len() == self.prepared().len()
        &&& forall|i: int|
            0 <= i < plan.vectors@.len() ==> (#[trigger] plan.vectors@[i]).0
                == self.saved_episodes() + i && plan.vectors@[i].1@ == component_bytes(
                self.prepared()[i],
            )
        &&& exists|wanted: Seq<FeedbackRecord>| #[trigger]
            lists_table(wanted, edge_table(self.owned().traces())) && plan.feedback.collects(
                merge(records_in(seen.feedback@, self.saved_episodes() as u64)->Ok_0, wanted),
            )
    }

    /// Plans the rows of one save from what the database holds.
    ///
    /// Every unsaved episode has its vector by then, so that a save adds as many
    /// vectors as episodes. A stale session is rejected instead of overwriting a
    /// later snapshot.
    pub fn plan_save(&self, seen: &SaveObservation, canonical: &[SchemaObject]) -> (result: Result<
        SavePlan,
        StoreError,
    >)
        requires
            self.wf(),
            self.encoded_all(),
        ensures
            match (self.save_error(*seen, object_contents(canonical@)), result) {
                (Some(expected), Err(error)) => error == expected,
                (None, Ok(plan)) => self.plans(*seen, plan) && plan.vectors@.len()
                    == plan.episodes@.len(),
                _ => false,
            },
    {
        let episode_count: usize = self.memory.episodes().len();
        if self.persisted_episode_count > episode_count {
            return invalid_metadata(COUNT_EXCEEDS);
        }
        let (actual_memory_id, actual_revision) = match verify_identity(
            &seen.identity,
            canonical,
        ) {
            Ok(found) => found,
            Err(error) => {
                return Err(error);
            },
        };
        match verify_snapshot(
            actual_memory_id,
            actual_revision,
            self.memory.memory_id(),
            self.expected_revision,
        ) {
            Ok(_) => {},
            Err(error) => {
                return Err(error);
            },
        }
        if actual_revision == i64::MAX {
            return Err(StoreError::RevisionExhausted);
        }
        match read_tail(borrowed_bytes(&seen.episode_tail), "episodes", "sequence") {
            Err(error) => {
                return Err(error);
            },
            Ok(actual) => {
                if !closes_prefix(actual, self.persisted_episode_count) {
                    return invalid_metadata(EPISODE_TAIL_CHANGED);
                }
            },
        }
        match verify_symbol_tail(borrowed_bytes(&seen.symbol_tail), &self.symbols) {
            Ok(_) => {},
            Err(error) => {
                return Err(error);
            },
        }
        match verify_tail(borrowed_bytes(&seen.vector_tail), self.persisted_episode_count) {
            Ok(_) => {},
            Err(error) => {
                return Err(error);
            },
        }
        let vectors = match self.semantic.pending_vectors(self.persisted_episode_count) {
            Ok(vectors) => vectors,
            Err(error) => {
                return Err(error);
            },
        };
        let feedback = match reconcile(
            seen.feedback.as_slice(),
            &self.memory,
            self.persisted_episode_count,
        ) {
            Ok(feedback) => feedback,
            Err(error) => {
                return Err(error);
            },
        };
        Ok(
            SavePlan {
                next_revision: actual_revision + 1,
                symbols: self.symbols.pending_symbols(),
                episodes: append_episodes(&self.memory, self.persisted_episode_count),
                vectors,
                feedback,
            },
        )
    }

    /// Requires the save to have changed exactly one metadata row.
    pub fn verify_metadata_update(changed: usize) -> (result: Result<(), StoreError>)
        ensures
            result == if changed == 1 {
                Ok::<(), StoreError>(())
            } else {
                Err(bad_metadata("metadata singleton changed during the save transaction"))
            },
    {
        if changed == 1 {
            Ok(())
        } else {
            invalid_metadata(SINGLETON_CHANGED)
        }
    }

    /// Takes everything as saved once a planned save is committed.
    pub fn mark_saved(&mut self, next_revision: i64)
        ensures
            final(self).owned() == old(self).owned(),
            final(self).saved_episodes() == old(self).owned().atoms().len(),
            final(self).revision() == next_revision,
            final(self).catalog_state().persisted() == old(self).catalog_state().allocated(),
            final(self).catalog_state().staged() == Seq::<Seq<char>>::empty(),
            final(self).prepared() == Seq::<Seq<i16>>::empty(),
    {
        self.expected_revision = next_revision;
        self.persisted_episode_count = self.memory.episodes().len();
        self.symbols.mark_saved();
        self.semantic.mark_saved();
    }

    /// The error of metadata that is not that of the session's snapshot.
    pub open spec fn session_error(&self, metadata: Seq<MetadataRow>) -> Option<StoreError> {
        match metadata_error(metadata) {
            Some(error) => Some(error),
            None => if named_memory(metadata) != self.owned().identifier()@ {
                Some(bad_metadata("persisted memory ID differs from the owned memory"))
            } else if named_revision(metadata) != self.revision() {
                Some(
                    StoreError::ConcurrentModification {
                        expected_revision: self.revision(),
                        actual_revision: named_revision(metadata),
                    },
                )
            } else {
                None
            },
        }
    }

    /// Requires the database to hold the snapshot that this session works on.
    pub fn verify_session(&self, metadata: &[MetadataRow]) -> (result: Result<(), StoreError>)
        ensures
            match (self.session_error(metadata@), result) {
                (Some(expected), Err(error)) => error == expected,
                (None, Ok(_)) => true,
                _ => false,
            },
    {
        match read_metadata(metadata) {
            Err(error) => Err(error),
            Ok((memory_id, revision)) => verify_snapshot(
                memory_id,
                revision,
                self.memory.memory_id(),
                self.expected_revision,
            ),
        }
    }

    /// Tells whether a recall has vectors to rank, before its query is encoded.
    pub fn admit_recall(&self, metadata: &[MetadataRow]) -> (result: Result<bool, StoreError>)
        ensures
            result == match self.session_error(metadata@) {
                Some(error) => Err::<bool, StoreError>(error),
                None => Ok(self.saved_episodes() > 0),
            },
    {
        match self.verify_session(metadata) {
            Ok(_) => Ok(self.persisted_episode_count > 0),
            Err(error) => Err(error),
        }
    }

    /// Ranks the saved episodes against an encoded query.
    ///
    /// The rows are those of the whole vector table in sequence order, read
    /// together with the metadata.
    pub fn finish_recall(
        &self,
        metadata: &[MetadataRow],
        query: &Embedding,
        rows: &[VectorRow],
        limit: usize,
    ) -> (result: Result<Vec<RecallHit>, StoreError>)
        ensures
            match self.session_error(metadata@) {
                Some(error) => result == Err::<Vec<RecallHit>, StoreError>(error),
                None => match (semantic_field(query@, rows@, self.saved_episodes()), result) {
                    (Ok(candidates), Ok(hits)) => {
                        &&& is_ranking(candidates, limit as nat, scores(hits@))
                        &&& forall|i: int|
                            0 <= i < hits@.len() ==> (#[trigger] hits@[i]).atom_id.memory()
                                == self.owned().identifier()
                    },
                    (Err(expected), Err(error)) => error == expected,
                    _ => false,
                },
            },
    {
        match self.verify_session(metadata) {
            Ok(_) => rank_episode_vectors(
                self.memory.memory_id(),
                query,
                self.persisted_episode_count,
                limit,
                rows,
            ),
            Err(error) => Err(error),
        }
    }

    /// Normalizes a recall query; `None` if the limit admits no hit.
    pub fn begin_recall(&self, query: &str, limit: usize) -> (result: Result<
        Option<String>,
        StoreError,
    >)
        ensures
            match (crate::sqlite::normalize::normalized(query@), result) {
                (Err(rule), Err(error)) => error == (StoreError::InvalidSemanticQuery {
                    detail: rule.rule(),
                }),
                (Ok(text), Ok(None)) => limit == 0,
                (Ok(text), Ok(Some(normalized))) => limit > 0 && normalized@ == text,
                _ => false,
            },
    {
        match normalize_query(query) {
            Err(error) => Err(error),
            Ok(text) => if limit == 0 {
                Ok(None)
            } else {
                Ok(Some(text))
            },
        }
    }
}

/// The value at the place is the first that is absent.
pub open spec fn first_unknown(values: Seq<Option<String>>, place: int) -> bool {
    &&& 0 <= place < values.len()
    &&& values[place] is None
    &&& forall|i: int| 0 <= i < place ==> (#[trigger] values[i]) is Some
}

/// The text pairs of episodes, or the first symbol without a text.
pub open spec fn episode_texts(atoms: Seq<EpisodeAtom>, texts: Map<u64, Seq<char>>) -> Result<
    Seq<Seq<(Seq<char>, Seq<char>)>>,
    u64,
>
    decreases atoms.len(),
{
    if atoms.len() == 0 {
        Ok(Seq::empty())
    } else {
        match episode_texts(atoms.drop_last(), texts) {
            Err(id) => Err(id),
            Ok(lists) => match text_pairs(atoms.last().groups(), texts) {
                Err(id) => Err(id),
                Ok(pairs) => Ok(lists.push(pairs)),
            },
        }
    }
}

/// The text pairs of owned lists.
pub open spec fn pair_lists(lists: Seq<Vec<(String, String)>>) -> Seq<
    Seq<(Seq<char>, Seq<char>)>,
> {
    lists.map_values(|pairs: Vec<(String, String)>| owned_pairs(pairs@))
}

proof fn lemma_texts_stop(atoms: Seq<EpisodeAtom>, texts: Map<u64, Seq<char>>, end: int)
    requires
        0 <= end <= atoms.len(),
        episode_texts(atoms.take(end), texts) is Err,
    ensures
        episode_texts(atoms, texts) == episode_texts(atoms.take(end), texts),
    decreases atoms.len(),
{
    if end < atoms.len() {
        assert(atoms.drop_last().take(end) =~= atoms.take(end));
        lemma_texts_stop(atoms.drop_last(), texts, end);
    } else {
        assert(atoms.take(end) =~= atoms);
    }
}

} // verus!
