//! One open sidecar: validation, synchronization and its counts.

use vstd::prelude::*;

use crate::attribute::{numbers, EpisodeAtom};
use crate::memory::Memory;
use crate::model::{MemoryId, SymbolId};
use crate::order::{increasing, sort_distinct_numbers};
use crate::semantic_index::cues::{cues_in, read_cues, CueCatalog, CueRow, Pair};
use crate::semantic_index::error::{invalid_index, IndexError, IndexIntegrityError};
use crate::semantic_index::format::{
    bad_sidecar, holds_vector, invalid_sidecar, metadata_in, read_metadata, verify_application_id,
    verify_format_version, verify_metadata, version_error, IndexMetadataRow, APPLICATION_ID,
};
use crate::semantic_index::model::{
    pairs_of, vectors_of, CueEmbedder, CueText, Embedding, EmbeddingProfile, IndexStats,
};
use crate::semantic_index::postings::{
    add_episodes, lists_new_cues, plan_tail, postings_of, validate_postings, validated_postings,
    NewCue, PostingRow, SyncPlan,
};
use crate::sqlite::format::{object_contents, same_objects, ObjectContent, SchemaObject};
use crate::sqlite::prepare::{symbol_text, texts_by_id};
use crate::sqlite::row::Value;
use crate::sqlite::vectors::{
    component_bytes, components, encode_components, law_vector_codec_round_trip,
};
use crate::text::same_text;
use crate::text_table::contents;

verus! {

/// Cues that one embedding request holds.
pub const EMBEDDING_BATCH_SIZE: usize = 256;

const WRONG_SCHEMA: &'static str = "database schema differs from the semantic index contract";

const COUNT_EXCEEDS: &'static str = "indexed episode count exceeds the committed memory";

const SCHEMA_CHANGED: &'static str = "sidecar schema changed before synchronization";

const PUBLISHED_SCHEMA: &'static str =
    "published sidecar schema differs from its validated staging file";

const ABSENT_SYMBOL: &'static str = "planned cue refers to an absent symbol";

/// Every row of a sidecar.
#[derive(Debug)]
pub struct IndexRows {
    /// Application identifier in the header.
    pub application_id: i64,
    /// Rows of the metadata table.
    pub metadata: Vec<IndexMetadataRow>,
    /// Persistent objects, ordered by kind and name.
    pub schema: Vec<SchemaObject>,
    /// Diagnostic of the quick check.
    pub quick_check: String,
    /// A foreign key refers to nothing.
    pub broken_reference: bool,
    /// The cue table in identifier order.
    pub cues: Vec<CueRow>,
    /// The posting table in the order of sequences and cues.
    pub postings: Vec<PostingRow>,
}

/// Why a sidecar is not valid.
pub ghost enum IndexFault {
    /// A fault whose every part is fixed.
    Known(IndexError),
    /// The sidecar was built with another profile.
    Profile {
        /// Fingerprint and width of the persisted profile.
        expected: (Seq<u8>, u16),
        /// Profile of the operation.
        found: EmbeddingProfile,
    },
    /// The quick check reported the diagnostic.
    QuickCheck {
        /// The diagnostic.
        detail: Seq<char>,
    },
}

/// The error reports the fault.
pub open spec fn index_reports(error: IndexError, fault: IndexFault) -> bool {
    match fault {
        IndexFault::Known(known) => error == known,
        IndexFault::Profile { expected, found } => error matches IndexError::ProfileMismatch {
            expected: persisted,
            found: supplied,
        } && persisted@ == expected && supplied == found,
        IndexFault::QuickCheck { detail } => error matches IndexError::InvalidIndex(
            IndexIntegrityError::QuickCheckFailed { detail: text },
        ) && text@ == detail,
    }
}

/// The cues and the counts of a sidecar over a memory, or the first fault.
pub open spec fn index_in(
    rows: IndexRows,
    atoms: Seq<EpisodeAtom>,
    memory: nat,
    profile: EmbeddingProfile,
    canonical: Seq<ObjectContent>,
) -> Result<(Seq<Pair>, (u64, u64, u64)), IndexFault> {
    if rows.application_id != APPLICATION_ID {
        Err(
            IndexFault::Known(
                IndexError::InvalidIndex(
                    IndexIntegrityError::ApplicationMismatch { found: rows.application_id },
                ),
            ),
        )
    } else {
        match metadata_in(rows.metadata@) {
            Err(error) => Err(IndexFault::Known(error)),
            Ok(content) => if content.memory != memory {
                Err(
                    IndexFault::Known(
                        IndexError::InvalidIndex(IndexIntegrityError::MemoryMismatch),
                    ),
                )
            } else if content.profile != profile@ {
                Err(IndexFault::Profile { expected: content.profile, found: profile })
            } else if object_contents(rows.schema@) != canonical {
                Err(
                    IndexFault::Known(
                        bad_sidecar("database schema differs from the semantic index contract"),
                    ),
                )
            } else if rows.quick_check@ != "ok"@ {
                Err(IndexFault::QuickCheck { detail: rows.quick_check@ })
            } else if rows.broken_reference {
                Err(
                    IndexFault::Known(
                        IndexError::InvalidIndex(IndexIntegrityError::ForeignKeyCheckFailed),
                    ),
                )
            } else if content.episodes > atoms.len() {
                Err(
                    IndexFault::Known(
                        bad_sidecar("indexed episode count exceeds the committed memory"),
                    ),
                )
            } else {
                projection_in(rows, atoms, profile@.1, content.episodes)
            },
        }
    }
}

/// The cues and the counts of a sidecar over the first episodes.
pub open spec fn projection_in(
    rows: IndexRows,
    atoms: Seq<EpisodeAtom>,
    dimensions: u16,
    episodes: u64,
) -> Result<(Seq<Pair>, (u64, u64, u64)), IndexFault> {
    match cues_in(rows.cues@, dimensions) {
        Err(error) => Err(IndexFault::Known(error)),
        Ok(pairs) => match validated_postings(
            atoms.take(episodes as int),
            pairs,
            rows.postings@,
        ) {
            Err(error) => Err(IndexFault::Known(error)),
            Ok(count) => Ok((pairs, (episodes, pairs.len() as u64, count as u64))),
        },
    }
}

/// A validated sidecar: its cues and its counts.
pub struct ValidatedIndex {
    /// Identifiers of the cues.
    pub catalog: CueCatalog,
    /// Counts of episodes, cues and postings.
    pub stats: IndexStats,
}

/// What a sidecar held before a synchronization wrote to it.
#[derive(Debug)]
pub struct SyncObservation {
    /// Application identifier in the header.
    pub application_id: i64,
    /// Format versions of the metadata rows.
    pub versions: Vec<Value>,
    /// Persistent objects, ordered by kind and name.
    pub schema: Vec<SchemaObject>,
    /// Rows of the metadata table.
    pub metadata: Vec<IndexMetadataRow>,
}

/// The symbols of planned cues with their texts.
#[derive(Debug)]
pub struct ResolvedSymbols {
    ids: Vec<SymbolId>,
    texts: Vec<String>,
}

impl ResolvedSymbols {
    /// Each identifier has a text, and identifiers ascend.
    #[verifier::type_invariant]
    spec fn aligned(self) -> bool {
        increasing(numbers(self.ids@)) && self.ids@.len() == self.texts@.len()
    }

    /// The texts by identifier.
    pub closed spec fn by_id(&self) -> Map<u64, Seq<char>> {
        texts_by_id(numbers(self.ids@), contents(self.texts@))
    }
}

/// The cue uses the symbol.
pub open spec fn uses_symbol(cue: NewCue, id: u64) -> bool {
    cue.key_id == id || cue.value_id == id
}

/// Lists the symbols of planned cues, each once and in ascending order.
pub fn cue_symbols(cues: &[NewCue]) -> (ids: Vec<SymbolId>)
    ensures
        increasing(numbers(ids@)),
        forall|id: u64| #[trigger]
            numbers(ids@).contains(id) <==> exists|i: int|
                0 <= i < cues@.len() && uses_symbol(#[trigger] cues@[i], id),
{
    let mut listed: Vec<u64> = Vec::new();
    let mut index: usize = 0;
    while index < cues.len()
        invariant
            index <= cues@.len(),
            forall|id: u64| #[trigger]
                listed@.contains(id) <==> exists|i: int|
                    0 <= i < index && uses_symbol(#[trigger] cues@[i], id),
        decreases cues.len() - index,
    {
        let cue = cues[index];
        let ghost before = listed@;
        listed.push(cue.key_id);
        listed.push(cue.value_id);
        proof {
            assert forall|id: u64| #[trigger]
                listed@.contains(id) <==> exists|i: int|
                    0 <= i < index + 1 && uses_symbol(#[trigger] cues@[i], id) by {
                if listed@.contains(id) {
                    let k = listed@.index_of(id);
                    if k < before.len() {
                        assert(before[k] == id);
                        assert(before.contains(id));
                        let i = choose|i: int|
                            0 <= i < index && uses_symbol(#[trigger] cues@[i], id);
                        assert(uses_symbol(cues@[i], id));
                    } else {
                        assert(uses_symbol(cues@[index as int], id));
                    }
                }
                if exists|i: int| 0 <= i < index + 1 && uses_symbol(#[trigger] cues@[i], id) {
                    let i = choose|i: int|
                        0 <= i < index + 1 && uses_symbol(#[trigger] cues@[i], id);
                    if i < index {
                        assert(before.contains(id));
                        let k = before.index_of(id);
                        assert(listed@[k] == id);
                    } else {
                        assert(listed@[before.len() as int] == cue.key_id);
                        assert(listed@[(before.len() + 1) as int] == cue.value_id);
                    }
                }
            }
        }
        index += 1;
    }
    let sorted = sort_distinct_numbers(listed.as_slice());
    let mut ids: Vec<SymbolId> = Vec::new();
    let mut place: usize = 0;
    while place < sorted.len()
        invariant
            place <= sorted@.len(),
            numbers(ids@) =~= sorted@.take(place as int),
        decreases sorted.len() - place,
    {
        let ghost before = ids@;
        ids.push(SymbolId::new(sorted[place]));
        proof {
            assert(numbers(ids@) =~= numbers(before).push(sorted@[place as int]));
            assert(sorted@.take(place + 1) =~= sorted@.take(place as int).push(
                sorted@[place as int],
            ));
        }
        place += 1;
    }
    assert(sorted@.take(place as int) =~= sorted@);
    ids
}

/// Every value is known.
pub open spec fn all_known(values: Seq<Option<String>>) -> bool {
    forall|i: int| 0 <= i < values.len() ==> (#[trigger] values[i]) is Some
}

/// Joins the symbols of planned cues with the texts that the memory holds.
///
/// The identifiers are those that [`cue_symbols`] listed, with a value for each.
pub fn resolve_new_cue_symbols(ids: Vec<SymbolId>, values: Vec<Option<String>>) -> (result: Result<
    ResolvedSymbols,
    IndexError,
>)
    requires
        increasing(numbers(ids@)),
        ids@.len() == values@.len(),
    ensures
        match result {
            Ok(resolved) => {
                &&& all_known(values@)
                &&& resolved.by_id() == texts_by_id(
                    numbers(ids@),
                    Seq::new(values@.len(), |i: int| values@[i]->0@),
                )
            },
            Err(error) => !all_known(values@) && error == IndexError::InvalidIndex(
                IndexIntegrityError::InvalidCue {
                    cue_id: 0,
                    detail: "planned cue refers to an absent symbol",
                },
            ),
        },
{
    let mut texts: Vec<String> = Vec::new();
    let mut index: usize = 0;
    while index < values.len()
        invariant
            index <= values@.len(),
            texts@.len() == index,
            forall|i: int|
                0 <= i < index ==> (#[trigger] values@[i]) is Some && texts@[i]@ == values@[i]->0@,
        decreases values.len() - index,
    {
        match &values[index] {
            Some(text) => {
                texts.push(text.clone());
            },
            None => {
                assert(values@[index as int] is None);
                return invalid_index(
                    IndexIntegrityError::InvalidCue { cue_id: 0, detail: ABSENT_SYMBOL },
                );
            },
        }
        index += 1;
    }
    assert(contents(texts@) =~= Seq::new(values@.len(), |i: int| values@[i]->0@));
    Ok(ResolvedSymbols { ids, texts })
}

/// The identifiers and the bytes of one cue row.
pub type CueValues = (u64, u64, u64, Vec<u8>);

/// The row belongs to the cue and holds a vector of the width.
pub open spec fn embeds(row: CueValues, cue: NewCue, dimensions: u16) -> bool {
    &&& row.0 == cue.cue_id
    &&& row.1 == cue.key_id
    &&& row.2 == cue.value_id
    &&& holds_vector(row.3@, dimensions)
}

/// The first embedding of another profile.
pub open spec fn first_other(embeddings: Seq<Embedding>, profile: EmbeddingProfile, index: int) -> bool {
    &&& 0 <= index < embeddings.len()
    &&& embeddings[index].made_for()@ != profile@
    &&& forall|i: int|
        0 <= i < index ==> (#[trigger] embeddings[i]).made_for()@ == profile@
}

fn cue_values(cue: NewCue, embedding: &Embedding) -> (row: CueValues)
    ensures
        embeds(row, cue, embedding.made_for()@.1),
        row.3@ == component_bytes(embedding.components()),
{
    let values = embedding.values();
    let vector = encode_components(values);
    proof {
        law_vector_codec_round_trip(values@, vector@);
        let k = choose|k: int| 0 <= k < values@.len() && (#[trigger] values@[k]) != 0;
        assert(components(vector@)[k] != 0);
    }
    (cue.cue_id, cue.key_id, cue.value_id, vector)
}

/// Accepts one embedding for each cue of a batch, all of the index profile.
pub fn accept_batch(cues: &[NewCue], embeddings: &[Embedding], profile: EmbeddingProfile) -> (result:
    Result<Vec<CueValues>, IndexError>)
    ensures
        match result {
            Ok(rows) => {
                &&& embeddings@.len() == cues@.len()
                &&& rows@.len() == cues@.len()
                &&& forall|i: int|
                    0 <= i < rows@.len() ==> {
                        &&& embeds(#[trigger] rows@[i], cues@[i], profile@.1)
                        &&& rows@[i].3@ == component_bytes(embeddings@[i].components())
                        &&& embeddings@[i].made_for()@ == profile@
                    }
            },
            Err(error) => if embeddings@.len() != cues@.len() {
                error == (IndexError::EmbeddingBatchLength {
                    expected: cues@.len() as usize,
                    found: embeddings@.len() as usize,
                })
            } else {
                exists|index: int| #[trigger]
                    first_other(embeddings@, profile, index) && error == (
                    IndexError::ProfileMismatch {
                        expected: profile,
                        found: embeddings@[index].made_for(),
                    })
            },
        },
{
    if embeddings.len() != cues.len() {
        return Err(
            IndexError::EmbeddingBatchLength { expected: cues.len(), found: embeddings.len() },
        );
    }
    let mut rows: Vec<CueValues> = Vec::new();
    let mut index: usize = 0;
    while index < cues.len()
        invariant
            index <= cues@.len(),
            embeddings@.len() == cues@.len(),
            rows@.len() == index,
            forall|i: int|
                0 <= i < index ==> (#[trigger] embeddings@[i]).made_for()@ == profile@,
            forall|i: int|
                0 <= i < rows@.len() ==> {
                    &&& embeds(#[trigger] rows@[i], cues@[i], profile@.1)
                    &&& rows@[i].3@ == component_bytes(embeddings@[i].components())
                    &&& embeddings@[i].made_for()@ == profile@
                },
        decreases cues.len() - index,
    {
        let embedding = &embeddings[index];
        let found = embedding.profile();
        if !found.same(&profile) {
            assert(first_other(embeddings@, profile, index as int));
            return Err(IndexError::ProfileMismatch { expected: profile, found });
        }
        rows.push(cue_values(cues[index], embedding));
        index += 1;
    }
    Ok(rows)
}

/// Both symbols of the cue have a text.
pub open spec fn has_texts(cue: NewCue, texts: Map<u64, Seq<char>>) -> bool {
    texts.contains_key(cue.key_id) && texts.contains_key(cue.value_id)
}

/// The key and the value of a cue in words.
pub open spec fn texts_of(cue: NewCue, texts: Map<u64, Seq<char>>) -> (Seq<char>, Seq<char>) {
    (texts[cue.key_id], texts[cue.value_id])
}

/// The cue at the place is the first without texts.
pub open spec fn first_textless(cues: Seq<NewCue>, texts: Map<u64, Seq<char>>, place: int) -> bool {
    &&& 0 <= place < cues.len()
    &&& !has_texts(cues[place], texts)
    &&& forall|i: int| 0 <= i < place ==> has_texts(#[trigger] cues[i], texts)
}

/// The error of a cue without texts.
pub open spec fn textless(cue: NewCue) -> IndexError {
    IndexError::InvalidIndex(
        IndexIntegrityError::InvalidCue {
            cue_id: cue.cue_id,
            detail: "planned cue refers to an absent symbol",
        },
    )
}

/// Where an embedding request that starts at a place ends.
pub open spec fn batch_end(length: nat, start: nat) -> nat {
    if length - start > EMBEDDING_BATCH_SIZE {
        start + EMBEDDING_BATCH_SIZE as nat
    } else {
        length
    }
}

/// The keys and the values of cues in words.
pub open spec fn batch_texts(cues: Seq<NewCue>, texts: Map<u64, Seq<char>>) -> Seq<
    (Seq<char>, Seq<char>),
> {
    cues.map_values(|cue: NewCue| texts_of(cue, texts))
}

/// The vectors that rows hold.
pub open spec fn row_vectors(rows: Seq<CueValues>) -> Seq<Seq<i16>> {
    rows.map_values(|row: CueValues| components(row.3@))
}

/// The rows of the embedding request that starts at a place hold, in order, an
/// answer of the embedder to the texts of exactly the cues of that request.
pub open spec fn holds_answer<E: CueEmbedder>(
    rows: Seq<CueValues>,
    cues: Seq<NewCue>,
    texts: Map<u64, Seq<char>>,
    start: int,
) -> bool {
    let end = batch_end(cues.len(), start as nat) as int;
    E::may_answer(
        batch_texts(cues.subrange(start, end), texts),
        row_vectors(rows.subrange(start, end)),
    )
}

/// The rows of every embedding request before a place hold an answer to it.
pub open spec fn holds_answers<E: CueEmbedder>(
    rows: Seq<CueValues>,
    cues: Seq<NewCue>,
    texts: Map<u64, Seq<char>>,
    reached: int,
) -> bool {
    forall|start: int|
        0 <= start < reached && start % (EMBEDDING_BATCH_SIZE as int) == 0
            ==> #[trigger] holds_answer::<E>(rows, cues, texts, start)
}

/// The embedder did not answer a request, or not with as many vectors of the
/// index profile as the request has cues.
pub open spec fn unanswered(
    error: IndexError,
    cues: Seq<NewCue>,
    profile: EmbeddingProfile,
) -> bool {
    ||| error is Embedder
    ||| error matches IndexError::EmbeddingBatchLength { expected, found } && expected != found
        && expected <= EMBEDDING_BATCH_SIZE && expected <= cues.len()
    ||| error matches IndexError::ProfileMismatch { expected, found } && expected == profile
        && found@ != profile@
}

/// A validated, rebuildable semantic projection of one committed memory.
///
/// The sidecar is a separate SQLite database. It never changes the
/// authoritative memory and contains no episode or symbol text. The database
/// connection stays with the caller.
#[derive(Debug)]
pub struct SemanticCueIndex {
    memory_id: MemoryId,
    profile: EmbeddingProfile,
    stats: IndexStats,
}

impl SemanticCueIndex {
    /// The indexed memory.
    pub closed spec fn memory(&self) -> MemoryId {
        self.memory_id
    }

    /// The embedding profile.
    pub closed spec fn made_for(&self) -> EmbeddingProfile {
        self.profile
    }

    /// The committed counts.
    pub closed spec fn counts(&self) -> (u64, u64, u64) {
        self.stats@
    }

    /// Starts an index without episodes.
    pub fn empty(memory_id: MemoryId, profile: EmbeddingProfile) -> (index: SemanticCueIndex)
        ensures
            index.memory() == memory_id,
            index.made_for() == profile,
            index.counts() == (0u64, 0u64, 0u64),
    {
        SemanticCueIndex { memory_id, profile, stats: IndexStats::new(0, 0, 0) }
    }

    /// Validates a sidecar against a committed memory.
    ///
    /// The sidecar may cover a strict prefix of the append-only episodes.
    pub fn open(
        rows: &IndexRows,
        memory: &Memory<EpisodeAtom>,
        profile: EmbeddingProfile,
        canonical: &[SchemaObject],
    ) -> (result: Result<SemanticCueIndex, IndexError>)
        requires
            memory.wf(),
        ensures
            match (
                index_in(
                    *rows,
                    memory.atoms(),
                    memory.identifier()@,
                    profile,
                    object_contents(canonical@),
                ),
                result,
            ) {
                (Ok((pairs, counts)), Ok(index)) => {
                    &&& index.memory() == memory.identifier()
                    &&& index.made_for() == profile
                    &&& index.counts() == counts
                },
                (Err(fault), Err(error)) => index_reports(error, fault),
                _ => false,
            },
    {
        let empty = SemanticCueIndex::empty(memory.memory_id(), profile);
        match empty.validate_rows(rows, memory, canonical) {
            Ok(validated) => Ok(
                SemanticCueIndex { memory_id: memory.memory_id(), profile, stats: validated.stats },
            ),
            Err(error) => Err(error),
        }
    }

    /// Returns the committed coverage and row counts of this sidecar session.
    pub fn stats(&self) -> (stats: IndexStats)
        ensures
            stats@ == self.counts(),
    {
        self.stats
    }

    /// Validates every row of the sidecar.
    fn validate_rows(
        &self,
        rows: &IndexRows,
        memory: &Memory<EpisodeAtom>,
        canonical: &[SchemaObject],
    ) -> (result: Result<ValidatedIndex, IndexError>)
        requires
            memory.wf(),
        ensures
            match (
                index_in(
                    *rows,
                    memory.atoms(),
                    memory.identifier()@,
                    self.made_for(),
                    object_contents(canonical@),
                ),
                result,
            ) {
                (Ok((pairs, counts)), Ok(validated)) => validated.catalog@ == pairs
                    && validated.stats@ == counts,
                (Err(fault), Err(error)) => index_reports(error, fault),
                _ => false,
            },
    {
        match verify_application_id(rows.application_id) {
            Ok(_) => {},
            Err(error) => {
                return Err(error);
            },
        }
        let metadata = match read_metadata(rows.metadata.as_slice()) {
            Ok(metadata) => metadata,
            Err(error) => {
                return Err(error);
            },
        };
        match verify_metadata(&metadata, memory.memory_id(), self.profile) {
            Ok(_) => {},
            Err(error) => {
                return Err(error);
            },
        }
        if !same_objects(rows.schema.as_slice(), canonical) {
            return invalid_sidecar(WRONG_SCHEMA);
        }
        if !same_text(rows.quick_check.as_str(), "ok") {
            return invalid_index(
                IndexIntegrityError::QuickCheckFailed { detail: rows.quick_check.clone() },
            );
        }
        if rows.broken_reference {
            return invalid_index(IndexIntegrityError::ForeignKeyCheckFailed);
        }
        let atoms = memory.episodes();
        if metadata.indexed_episode_count > atoms.len() as u64 {
            return invalid_sidecar(COUNT_EXCEEDS);
        }
        let catalog = match read_cues(rows.cues.as_slice(), self.profile) {
            Ok(catalog) => catalog,
            Err(error) => {
                return Err(error);
            },
        };
        let posting_count: u64 = match validate_postings(
            rows.postings.as_slice(),
            atoms,
            metadata.indexed_episode_count,
            &catalog,
        ) {
            Ok(count) => count,
            Err(error) => {
                return Err(error);
            },
        };
        let cue_count: usize = catalog.len();
        let stats = IndexStats::new(
            metadata.indexed_episode_count,
            cue_count as u64,
            posting_count,
        );
        Ok(ValidatedIndex { catalog, stats })
    }

    /// Validates every row of the sidecar, and that no other session changed
    /// its counts.
    pub fn validate_store(
        &self,
        rows: &IndexRows,
        memory: &Memory<EpisodeAtom>,
        canonical: &[SchemaObject],
    ) -> (result: Result<ValidatedIndex, IndexError>)
        requires
            memory.wf(),
        ensures
            match (
                index_in(
                    *rows,
                    memory.atoms(),
                    memory.identifier()@,
                    self.made_for(),
                    object_contents(canonical@),
                ),
                result,
            ) {
                (Ok((pairs, counts)), Ok(validated)) => counts == self.counts()
                    && validated.catalog@ == pairs && validated.stats@ == counts,
                (Ok((pairs, counts)), Err(error)) => counts != self.counts() && error == (
                IndexError::ConcurrentModification {
                    expected_episode_count: self.counts().0,
                    actual_episode_count: counts.0,
                }),
                (Err(fault), Err(error)) => index_reports(error, fault),
                _ => false,
            },
    {
        match self.validate_rows(rows, memory, canonical) {
            Err(error) => Err(error),
            Ok(validated) => {
                let found = validated.stats;
                if found.indexed_episode_count() != self.stats.indexed_episode_count()
                    || found.cue_count() != self.stats.cue_count() || found.posting_count()
                    != self.stats.posting_count() {
                    return Err(
                        IndexError::ConcurrentModification {
                            expected_episode_count: self.stats.indexed_episode_count(),
                            actual_episode_count: found.indexed_episode_count(),
                        },
                    );
                }
                Ok(validated)
            },
        }
    }

    /// Requires an embedder of the index profile.
    pub fn verify_embedder(&self, profile: EmbeddingProfile) -> (result: Result<(), IndexError>)
        ensures
            result == if profile@ == self.made_for()@ {
                Ok::<(), IndexError>(())
            } else {
                Err(IndexError::ProfileMismatch { expected: self.made_for(), found: profile })
            },
    {
        if profile.same(&self.profile) {
            Ok(())
        } else {
            Err(IndexError::ProfileMismatch { expected: self.profile, found: profile })
        }
    }

    /// Plans the cues and postings of the episodes behind a validated index;
    /// `None` if it covers all of them.
    pub fn plan_synchronization(&self, validated: ValidatedIndex, memory: &Memory<EpisodeAtom>) -> (plan:
        Option<SyncPlan>)
        requires
            validated.stats@.0 <= memory.atoms().len(),
        ensures
            plan is None <==> validated.stats@.0 == memory.atoms().len(),
            plan matches Some(plan) ==> {
                let later = memory.atoms().skip(validated.stats@.0 as int);
                &&& plan.catalog@ == add_episodes(validated.catalog@, later)
                &&& lists_new_cues(plan.new_cues@, plan.catalog@, validated.catalog@.len())
                &&& plan.postings@ == postings_of(later, plan.catalog@)
            },
    {
        let atoms = memory.episodes();
        let length: usize = atoms.len();
        let start: usize = validated.stats.indexed_episode_count() as usize;
        if start == length {
            return None;
        }
        Some(plan_tail(atoms, start, validated.catalog))
    }

    /// The error of a sidecar that changed before it is written to.
    pub open spec fn change_error(
        &self,
        seen: SyncObservation,
        canonical: Seq<ObjectContent>,
        covered: u64,
    ) -> Option<IndexFault> {
        if seen.application_id != APPLICATION_ID {
            Some(
                IndexFault::Known(
                    IndexError::InvalidIndex(
                        IndexIntegrityError::ApplicationMismatch { found: seen.application_id },
                    ),
                ),
            )
        } else {
            match version_error(seen.versions@) {
                Some(error) => Some(IndexFault::Known(error)),
                None => if object_contents(seen.schema@) != canonical {
                    Some(
                        IndexFault::Known(
                            bad_sidecar("sidecar schema changed before synchronization"),
                        ),
                    )
                } else {
                    match metadata_in(seen.metadata@) {
                        Err(error) => Some(IndexFault::Known(error)),
                        Ok(content) => if content.memory != self.memory()@ {
                            Some(
                                IndexFault::Known(
                                    IndexError::InvalidIndex(IndexIntegrityError::MemoryMismatch),
                                ),
                            )
                        } else if content.profile != self.made_for()@ {
                            Some(
                                IndexFault::Profile {
                                    expected: content.profile,
                                    found: self.made_for(),
                                },
                            )
                        } else if content.episodes != covered {
                            Some(
                                IndexFault::Known(
                                    IndexError::ConcurrentModification {
                                        expected_episode_count: covered,
                                        actual_episode_count: content.episodes,
                                    },
                                ),
                            )
                        } else {
                            None
                        },
                    }
                },
            }
        }
    }

    /// Requires the sidecar to be unchanged before it is written to.
    pub fn verify_unchanged(
        &self,
        seen: &SyncObservation,
        canonical: &[SchemaObject],
        covered: u64,
    ) -> (result: Result<(), IndexError>)
        ensures
            match (self.change_error(*seen, object_contents(canonical@), covered), result) {
                (None, Ok(_)) => true,
                (Some(fault), Err(error)) => index_reports(error, fault),
                _ => false,
            },
    {
        match verify_application_id(seen.application_id) {
            Ok(_) => {},
            Err(error) => {
                return Err(error);
            },
        }
        match verify_format_version(seen.versions.as_slice()) {
            Ok(_) => {},
            Err(error) => {
                return Err(error);
            },
        }
        if !same_objects(seen.schema.as_slice(), canonical) {
            return invalid_sidecar(SCHEMA_CHANGED);
        }
        let metadata = match read_metadata(seen.metadata.as_slice()) {
            Ok(metadata) => metadata,
            Err(error) => {
                return Err(error);
            },
        };
        match verify_metadata(&metadata, self.memory_id, self.profile) {
            Ok(_) => {},
            Err(error) => {
                return Err(error);
            },
        }
        if metadata.indexed_episode_count != covered {
            return Err(
                IndexError::ConcurrentModification {
                    expected_episode_count: covered,
                    actual_episode_count: metadata.indexed_episode_count,
                },
            );
        }
        Ok(())
    }

    /// Lists the texts of cues for one embedding request.
    pub fn cue_texts<'a>(cues: &[NewCue], symbols: &'a ResolvedSymbols) -> (result: Result<
        Vec<CueText<'a>>,
        IndexError,
    >)
        ensures
            match result {
                Ok(texts) => {
                    &&& texts@.len() == cues@.len()
                    &&& forall|i: int|
                        0 <= i < texts@.len() ==> has_texts(#[trigger] cues@[i], symbols.by_id())
                            && texts@[i].texts() == texts_of(cues@[i], symbols.by_id())
                },
                Err(error) => exists|i: int| #[trigger]
                    first_textless(cues@, symbols.by_id(), i) && error == textless(cues@[i]),
            },
    {
        proof {
            use_type_invariant(symbols);
        }
        let mut texts: Vec<CueText<'a>> = Vec::new();
        let mut index: usize = 0;
        while index < cues.len()
            invariant
                index <= cues@.len(),
                symbols.aligned(),
                texts@.len() == index,
                forall|i: int|
                    0 <= i < texts@.len() ==> has_texts(#[trigger] cues@[i], symbols.by_id())
                        && texts@[i].texts() == texts_of(cues@[i], symbols.by_id()),
            decreases cues.len() - index,
        {
            let cue = cues[index];
            let key = match symbol_text(
                SymbolId::new(cue.key_id),
                symbols.ids.as_slice(),
                symbols.texts.as_slice(),
            ) {
                Ok(key) => key,
                Err(_) => {
                    assert(first_textless(cues@, symbols.by_id(), index as int));
                    return invalid_index(
                        IndexIntegrityError::InvalidCue {
                            cue_id: cue.cue_id,
                            detail: ABSENT_SYMBOL,
                        },
                    );
                },
            };
            let value = match symbol_text(
                SymbolId::new(cue.value_id),
                symbols.ids.as_slice(),
                symbols.texts.as_slice(),
            ) {
                Ok(value) => value,
                Err(_) => {
                    assert(first_textless(cues@, symbols.by_id(), index as int));
                    return invalid_index(
                        IndexIntegrityError::InvalidCue {
                            cue_id: cue.cue_id,
                            detail: ABSENT_SYMBOL,
                        },
                    );
                },
            };
            texts.push(CueText::new(key, value));
            index += 1;
        }
        Ok(texts)
    }

    /// The cues of the embedding request that starts at a place.
    pub fn batch_at(cues: &[NewCue], start: usize) -> (batch: Vec<NewCue>)
        requires
            start <= cues@.len(),
        ensures
            batch@ == cues@.subrange(start as int, batch_end(cues@.len(), start as nat) as int),
    {
        let end: usize = if cues.len() - start > EMBEDDING_BATCH_SIZE {
            start + EMBEDDING_BATCH_SIZE
        } else {
            cues.len()
        };
        let mut batch: Vec<NewCue> = Vec::new();
        let mut index: usize = start;
        while index < end
            invariant
                start <= index <= end <= cues@.len(),
                batch@ =~= cues@.subrange(start as int, index as int),
            decreases end - index,
        {
            batch.push(cues[index]);
            index += 1;
        }
        batch
    }

    /// Embeds the new cues in batches and lists their rows.
    ///
    /// The requests are those of [`Self::batch_at`], with the texts of
    /// [`Self::cue_texts`]. What an embedder returns is held to the count and
    /// the profile of each batch by [`accept_batch`]; its own failure ends the
    /// synchronization.
    pub fn embed_cues<E: CueEmbedder>(
        &self,
        cues: &[NewCue],
        symbols: &ResolvedSymbols,
        embedder: &mut E,
    ) -> (result: Result<Vec<CueValues>, IndexError>)
        ensures
            match result {
                Ok(rows) => {
                    &&& rows@.len() == cues@.len()
                    &&& forall|i: int|
                        0 <= i < rows@.len() ==> embeds(
                            #[trigger] rows@[i],
                            cues@[i],
                            self.made_for()@.1,
                        ) && has_texts(cues@[i], symbols.by_id())
                    &&& holds_answers::<E>(
                        rows@,
                        cues@,
                        symbols.by_id(),
                        cues@.len() as int,
                    )
                },
                Err(error) => {
                    &&& cues@.len() > 0
                    &&& {
                        ||| unanswered(error, cues@, self.made_for())
                        ||| exists|i: int| #[trigger]
                            first_textless(cues@, symbols.by_id(), i) && error == textless(cues@[i])
                    }
                },
            },
    {
        let mut rows: Vec<CueValues> = Vec::new();
        let mut start: usize = 0;
        while start < cues.len()
            invariant
                start <= cues@.len(),
                rows@.len() == start,
                forall|i: int|
                    0 <= i < rows@.len() ==> embeds(
                        #[trigger] rows@[i],
                        cues@[i],
                        self.made_for()@.1,
                    ) && has_texts(cues@[i], symbols.by_id()),
                start == cues@.len() || start % EMBEDDING_BATCH_SIZE == 0,
                holds_answers::<E>(rows@, cues@, symbols.by_id(), start as int),
            decreases cues.len() - start,
        {
            match self.verify_embedder(embedder.profile()) {
                Ok(_) => {},
                Err(error) => {
                    return Err(error);
                },
            }
            let chunk = Self::batch_at(cues, start);
            let ghost end = batch_end(cues@.len(), start as nat);
            assert(forall|i: int|
                0 <= i < chunk@.len() ==> (#[trigger] chunk@[i]) == cues@[start + i]);
            let texts = match Self::cue_texts(chunk.as_slice(), symbols) {
                Ok(texts) => texts,
                Err(error) => {
                    proof {
                        let place = choose|i: int| #[trigger]
                            first_textless(chunk@, symbols.by_id(), i) && error == textless(
                                chunk@[i],
                            );
                        assert forall|i: int| 0 <= i < start + place implies has_texts(
                            #[trigger] cues@[i],
                            symbols.by_id(),
                        ) by {
                            if i < start {
                                assert(embeds(rows@[i], cues@[i], self.made_for()@.1));
                            } else {
                                assert(chunk@[i - start] == cues@[i]);
                            }
                        }
                        assert(first_textless(cues@, symbols.by_id(), start + place));
                    }
                    return Err(error);
                },
            };
            let embeddings: Vec<Embedding> = match embedder.embed_batch(texts.as_slice()) {
                Ok(embeddings) => embeddings,
                Err(detail) => {
                    return Err(IndexError::Embedder(detail));
                },
            };
            let ghost before = rows@;
            match accept_batch(chunk.as_slice(), embeddings.as_slice(), self.profile) {
                Ok(batch) => {
                    let mut batch: Vec<CueValues> = batch;
                    let ghost added = batch@;
                    rows.append(&mut batch);
                    proof {
                        assert(rows@ =~= before + added);
                        assert forall|i: int| 0 <= i < rows@.len() implies embeds(
                            #[trigger] rows@[i],
                            cues@[i],
                            self.made_for()@.1,
                        ) && has_texts(cues@[i], symbols.by_id()) by {
                            if i < before.len() {
                                assert(rows@[i] == before[i]);
                            } else {
                                assert(rows@[i] == added[i - before.len()]);
                                assert(chunk@[i - before.len()] == cues@[i]);
                            }
                        }
                        assert(pairs_of(texts@) =~= batch_texts(
                            cues@.subrange(start as int, end as int),
                            symbols.by_id(),
                        ));
                        assert(row_vectors(rows@.subrange(start as int, end as int))
                            =~= vectors_of(embeddings@)) by {
                            assert forall|i: int| 0 <= i < embeddings@.len() implies components(
                                rows@.subrange(start as int, end as int)[i].3@,
                            ) == embeddings@[i].components() by {
                                assert(rows@[start + i] == added[i]);
                                law_vector_codec_round_trip(
                                    embeddings@[i].components(),
                                    Seq::empty(),
                                );
                            }
                        }
                        assert forall|place: int|
                            0 <= place < end && place % (EMBEDDING_BATCH_SIZE as int)
                                == 0 implies #[trigger] holds_answer::<E>(
                            rows@,
                            cues@,
                            symbols.by_id(),
                            place,
                        ) by {
                            if place < start {
                                let stop = batch_end(cues@.len(), place as nat) as int;
                                assert(stop <= start);
                                assert(holds_answer::<E>(before, cues@, symbols.by_id(), place));
                                assert(rows@.subrange(place, stop) =~= before.subrange(
                                    place,
                                    stop,
                                ));
                            } else {
                                assert(place == start);
                            }
                        }
                    }
                },
                Err(error) => {
                    return Err(error);
                },
            }
            start = start + chunk.len();
        }
        Ok(rows)
    }

    /// Takes over the counts of a committed synchronization.
    ///
    /// `changed` is the number of metadata rows that the commit updated, and
    /// `actual` the coverage that the sidecar shows where it is not one.
    pub fn finish_synchronization(
        &mut self,
        covered: u64,
        episode_count: u64,
        cue_count: u64,
        added_postings: u64,
        changed: usize,
        actual: u64,
    ) -> (result: Result<IndexStats, IndexError>)
        ensures
            final(self).memory() == old(self).memory(),
            final(self).made_for() == old(self).made_for(),
            if changed != 1 {
                &&& final(self).counts() == old(self).counts()
                &&& result == Err::<IndexStats, IndexError>(
                    IndexError::ConcurrentModification {
                        expected_episode_count: covered,
                        actual_episode_count: actual,
                    },
                )
            } else if old(self).counts().2 + added_postings > u64::MAX {
                &&& final(self).counts() == old(self).counts()
                &&& result == Err::<IndexStats, IndexError>(IndexError::EpisodeCountExhausted)
            } else {
                &&& result is Ok
                &&& result->Ok_0@ == final(self).counts()
                &&& final(self).counts() == (
                    episode_count,
                    cue_count,
                    (old(self).counts().2 + added_postings) as u64,
                )
            },
    {
        if changed != 1 {
            return Err(
                IndexError::ConcurrentModification {
                    expected_episode_count: covered,
                    actual_episode_count: actual,
                },
            );
        }
        match self.stats.posting_count().checked_add(added_postings) {
            None => Err(IndexError::EpisodeCountExhausted),
            Some(posting_count) => {
                self.stats = IndexStats::new(episode_count, cue_count, posting_count);
                Ok(self.stats)
            },
        }
    }

    /// Requires a published sidecar to be the one that was validated; tells
    /// whether another session extended it since.
    pub fn verify_published(&self, seen: &SyncObservation, canonical: &[SchemaObject]) -> (result:
        Result<bool, IndexError>)
        ensures
            match result {
                Ok(same) => {
                    &&& object_contents(seen.schema@) == object_contents(canonical@)
                    &&& metadata_in(seen.metadata@) matches Ok(content) && {
                        &&& content.memory == self.memory()@
                        &&& content.profile == self.made_for()@
                        &&& same == (content.episodes == self.counts().0)
                    }
                },
                Err(error) => if object_contents(seen.schema@) != object_contents(canonical@) {
                    error == bad_sidecar(
                        "published sidecar schema differs from its validated staging file",
                    )
                } else {
                    match metadata_in(seen.metadata@) {
                        Err(expected) => error == expected,
                        Ok(content) => if content.memory != self.memory()@ {
                            error == IndexError::InvalidIndex(IndexIntegrityError::MemoryMismatch)
                        } else {
                            &&& content.profile != self.made_for()@
                            &&& index_reports(
                                error,
                                IndexFault::Profile {
                                    expected: content.profile,
                                    found: self.made_for(),
                                },
                            )
                        },
                    }
                },
            },
    {
        if !same_objects(seen.schema.as_slice(), canonical) {
            return invalid_sidecar(PUBLISHED_SCHEMA);
        }
        let metadata = match read_metadata(seen.metadata.as_slice()) {
            Ok(metadata) => metadata,
            Err(error) => {
                return Err(error);
            },
        };
        match verify_metadata(&metadata, self.memory_id, self.profile) {
            Ok(_) => {},
            Err(error) => {
                return Err(error);
            },
        }
        Ok(metadata.indexed_episode_count == self.stats.indexed_episode_count())
    }
}

} // verus!
