//! Sidecar sessions over the rows that a sidecar database holds.

use nao_m_e::attribute::{Attribute, EpisodeAtom, EpisodeDraft};
use nao_m_e::memory::Memory;
use nao_m_e::model::{MemoryId, SymbolId, TimestampMs};
use nao_m_e::semantic_index::cues::CueRow;
use nao_m_e::semantic_index::error::{IndexError, IndexIntegrityError};
use nao_m_e::semantic_index::format::{
    canonical_schema_objects, IndexMetadataRow, APPLICATION_ID, FORMAT_VERSION,
};
use nao_m_e::semantic_index::index::{IndexRows, SemanticCueIndex, SyncObservation};
use nao_m_e::semantic_index::model::{
    CueEmbedder, CueText, Embedding, EmbeddingProfile, IndexStats,
};
use nao_m_e::semantic_index::postings::PostingRow;
use nao_m_e::sqlite::format::{schema_object, SchemaObject};
use nao_m_e::sqlite::row::Value;

const PROFILE_FINGERPRINT: [u8; 32] = [0x35; 32];
const OTHER_PROFILE_FINGERPRINT: [u8; 32] = [0xa7; 32];
const FINGERPRINT: [u8; 32] = [7; 32];
const DIMENSIONS: u16 = 3;

#[derive(Clone, Copy)]
enum EmbedBehavior {
    Normal,
    Fail,
    WrongLength,
}

struct RecordingEmbedder {
    profile: EmbeddingProfile,
    behavior: EmbedBehavior,
    calls: Vec<Vec<(String, String)>>,
}

impl RecordingEmbedder {
    fn with(profile: EmbeddingProfile, behavior: EmbedBehavior) -> Self {
        Self {
            profile,
            behavior,
            calls: Vec::new(),
        }
    }

    fn new(profile: EmbeddingProfile) -> Self {
        Self::with(profile, EmbedBehavior::Normal)
    }

    fn embedding(&self, cue: CueText<'_>) -> Embedding {
        let key = checksum(cue.key());
        let value = checksum(cue.value());
        Embedding::new(self.profile, vec![key, value, key.wrapping_add(value)])
            .expect("test vectors have the profile width and are non-zero")
    }
}

impl CueEmbedder for RecordingEmbedder {
    fn profile(&self) -> EmbeddingProfile {
        self.profile
    }

    fn embed_batch(&mut self, cues: &[CueText<'_>]) -> Result<Vec<Embedding>, String> {
        self.calls.push(
            cues.iter()
                .map(|cue| (cue.key().to_owned(), cue.value().to_owned()))
                .collect(),
        );
        match self.behavior {
            EmbedBehavior::Normal => Ok(cues
                .iter()
                .copied()
                .map(|cue| self.embedding(cue))
                .collect()),
            EmbedBehavior::Fail => Err("deliberate test embedder failure".to_owned()),
            EmbedBehavior::WrongLength => Ok(Vec::new()),
        }
    }
}

fn checksum(value: &str) -> i16 {
    let sum = value.bytes().fold(1_u32, |sum, byte| {
        sum.wrapping_mul(31).wrapping_add(u32::from(byte))
    });
    i16::try_from((sum % 30_000) + 1).unwrap()
}

fn profile() -> EmbeddingProfile {
    EmbeddingProfile::new(PROFILE_FINGERPRINT, DIMENSIONS).unwrap()
}

fn other_profile() -> EmbeddingProfile {
    EmbeddingProfile::new(OTHER_PROFILE_FINGERPRINT, DIMENSIONS).unwrap()
}

fn blob(value: u64) -> Value {
    Value::Blob(value.to_be_bytes().to_vec())
}

/// A committed memory with the texts of its symbols.
struct Store {
    memory: Memory<EpisodeAtom>,
    texts: Vec<String>,
}

impl Store {
    fn new(memory_id: u128) -> Self {
        Self {
            memory: Memory::new(MemoryId::new(memory_id).unwrap()),
            texts: Vec::new(),
        }
    }

    fn intern(&mut self, text: &str) -> SymbolId {
        let position = match self.texts.iter().position(|known| known == text) {
            Some(position) => position,
            None => {
                self.texts.push(text.to_owned());
                self.texts.len() - 1
            }
        };
        SymbolId::new(position as u64)
    }

    fn append(&mut self, attributes: &[(&str, &[&str])]) {
        let attributes = attributes
            .iter()
            .map(|(key, values)| {
                let key = self.intern(key);
                let values = values.iter().map(|value| self.intern(value)).collect();
                Attribute::new(key, values).unwrap()
            })
            .collect();
        let timestamp = i64::try_from(self.memory.episodes().len()).unwrap();
        self.memory
            .insert_episode(EpisodeDraft::new(TimestampMs::new(timestamp), attributes).unwrap())
            .unwrap();
    }

    fn value(&self, id: SymbolId) -> Option<String> {
        self.texts.get(id.get() as usize).cloned()
    }
}

/// The rows of a sidecar database.
struct Sidecar {
    metadata: Vec<IndexMetadataRow>,
    schema: Vec<SchemaObject>,
    cues: Vec<CueRow>,
    postings: Vec<PostingRow>,
}

impl Sidecar {
    fn new(store: &Store, profile: EmbeddingProfile) -> Self {
        Self {
            metadata: vec![IndexMetadataRow {
                format_version: Value::Integer(FORMAT_VERSION),
                memory_id: Value::Blob(store.memory.memory_id().to_be_bytes().to_vec()),
                profile_fingerprint: Value::Blob(profile.fingerprint().to_vec()),
                dimensions: Value::Integer(i64::from(profile.dimensions())),
                indexed_episode_count: blob(0),
            }],
            schema: canonical_schema_objects(),
            cues: Vec::new(),
            postings: Vec::new(),
        }
    }

    fn rows(&self) -> IndexRows {
        IndexRows {
            application_id: APPLICATION_ID,
            metadata: self.metadata.clone(),
            schema: self.schema.clone(),
            quick_check: "ok".to_owned(),
            broken_reference: false,
            cues: self.cues.clone(),
            postings: self.postings.clone(),
        }
    }

    fn observation(&self) -> SyncObservation {
        SyncObservation {
            application_id: APPLICATION_ID,
            versions: self
                .metadata
                .iter()
                .map(|row| row.format_version.clone())
                .collect(),
            schema: self.schema.clone(),
            metadata: self.metadata.clone(),
        }
    }

    fn open(&self, store: &Store, profile: EmbeddingProfile) -> Result<SemanticCueIndex, IndexError> {
        SemanticCueIndex::open(
            &self.rows(),
            &store.memory,
            profile,
            &canonical_schema_objects(),
        )
    }

    fn synchronize(
        &mut self,
        index: &mut SemanticCueIndex,
        store: &Store,
        embedder: &mut RecordingEmbedder,
    ) -> Result<IndexStats, IndexError> {
        let canonical = canonical_schema_objects();
        let start = index.begin_synchronization(
            &self.rows(),
            &store.memory,
            embedder.profile(),
            &canonical,
        )?;
        let Some(start) = start else {
            return Ok(index.stats());
        };
        let values = start.symbols().iter().map(|&id| store.value(id)).collect();
        let write = index.complete_synchronization(
            start,
            values,
            &self.observation(),
            &canonical,
            embedder,
        )?;
        let added = write.postings.len() as u64;
        let stats = index.finish_synchronization(
            write.covered,
            write.episode_count,
            write.cue_count,
            added,
            1,
            write.covered,
        )?;
        for (cue_id, key_id, value_id, vector) in write.cues {
            self.cues.push(CueRow {
                cue_id: blob(cue_id),
                key_id: blob(key_id),
                value_id: blob(value_id),
                vector: Value::Blob(vector),
            });
        }
        for (sequence, cue_id) in write.postings {
            self.postings.push(PostingRow {
                sequence: blob(sequence),
                cue_id: blob(cue_id),
            });
        }
        self.metadata[0].indexed_episode_count = blob(write.episode_count);
        Ok(stats)
    }
}

fn create(
    store: &Store,
    embedder: &mut RecordingEmbedder,
) -> Result<(Sidecar, SemanticCueIndex), IndexError> {
    let mut sidecar = Sidecar::new(store, embedder.profile());
    let mut index = SemanticCueIndex::empty(store.memory.memory_id(), embedder.profile());
    sidecar.synchronize(&mut index, store, embedder)?;
    Ok((sidecar, index))
}

fn populated() -> (Store, Sidecar) {
    let mut store = Store::new(1);
    store.append(&[("project", &["lamentis"])]);
    let mut embedder = RecordingEmbedder::new(profile());
    let (sidecar, _) = create(&store, &mut embedder).unwrap();
    (store, sidecar)
}

fn assert_stats(stats: IndexStats, episodes: u64, cues: u64, postings: u64) {
    assert_eq!(stats.indexed_episode_count(), episodes);
    assert_eq!(stats.cue_count(), cues);
    assert_eq!(stats.posting_count(), postings);
}

fn expect_index_error<T>(result: Result<T, IndexError>) -> IndexError {
    match result {
        Ok(_) => panic!("operation unexpectedly accepted an invalid index state"),
        Err(error) => error,
    }
}

#[test]
fn profile_rejects_zero_components_and_preserves_valid_parts() {
    assert_eq!(EmbeddingProfile::new([0; 32], 1), None);
    assert_eq!(EmbeddingProfile::new(FINGERPRINT, 0), None);

    let profile = EmbeddingProfile::new(FINGERPRINT, u16::MAX).unwrap();
    assert_eq!(profile.fingerprint(), FINGERPRINT);
    assert_eq!(profile.dimensions(), u16::MAX);
}

#[test]
fn embedding_requires_exact_dimension_and_a_non_zero_component() {
    let profile = EmbeddingProfile::new(FINGERPRINT, 3).unwrap();

    assert_eq!(Embedding::new(profile, vec![1, 2]), None);
    assert_eq!(Embedding::new(profile, vec![1, 2, 3, 4]), None);
    assert_eq!(Embedding::new(profile, vec![0, 0, 0]), None);

    let embedding = Embedding::new(profile, vec![i16::MIN, 0, i16::MAX]).unwrap();
    assert_eq!(embedding.profile(), profile);
    assert_eq!(embedding.values(), &[i16::MIN, 0, i16::MAX]);
}

#[test]
fn empty_memory_creates_and_reopens_an_empty_index() {
    let store = Store::new(1);
    let mut embedder = RecordingEmbedder::new(profile());

    let (sidecar, index) = create(&store, &mut embedder).unwrap();
    assert_stats(index.stats(), 0, 0, 0);
    assert!(embedder.calls.is_empty());

    let reopened = sidecar.open(&store, profile()).unwrap();
    assert_stats(reopened.stats(), 0, 0, 0);
}

#[test]
fn bound_cues_are_deduplicated_but_keep_every_episode_posting() {
    let mut store = Store::new(1);
    store.append(&[("topic", &["rust", "sqlite"]), ("state", &["open"])]);
    store.append(&[("topic", &["rust"]), ("alias", &["rust"])]);
    let mut embedder = RecordingEmbedder::new(profile());

    let (sidecar, index) = create(&store, &mut embedder).unwrap();

    assert_stats(index.stats(), 2, 4, 5);
    assert_eq!(
        embedder.calls,
        [vec![
            ("topic".to_owned(), "rust".to_owned()),
            ("topic".to_owned(), "sqlite".to_owned()),
            ("state".to_owned(), "open".to_owned()),
            ("alias".to_owned(), "rust".to_owned()),
        ]]
    );

    let reopened = sidecar.open(&store, profile()).unwrap();
    assert_stats(reopened.stats(), 2, 4, 5);
}

#[test]
fn synchronize_embeds_only_new_cues_and_persists_the_extended_prefix() {
    let mut store = Store::new(1);
    store.append(&[("project", &["lamentis"])]);
    let mut initial_embedder = RecordingEmbedder::new(profile());
    let (mut sidecar, mut index) = create(&store, &mut initial_embedder).unwrap();
    assert_stats(index.stats(), 1, 1, 1);

    store.append(&[("project", &["lamentis"]), ("error", &["http 404"])]);
    let mut incremental_embedder = RecordingEmbedder::new(profile());

    let stats = sidecar
        .synchronize(&mut index, &store, &mut incremental_embedder)
        .unwrap();
    assert_stats(stats, 2, 2, 3);
    assert_eq!(
        incremental_embedder.calls,
        [vec![("error".to_owned(), "http 404".to_owned())]]
    );

    let reopened = sidecar.open(&store, profile()).unwrap();
    assert_stats(reopened.stats(), 2, 2, 3);
}

#[test]
fn synchronize_with_only_known_cues_never_calls_the_embedder() {
    let mut store = Store::new(1);
    store.append(&[("project", &["lamentis"])]);
    let mut initial_embedder = RecordingEmbedder::new(profile());
    let (mut sidecar, mut index) = create(&store, &mut initial_embedder).unwrap();

    store.append(&[("project", &["lamentis"])]);
    let mut incremental_embedder = RecordingEmbedder::new(profile());

    let stats = sidecar
        .synchronize(&mut index, &store, &mut incremental_embedder)
        .unwrap();
    assert_stats(stats, 2, 1, 2);
    assert!(incremental_embedder.calls.is_empty());
}

#[test]
fn synchronization_batches_257_new_cues_as_256_plus_one() {
    let mut store = Store::new(1);
    let values: Vec<_> = (0..257).map(|index| format!("value-{index:03}")).collect();
    let value_refs: Vec<_> = values.iter().map(String::as_str).collect();
    store.append(&[("tag", value_refs.as_slice())]);
    let mut embedder = RecordingEmbedder::new(profile());

    let (sidecar, index) = create(&store, &mut embedder).unwrap();

    assert_stats(index.stats(), 1, 257, 257);
    assert_eq!(
        embedder.calls.iter().map(Vec::len).collect::<Vec<_>>(),
        [256, 1]
    );
    assert_eq!(
        embedder.calls[0][0],
        ("tag".to_owned(), values[0].clone())
    );
    assert_eq!(
        embedder.calls[1][0],
        ("tag".to_owned(), values[256].clone())
    );

    let reopened = sidecar.open(&store, profile()).unwrap();
    assert_stats(reopened.stats(), 1, 257, 257);
}

#[test]
fn stale_sidecar_session_is_rejected_and_a_reopened_session_can_continue() {
    let mut store = Store::new(1);
    store.append(&[("project", &["lamentis"])]);
    let mut initial_embedder = RecordingEmbedder::new(profile());
    let (mut sidecar, mut first) = create(&store, &mut initial_embedder).unwrap();
    let mut stale = sidecar.open(&store, profile()).unwrap();

    store.append(&[("error", &["http 404"])]);
    let mut first_embedder = RecordingEmbedder::new(profile());
    assert_stats(
        sidecar
            .synchronize(&mut first, &store, &mut first_embedder)
            .unwrap(),
        2,
        2,
        2,
    );

    let mut stale_embedder = RecordingEmbedder::new(profile());
    let error = expect_index_error(sidecar.synchronize(&mut stale, &store, &mut stale_embedder));
    assert_eq!(
        error,
        IndexError::ConcurrentModification {
            expected_episode_count: 1,
            actual_episode_count: 2
        }
    );
    assert!(stale_embedder.calls.is_empty());

    let mut reopened = sidecar.open(&store, profile()).unwrap();
    store.append(&[("status", &["fixed"])]);
    let mut reopened_embedder = RecordingEmbedder::new(profile());
    assert_stats(
        sidecar
            .synchronize(&mut reopened, &store, &mut reopened_embedder)
            .unwrap(),
        3,
        3,
        3,
    );
    assert_eq!(
        reopened_embedder.calls,
        [vec![("status".to_owned(), "fixed".to_owned())]]
    );
}

#[test]
fn unchanged_memory_is_a_no_op_sync() {
    let mut store = Store::new(1);
    store.append(&[("project", &["lamentis"])]);
    let mut initial_embedder = RecordingEmbedder::new(profile());
    let (mut sidecar, mut index) = create(&store, &mut initial_embedder).unwrap();
    let before = (sidecar.cues.clone(), sidecar.postings.clone());
    let before_stats = index.stats();
    let mut no_op_embedder = RecordingEmbedder::new(profile());

    let after_stats = sidecar
        .synchronize(&mut index, &store, &mut no_op_embedder)
        .unwrap();

    assert_eq!(after_stats, before_stats);
    assert!(no_op_embedder.calls.is_empty());
    assert_eq!((sidecar.cues, sidecar.postings), before);
}

#[test]
fn embedder_failures_and_wrong_batch_lengths_are_atomic_and_retryable() {
    let mut store = Store::new(1);
    store.append(&[("project", &["lamentis"])]);

    let mut failing_create = RecordingEmbedder::with(profile(), EmbedBehavior::Fail);
    let error = expect_index_error(create(&store, &mut failing_create));
    assert!(matches!(error, IndexError::Embedder(_)));

    let mut wrong_create = RecordingEmbedder::with(profile(), EmbedBehavior::WrongLength);
    let error = expect_index_error(create(&store, &mut wrong_create));
    assert_eq!(
        error,
        IndexError::EmbeddingBatchLength {
            expected: 1,
            found: 0
        }
    );

    let mut initial_embedder = RecordingEmbedder::new(profile());
    let (mut sidecar, mut index) = create(&store, &mut initial_embedder).unwrap();
    let original_stats = index.stats();
    store.append(&[("error", &["http 404"])]);

    for behavior in [EmbedBehavior::Fail, EmbedBehavior::WrongLength] {
        let mut failing_sync = RecordingEmbedder::with(profile(), behavior);
        let error = expect_index_error(sidecar.synchronize(&mut index, &store, &mut failing_sync));
        match behavior {
            EmbedBehavior::Fail => assert!(matches!(error, IndexError::Embedder(_))),
            _ => assert_eq!(
                error,
                IndexError::EmbeddingBatchLength {
                    expected: 1,
                    found: 0
                }
            ),
        }
        assert_eq!(index.stats(), original_stats);
        let reopened = sidecar.open(&store, profile()).unwrap();
        assert_eq!(reopened.stats(), original_stats);
    }

    let mut retry = RecordingEmbedder::new(profile());
    assert_stats(
        sidecar.synchronize(&mut index, &store, &mut retry).unwrap(),
        2,
        2,
        2,
    );
}

#[test]
fn profile_and_memory_mismatches_fail_closed() {
    let (store, mut sidecar) = populated();

    let error = expect_index_error(sidecar.open(&store, other_profile()));
    assert_eq!(
        error,
        IndexError::ProfileMismatch {
            expected: profile(),
            found: other_profile(),
        }
    );
    let mut index = sidecar.open(&store, profile()).unwrap();
    let mut embedder = RecordingEmbedder::new(other_profile());
    let error = expect_index_error(sidecar.synchronize(&mut index, &store, &mut embedder));
    assert_eq!(
        error,
        IndexError::ProfileMismatch {
            expected: profile(),
            found: other_profile(),
        }
    );

    let other = Store::new(2);
    let error = expect_index_error(sidecar.open(&other, profile()));
    assert_eq!(
        error,
        IndexError::InvalidIndex(IndexIntegrityError::MemoryMismatch)
    );
}

#[test]
fn an_additional_schema_object_is_rejected() {
    let (store, mut sidecar) = populated();
    sidecar.schema.push(schema_object(
        "table",
        "unexpected",
        "unexpected",
        Some("CREATE TABLE unexpected (value INTEGER)"),
    ));
    assert!(matches!(
        expect_index_error(sidecar.open(&store, profile())),
        IndexError::InvalidIndex(IndexIntegrityError::InvalidMetadata { .. })
    ));
}

#[test]
fn an_invalid_vector_is_rejected() {
    let (store, mut sidecar) = populated();
    sidecar.cues[0].vector = Value::Blob(vec![0_u8; usize::from(DIMENSIONS) * 2]);
    assert!(matches!(
        expect_index_error(sidecar.open(&store, profile())),
        IndexError::InvalidIndex(IndexIntegrityError::InvalidCue { .. })
    ));
}

#[test]
fn a_missing_required_posting_is_rejected() {
    let (store, mut sidecar) = populated();
    sidecar.postings.clear();
    assert!(matches!(
        expect_index_error(sidecar.open(&store, profile())),
        IndexError::InvalidIndex(IndexIntegrityError::InvalidPosting { .. })
    ));
}

#[test]
fn missing_metadata_uses_the_specific_integrity_error() {
    let (store, mut sidecar) = populated();
    sidecar.metadata.clear();
    assert_eq!(
        expect_index_error(sidecar.open(&store, profile())),
        IndexError::InvalidIndex(IndexIntegrityError::MissingMetadata)
    );
}

#[test]
fn cue_identifiers_cannot_be_rebound_with_matching_posting_changes() {
    let mut store = Store::new(1);
    store.append(&[("key a", &["value a"])]);
    store.append(&[("key b", &["value b"])]);
    let mut embedder = RecordingEmbedder::new(profile());
    let (mut sidecar, _) = create(&store, &mut embedder).unwrap();

    let (first, second) = (sidecar.cues[0].clone(), sidecar.cues[1].clone());
    sidecar.cues[0].key_id = second.key_id;
    sidecar.cues[0].value_id = second.value_id;
    sidecar.cues[1].key_id = first.key_id;
    sidecar.cues[1].value_id = first.value_id;
    sidecar.postings[0].cue_id = blob(1);
    sidecar.postings[1].cue_id = blob(0);

    assert!(matches!(
        expect_index_error(sidecar.open(&store, profile())),
        IndexError::InvalidIndex(IndexIntegrityError::InvalidCue { .. })
    ));
}

#[test]
fn a_sidecar_that_changed_before_the_write_is_rejected() {
    let (mut store, sidecar) = populated();
    let index = sidecar.open(&store, profile()).unwrap();
    store.append(&[("error", &["http 404"])]);
    let canonical = canonical_schema_objects();
    let mut embedder = RecordingEmbedder::new(profile());
    let mut seen = sidecar.observation();
    seen.metadata[0].indexed_episode_count = blob(2);
    let start = index
        .begin_synchronization(&sidecar.rows(), &store.memory, profile(), &canonical)
        .unwrap()
        .expect("one episode is not covered");
    let values = start.symbols().iter().map(|&id| store.value(id)).collect();
    let error = expect_index_error(index.complete_synchronization(
        start,
        values,
        &seen,
        &canonical,
        &mut embedder,
    ));
    assert_eq!(
        error,
        IndexError::ConcurrentModification {
            expected_episode_count: 1,
            actual_episode_count: 2,
        }
    );
    assert!(embedder.calls.is_empty());
    assert_eq!(index.verify_published(&sidecar.observation(), &canonical), Ok(true));
    assert_eq!(index.verify_published(&seen, &canonical), Ok(false));
}

#[test]
fn foreign_headers_and_diagnostics_are_rejected() {
    let (store, sidecar) = populated();
    let open = |rows: IndexRows| {
        expect_index_error(SemanticCueIndex::open(
            &rows,
            &store.memory,
            profile(),
            &canonical_schema_objects(),
        ))
    };
    let mut rows = sidecar.rows();
    rows.application_id = 1;
    assert_eq!(
        open(rows),
        IndexError::InvalidIndex(IndexIntegrityError::ApplicationMismatch { found: 1 })
    );
    let mut rows = sidecar.rows();
    rows.quick_check = "row 1 missing".to_owned();
    assert_eq!(
        open(rows),
        IndexError::InvalidIndex(IndexIntegrityError::QuickCheckFailed {
            detail: "row 1 missing".to_owned()
        })
    );
    let mut rows = sidecar.rows();
    rows.broken_reference = true;
    assert_eq!(
        open(rows),
        IndexError::InvalidIndex(IndexIntegrityError::ForeignKeyCheckFailed)
    );
    let mut rows = sidecar.rows();
    rows.metadata[0].format_version = Value::Integer(2);
    assert_eq!(
        open(rows),
        IndexError::InvalidIndex(IndexIntegrityError::UnsupportedFormatVersion { found: 2 })
    );
    let mut rows = sidecar.rows();
    rows.metadata[0].indexed_episode_count = blob(9);
    assert_eq!(
        open(rows),
        IndexError::InvalidIndex(IndexIntegrityError::InvalidMetadata {
            detail: "indexed episode count exceeds the committed memory"
        })
    );
}

#[test]
fn synchronize_observes_only_the_freshly_opened_committed_memory() {
    let mut committed = Store::new(1);
    committed.append(&[("project", &["lamentis"])]);
    let mut initial_embedder = RecordingEmbedder::new(profile());
    let (mut sidecar, mut index) = create(&committed, &mut initial_embedder).unwrap();

    let mut unsaved = Store::new(1);
    unsaved.append(&[("project", &["lamentis"])]);
    unsaved.append(&[("error", &["unsaved 404"])]);
    assert_eq!(unsaved.memory.episodes().len(), 2);
    let mut incremental_embedder = RecordingEmbedder::new(profile());

    let stats = sidecar
        .synchronize(&mut index, &committed, &mut incremental_embedder)
        .unwrap();
    assert_stats(stats, 1, 1, 1);
    assert!(incremental_embedder.calls.is_empty());
}
