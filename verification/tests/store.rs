//! Store sessions over the rows that a database holds.

use std::collections::BTreeMap;

use nao_m_e::attribute::{Attribute, EpisodeDraft};
use nao_m_e::model::{AtomId, FeedbackTrace, MemoryId, SymbolId, TimestampMs};
use nao_m_e::semantic::model::{Embedding, EpisodeText};
use nao_m_e::semantic::profile::{EMBEDDING_DIMENSIONS, PROFILE_FINGERPRINT};
use nao_m_e::sqlite::entropy::{memory_id_from_entropy, random_memory_id};
use nao_m_e::sqlite::episode_codec::MIN_EPISODE_PAYLOAD_BYTES;
use nao_m_e::sqlite::error::{StoreError, StoreIntegrityError};
use nao_m_e::sqlite::feedback::{feedback_row, FeedbackMutation, FeedbackRecord, FeedbackRow};
use nao_m_e::sqlite::format::{
    canonical_schema_objects, schema_object, MetadataRow, SchemaObject, APPLICATION_ID,
    FORMAT_VERSION,
};
use nao_m_e::sqlite::row::Value;
use nao_m_e::sqlite::semantic_recall::rank_episode_vectors;
use nao_m_e::sqlite::snapshot::EpisodeRow;
use nao_m_e::sqlite::store::{
    DatabaseIdentity, SaveObservation, SavePlan, SnapshotRows, SqliteStore,
};
use nao_m_e::sqlite::symbol_values::read_symbol_value_rows;
use nao_m_e::sqlite::symbols::SymbolRow;
use nao_m_e::sqlite::vectors::{full_audit, VectorRow};

fn blob(value: u64) -> Value {
    Value::Blob(value.to_be_bytes().to_vec())
}

fn key_of(value: &Value) -> Vec<u8> {
    match value {
        Value::Blob(bytes) => bytes.clone(),
        other => panic!("unexpected key {other:?}"),
    }
}

/// The rows of a database.
struct Database {
    application_id: i64,
    metadata: Vec<MetadataRow>,
    schema: Vec<SchemaObject>,
    symbols: Vec<SymbolRow>,
    episodes: Vec<EpisodeRow>,
    vectors: Vec<VectorRow>,
    feedback: BTreeMap<(Vec<u8>, Vec<u8>), FeedbackRow>,
}

impl Database {
    fn new(memory_id: u128) -> Self {
        Self {
            application_id: APPLICATION_ID,
            metadata: vec![MetadataRow {
                singleton: Value::Integer(1),
                format_version: Value::Integer(FORMAT_VERSION),
                memory_id: Value::Blob(memory_id.to_be_bytes().to_vec()),
                snapshot_revision: Value::Integer(0),
                semantic_profile_fingerprint: Value::Blob(PROFILE_FINGERPRINT.to_vec()),
            }],
            schema: canonical_schema_objects(),
            symbols: Vec::new(),
            episodes: Vec::new(),
            vectors: Vec::new(),
            feedback: BTreeMap::new(),
        }
    }

    fn identity(&self) -> DatabaseIdentity {
        DatabaseIdentity {
            application_id: self.application_id,
            metadata: self.metadata.clone(),
            schema: self.schema.clone(),
        }
    }

    fn feedback_rows(&self) -> Vec<FeedbackRow> {
        self.feedback.values().cloned().collect()
    }

    fn vector_tail(&self) -> Option<Vec<u8>> {
        self.vectors.last().map(|row| key_of(&row.sequence))
    }

    fn open(&self) -> Result<SqliteStore, StoreError> {
        let rows = SnapshotRows {
            identity: self.identity(),
            quick_check: vec![("symbols", "ok".to_owned()), ("episodes", "ok".to_owned())],
            symbols: self.symbols.clone(),
            episodes: self.episodes.clone(),
            vector_tail: self.vector_tail(),
            feedback: self.feedback_rows(),
        };
        SqliteStore::load_snapshot(&rows, &canonical_schema_objects())
    }

    fn integrity_error(&self) -> StoreIntegrityError {
        match self.open() {
            Err(StoreError::InvalidStore(error)) => error,
            Err(error) => panic!("expected persisted-data error, got {error:?}"),
            Ok(_) => panic!("corrupt store unexpectedly opened"),
        }
    }

    fn intern(&self, store: &mut SqliteStore, values: &[&str]) -> Result<Vec<SymbolId>, StoreError> {
        let values: Vec<String> = values.iter().map(|value| value.to_string()).collect();
        let request = store.symbols().begin_interning(&values)?;
        let wanted = request.query_values(0);
        let rows: Vec<SymbolRow> = self
            .symbols
            .iter()
            .filter(|row| match &row.value {
                Value::Text(text) => wanted.iter().any(|value| value.as_bytes() == text),
                _ => false,
            })
            .cloned()
            .collect();
        let request = request.read_symbol_id_rows(0, &rows)?;
        let revision = store.expected_revision();
        store.symbols_mut().intern_symbols(request, revision, revision)
    }

    fn texts(&self, store: &SqliteStore, ids: &[SymbolId]) -> Vec<String> {
        let requested = store.symbols().requested_ids(ids);
        let rows: Vec<SymbolRow> = self
            .symbols
            .iter()
            .filter(|row| requested.iter().any(|&id| row.id == blob(id)))
            .cloned()
            .collect();
        let found = read_symbol_value_rows(BTreeMap::new(), &rows).unwrap();
        store
            .symbols()
            .symbol_values(ids, &found)
            .unwrap()
            .into_iter()
            .map(|value| value.expect("every symbol has a text"))
            .collect()
    }

    fn prepare(&self, store: &mut SqliteStore) -> Result<Vec<String>, StoreError> {
        let mut passages = Vec::new();
        if let Some(ids) = store.begin_prepare()? {
            let values = self.texts(store, &ids);
            let mut encoded = Vec::new();
            for pairs in store.prepare_texts(&ids, &values)? {
                let borrowed: Vec<(&str, &str)> = pairs
                    .iter()
                    .map(|(key, value)| (key.as_str(), value.as_str()))
                    .collect();
                passages.push(EpisodeText::new(&borrowed).unwrap().project());
                encoded.push(one_hot_embedding(encoded.len()));
            }
            store.stage_vectors(encoded);
        }
        Ok(passages)
    }

    fn plan(&self, store: &SqliteStore) -> Result<SavePlan, StoreError> {
        let seen = SaveObservation {
            identity: self.identity(),
            episode_tail: self.episodes.last().map(|row| key_of(&row.sequence)),
            symbol_tail: self.symbols.last().map(|row| key_of(&row.id)),
            vector_tail: self.vector_tail(),
            feedback: self.feedback_rows(),
        };
        store.plan_save(&seen, &canonical_schema_objects())
    }

    fn commit(&mut self, store: &mut SqliteStore, plan: SavePlan) {
        for (id, value) in plan.symbols {
            self.symbols.push(SymbolRow {
                id: blob(id),
                value: Value::Text(value.into_bytes()),
            });
        }
        self.episodes.extend(plan.episodes);
        for (sequence, vector) in plan.vectors {
            self.vectors.push(VectorRow {
                sequence: blob(sequence),
                vector: Value::Blob(vector),
            });
        }
        assert!(!plan.feedback.replace_all);
        for mutation in plan.feedback.mutations {
            match mutation {
                FeedbackMutation::Delete(record) => {
                    let row = feedback_row(&record);
                    self.feedback
                        .remove(&(key_of(&row.from_sequence), key_of(&row.to_sequence)));
                }
                FeedbackMutation::Insert(record) | FeedbackMutation::Update(record) => {
                    self.put(record);
                }
            }
        }
        self.metadata[0].snapshot_revision = Value::Integer(plan.next_revision);
        store.mark_saved(plan.next_revision);
    }

    fn put(&mut self, record: FeedbackRecord) {
        let row = feedback_row(&record);
        self.feedback
            .insert((key_of(&row.from_sequence), key_of(&row.to_sequence)), row);
    }

    fn save(&mut self, store: &mut SqliteStore) -> Result<(), StoreError> {
        store.validate_symbols()?;
        self.prepare(store)?;
        let plan = self.plan(store)?;
        self.commit(store, plan);
        Ok(())
    }
}

fn one_hot_embedding(component: usize) -> Embedding {
    let mut values = vec![0; EMBEDDING_DIMENSIONS];
    values[component % EMBEDDING_DIMENSIONS] = 1;
    Embedding::new(values).unwrap()
}

fn attribute(key: u64, values: &[u64]) -> Attribute {
    Attribute::new(
        SymbolId::new(key),
        values.iter().copied().map(SymbolId::new).collect(),
    )
    .expect("test attribute has values")
}

fn draft(seed: u64) -> EpisodeDraft {
    EpisodeDraft::new(
        TimestampMs::new(-i64::try_from(seed).expect("small test seed")),
        vec![attribute(0, &[1, 2]), attribute(3, &[4])],
    )
    .expect("test episode has attributes")
}

fn insert(database: &Database, store: &mut SqliteStore, episode: EpisodeDraft) -> AtomId {
    database
        .intern(
            store,
            &["first-key", "first-value", "second-value", "second-key", "third-value"],
        )
        .unwrap();
    store.memory_mut().insert_episode(episode).unwrap()
}

fn trace(history_bits: u16, sample_count: u8) -> FeedbackTrace {
    FeedbackTrace::from_parts(history_bits, sample_count).expect("test feedback trace is canonical")
}

fn record(from: u64, to: u64, history_bits: u16, sample_count: u8) -> FeedbackRecord {
    FeedbackRecord {
        from,
        to,
        trace: trace(history_bits, sample_count),
    }
}

fn saved(episode_count: u64) -> (Database, SqliteStore) {
    let mut database = Database::new(7);
    let mut store = database.open().unwrap();
    for seed in 0..episode_count {
        insert(&database, &mut store, draft(seed));
    }
    database.save(&mut store).unwrap();
    (database, store)
}

#[test]
fn a_new_store_is_empty_and_reopens() {
    let database = Database::new(7);
    let store = database.open().unwrap();
    assert_eq!(store.verify_initial(MemoryId::new(7).unwrap()), Ok(()));
    assert!(store.verify_initial(MemoryId::new(8).unwrap()).is_err());
    assert_eq!(store.memory_id().get(), 7);
    assert_eq!(store.memory().episodes().len(), 0);
    assert_eq!(store.expected_revision(), 0);
    let (_, store) = saved(1);
    assert!(store.verify_initial(MemoryId::new(7).unwrap()).is_err());
}

#[test]
fn entropy_gives_memory_identifiers() {
    assert_eq!(memory_id_from_entropy([0; 16]), None);
    let mut bytes = [0_u8; 16];
    bytes[0] = 1;
    assert_eq!(memory_id_from_entropy(bytes).unwrap().get(), 1_u128 << 120);
    let first = random_memory_id().unwrap().unwrap();
    let second = random_memory_id().unwrap().unwrap();
    assert_ne!(first, second);
}

#[test]
fn a_saved_store_is_loaded_back() {
    let (mut database, mut store) = saved(3);
    let ids: Vec<AtomId> = store.memory().episodes().iter().map(|atom| atom.id()).collect();
    store
        .memory_mut()
        .apply_feedback(ids[0], &[ids[1], ids[2]], true)
        .unwrap();
    database.save(&mut store).unwrap();

    let reopened = database.open().unwrap();
    assert_eq!(reopened.memory_id(), store.memory_id());
    assert_eq!(reopened.memory().episodes(), store.memory().episodes());
    assert_eq!(
        reopened.memory().feedback_edges(),
        store.memory().feedback_edges()
    );
    assert_eq!(reopened.expected_revision(), 2);
    assert_eq!(reopened.persisted_episode_count(), 3);
    assert_eq!(full_audit(&database.vectors, 3), Ok(()));
}

#[test]
fn preparation_lists_the_passages_of_unsaved_episodes() {
    let database = Database::new(7);
    let mut store = database.open().unwrap();
    let ids = database.intern(&mut store, &["Status", "FAILED", "problem", "HTTP  404"]).unwrap();
    store
        .memory_mut()
        .insert_episode(
            EpisodeDraft::new(
                TimestampMs::new(0),
                vec![
                    Attribute::new(ids[0], vec![ids[1]]).unwrap(),
                    Attribute::new(ids[2], vec![ids[3]]).unwrap(),
                ],
            )
            .unwrap(),
        )
        .unwrap();
    assert_eq!(
        database.prepare(&mut store).unwrap(),
        ["passage: problem: http 404\nstatus: failed"]
    );
    assert_eq!(store.begin_prepare(), Ok(None));
}

#[test]
fn unknown_symbols_are_refused_before_encoding() {
    let database = Database::new(7);
    let mut store = database.open().unwrap();
    store.memory_mut().insert_episode(draft(0)).unwrap();
    assert_eq!(store.validate_symbols(), Err(StoreError::UnknownSymbolId { id: 0 }));
    assert_eq!(store.begin_prepare(), Err(StoreError::UnknownSymbolId { id: 0 }));
}

#[test]
fn stale_writer_with_a_new_episode_reports_concurrent_modification() {
    let mut database = Database::new(7);
    let mut first = database.open().unwrap();
    let mut stale = database.open().unwrap();
    insert(&database, &mut first, draft(0));
    insert(&database, &mut stale, draft(0));

    database.save(&mut first).unwrap();
    assert_eq!(
        database.save(&mut stale),
        Err(StoreError::ConcurrentModification {
            expected_revision: 0,
            actual_revision: 1
        })
    );
    assert_eq!(stale.verify_current_revision(0), Ok(()));
    assert_eq!(
        stale.verify_current_revision(1),
        Err(StoreError::ConcurrentModification {
            expected_revision: 0,
            actual_revision: 1
        })
    );
    assert_eq!(database.episodes.len(), 1);
}

#[test]
fn a_save_that_is_not_committed_keeps_everything_staged() {
    let database = Database::new(7);
    let mut store = database.open().unwrap();
    insert(&database, &mut store, draft(0));
    database.prepare(&mut store).unwrap();
    let plan = database.plan(&store).unwrap();
    assert_eq!(plan.symbols.len(), 5);
    assert_eq!(plan.episodes.len(), 1);
    assert_eq!(plan.vectors.len(), 1);
    assert_eq!(plan.next_revision, 1);
    assert_eq!(store.symbols().pending_len(), 5);
    assert_eq!(store.expected_revision(), 0);
    assert!(SqliteStore::verify_metadata_update(0).is_err());
    assert_eq!(SqliteStore::verify_metadata_update(1), Ok(()));
}

#[test]
fn non_contiguous_symbol_identifiers_are_rejected() {
    let (mut database, _) = saved(0);
    database.symbols.push(SymbolRow {
        id: blob(1),
        value: Value::Text(b"gap".to_vec()),
    });

    assert_eq!(
        database.integrity_error(),
        StoreIntegrityError::NonContiguousSymbolId {
            expected: 0,
            found: 1
        }
    );
}

#[test]
fn metadata_and_unsupported_formats_fail_closed_with_specific_errors() {
    for unsupported in [1, 2, 3, 4, 5, 6, FORMAT_VERSION + 1] {
        let (mut database, _) = saved(0);
        database.metadata[0].format_version = Value::Integer(unsupported);
        assert_eq!(
            database.integrity_error(),
            StoreIntegrityError::UnsupportedFormatVersion { found: unsupported }
        );
    }

    let (mut database, _) = saved(0);
    database.metadata.clear();
    assert_eq!(database.integrity_error(), StoreIntegrityError::MissingMetadata);

    let (mut database, _) = saved(0);
    database.application_id = 1;
    assert_eq!(
        database.integrity_error(),
        StoreIntegrityError::ApplicationMismatch { found: 1 }
    );
}

#[test]
fn former_semantic_sidecar_identity_is_rejected_without_mutation() {
    const SIDECAR_APPLICATION_ID: i64 = 0x4E41_4F53;

    let (mut database, _) = saved(0);
    database.application_id = SIDECAR_APPLICATION_ID;
    assert_eq!(
        database.integrity_error(),
        StoreIntegrityError::ApplicationMismatch {
            found: SIDECAR_APPLICATION_ID
        }
    );
}

#[test]
fn payload_and_sequence_corruption_are_rejected() {
    let (mut database, _) = saved(1);
    database.episodes[0].sequence = blob(1);
    assert_eq!(
        database.integrity_error(),
        StoreIntegrityError::NonContiguousEpisodeSequence {
            expected: 0,
            found: 1
        }
    );

    let (mut database, _) = saved(1);
    database.episodes[0].payload = Value::Blob(vec![0_u8; MIN_EPISODE_PAYLOAD_BYTES]);
    assert!(matches!(
        database.integrity_error(),
        StoreIntegrityError::InvalidEpisode { sequence: 0, .. }
    ));
}

#[test]
fn a_missing_vector_tail_is_rejected() {
    let (mut database, _) = saved(2);
    database.vectors.pop();
    assert_eq!(
        database.integrity_error(),
        StoreIntegrityError::InvalidMetadata {
            detail: "persisted episode-vector tail differs from the episode prefix"
        }
    );
}

#[test]
fn multiple_feedback_edges_per_source_are_accepted_but_persistent_triggers_are_rejected() {
    let (mut database, _) = saved(3);
    for to in [1, 2] {
        database.put(record(0, to, 65_535, 16));
    }
    assert_eq!(database.open().unwrap().memory().feedback_edges().len(), 2);

    let (mut database, _) = saved(0);
    database.schema.push(schema_object(
        "trigger",
        "mutate_revision",
        "memory_meta",
        Some(
            "CREATE TRIGGER mutate_revision AFTER UPDATE ON memory_meta
             BEGIN UPDATE memory_meta SET snapshot_revision = 0; END",
        ),
    ));
    assert!(matches!(
        database.integrity_error(),
        StoreIntegrityError::InvalidMetadata { .. }
    ));
}

#[test]
fn missing_feedback_endpoint_is_rejected_during_reconstruction() {
    let (mut database, _) = saved(1);
    database.put(record(0, 1, 1, 1));

    assert!(matches!(
        database.integrity_error(),
        StoreIntegrityError::InvalidFeedback { from: 0, to: 1, .. }
    ));
}

#[test]
fn feedback_save_writes_only_changed_rows() {
    let mut database = Database::new(7);
    let mut store = database.open().unwrap();
    let ids: Vec<_> = (0..5)
        .map(|seed| insert(&database, &mut store, draft(seed)))
        .collect();
    for (from, to, initial_trace) in [
        (ids[0], ids[2], trace(1, 1)),
        (ids[1], ids[2], trace(2, 2)),
        (ids[2], ids[3], trace(3, 2)),
    ] {
        store
            .memory_mut()
            .set_feedback_trace(from, to, initial_trace)
            .unwrap();
    }
    database.save(&mut store).unwrap();
    database.put(record(4, 0, 0, 1));

    for (from, to, changed) in [
        (ids[0], ids[2], trace(2, 2)),
        (ids[0], ids[1], trace(0, 1)),
        (ids[3], ids[0], trace(1, 1)),
    ] {
        store.memory_mut().set_feedback_trace(from, to, changed).unwrap();
    }
    let plan = database.plan(&store).unwrap();
    let mut counts = (0, 0, 0);
    for mutation in &plan.feedback.mutations {
        match mutation {
            FeedbackMutation::Delete(_) => counts.0 += 1,
            FeedbackMutation::Insert(_) => counts.1 += 1,
            FeedbackMutation::Update(_) => counts.2 += 1,
        }
    }
    assert_eq!(counts, (1, 2, 1));
    database.commit(&mut store, plan);

    store
        .memory_mut()
        .set_feedback_trace(ids[0], ids[2], trace(2, 2))
        .unwrap();
    let plan = database.plan(&store).unwrap();
    assert!(plan.feedback.mutations.is_empty());
}

#[test]
fn save_reconciles_unrevisioned_feedback_divergence() {
    let mut database = Database::new(7);
    let mut store = database.open().unwrap();
    let first = insert(&database, &mut store, draft(0));
    let second = insert(&database, &mut store, draft(1));
    let third = insert(&database, &mut store, draft(2));
    store
        .memory_mut()
        .set_feedback_trace(first, second, trace(1, 1))
        .unwrap();
    database.save(&mut store).unwrap();

    database.put(record(0, 1, 0, 1));
    database.put(record(second.sequence(), third.sequence(), 3, 2));

    database.save(&mut store).unwrap();
    let reopened = database.open().unwrap();
    assert_eq!(
        reopened.memory().feedback_trace(first, second),
        Some(trace(1, 1))
    );
    assert_eq!(reopened.memory().feedback_trace(second, third), None);
    assert_eq!(reopened.memory().feedback_edges().len(), 1);
}

fn assert_rejected(persisted: u64, unsaved: u64, row: FeedbackRow, target: u64) {
    let (mut database, mut store) = saved(persisted);
    let revision = store.expected_revision();
    for seed in persisted..persisted + unsaved {
        insert(&database, &mut store, draft(seed));
    }
    database
        .feedback
        .insert((key_of(&row.from_sequence), key_of(&row.to_sequence)), row);
    match database.save(&mut store) {
        Err(StoreError::InvalidStore(StoreIntegrityError::InvalidFeedback { from, to, .. })) => {
            assert_eq!((from, to), (0, target));
        }
        other => panic!("unexpected save result {other:?}"),
    }
    assert_eq!(store.expected_revision(), revision);
    assert_eq!(database.metadata[0].snapshot_revision, Value::Integer(revision));
    assert_eq!(database.episodes.len() as u64, persisted);
}

#[test]
fn save_rejects_invalid_persisted_feedback_without_advancing_revision() {
    for (bits, count) in [(2, 1), (0, 0), (0, 17)] {
        let mut row = feedback_row(&record(0, 1, 1, 1));
        row.history_bits = Value::Integer(bits);
        row.sample_count = Value::Integer(count);
        assert_rejected(3, 0, row, 1);
    }
    assert_rejected(3, 0, feedback_row(&record(0, 3, 1, 1)), 3);
    assert_rejected(1, 1, feedback_row(&record(0, 1, 1, 1)), 1);
}

#[test]
fn save_rejects_changed_identity_and_exhausted_revision() {
    let mut database = Database::new(7);
    let mut store = database.open().unwrap();
    database.metadata[0].memory_id =
        Value::Blob(MemoryId::new(1).unwrap().to_be_bytes().to_vec());
    assert!(matches!(
        database.save(&mut store),
        Err(StoreError::InvalidStore(
            StoreIntegrityError::InvalidMetadata { .. }
        ))
    ));

    let (mut database, _) = saved(0);
    database.metadata[0].snapshot_revision = Value::Integer(i64::MAX);
    let mut store = database.open().unwrap();
    assert_eq!(database.save(&mut store), Err(StoreError::RevisionExhausted));
}

#[test]
fn tails_that_moved_outside_the_session_are_rejected() {
    let (mut database, mut store) = saved(1);
    database.symbols.pop();
    assert_eq!(
        database.save(&mut store),
        Err(StoreError::InvalidStore(StoreIntegrityError::InvalidMetadata {
            detail: "persisted symbol tail changed outside this store session"
        }))
    );
    let (mut database, mut store) = saved(1);
    database.episodes.pop();
    assert_eq!(
        database.save(&mut store),
        Err(StoreError::InvalidStore(StoreIntegrityError::InvalidMetadata {
            detail: "persisted episode tail changed outside this store session"
        }))
    );
}

#[test]
fn zero_limit_and_empty_store_validate_without_encoding() {
    let (_, store) = saved(2);
    assert_eq!(store.begin_recall("valid", 0), Ok(None));
    assert!(matches!(
        store.begin_recall(" \t\n ", 0),
        Err(StoreError::InvalidSemanticQuery { .. })
    ));
    assert_eq!(store.begin_recall("  Focused\tQUERY ", 3), Ok(Some("focused query".to_owned())));

    let empty = Database::new(7).open().unwrap();
    let hits = rank_episode_vectors(empty.memory_id(), &one_hot_embedding(0), 0, 10, &[]);
    assert_eq!(hits, Ok(Vec::new()));
}

#[test]
fn episode_feedback_does_not_change_semantic_ranking() {
    let (mut database, mut store) = saved(3);
    let rank = |database: &Database| {
        rank_episode_vectors(
            MemoryId::new(7).unwrap(),
            &one_hot_embedding(1),
            3,
            10,
            &database.vectors,
        )
        .unwrap()
    };
    let before = rank(&database);
    assert_eq!(before.len(), 1);
    let source = AtomId::from_parts(store.memory_id(), 0);
    let target = AtomId::from_parts(store.memory_id(), 2);
    store
        .memory_mut()
        .apply_feedback(source, &[target], true)
        .unwrap();
    database.save(&mut store).unwrap();
    assert_eq!(rank(&database), before);
}

fn recall(
    database: &Database,
    store: &SqliteStore,
    limit: usize,
) -> Result<Vec<(u64, u32)>, StoreError> {
    let hits = store.finish_recall(
        &database.metadata,
        &one_hot_embedding(1),
        &database.vectors,
        limit,
    )?;
    Ok(hits
        .iter()
        .map(|hit| (hit.atom_id.sequence(), hit.activation.as_ppm()))
        .collect())
}

#[test]
fn recall_ranks_the_committed_vectors() {
    let (database, store) = saved(3);
    assert_eq!(store.admit_recall(&database.metadata), Ok(true));
    assert_eq!(recall(&database, &store, 10), Ok(vec![(1, 1_000_000)]));
    let empty = Database::new(7);
    let store = empty.open().unwrap();
    assert_eq!(store.admit_recall(&empty.metadata), Ok(false));
}

#[test]
fn stale_reader_is_rejected_before_query_encoding() {
    let (mut database, stale) = saved(2);
    let mut writer = database.open().unwrap();
    let source = AtomId::from_parts(writer.memory_id(), 0);
    let target = AtomId::from_parts(writer.memory_id(), 1);
    writer
        .memory_mut()
        .apply_feedback(source, &[target], true)
        .unwrap();
    database.save(&mut writer).unwrap();

    assert_eq!(
        stale.admit_recall(&database.metadata),
        Err(StoreError::ConcurrentModification {
            expected_revision: 1,
            actual_revision: 2
        })
    );
}

#[test]
fn revision_change_during_query_encoding_is_rejected_before_vector_scan() {
    let (mut database, reader) = saved(2);
    assert_eq!(reader.admit_recall(&database.metadata), Ok(true));
    let mut writer = database.open().unwrap();
    database.intern(&mut writer, &["concurrent-symbol"]).unwrap();
    database.save(&mut writer).unwrap();

    assert_eq!(
        recall(&database, &reader, 10),
        Err(StoreError::ConcurrentModification {
            expected_revision: 1,
            actual_revision: 2
        })
    );
    assert_eq!(reader.expected_revision(), 1);
}

#[test]
fn symbols_without_a_text_are_unknown() {
    let ids = [SymbolId::new(4), SymbolId::new(9)];
    assert_eq!(
        SqliteStore::known_values(&ids, vec![Some("a".to_owned()), None]),
        Err(StoreError::UnknownSymbolId { id: 9 })
    );
    assert_eq!(
        SqliteStore::known_values(&ids, vec![Some("a".to_owned()), Some("b".to_owned())]),
        Ok(vec!["a".to_owned(), "b".to_owned()])
    );
}
