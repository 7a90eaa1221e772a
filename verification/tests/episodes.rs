//! Episode storage of statement memories.

use nao_m_e::memory::Memory;
use nao_m_e::model::{AtomId, FeedbackTrace, GraphError, MemoryId, PredicateId, SourceId, TermId, TimestampMs};
use nao_m_e::statement::{EpisodeAtom, EpisodeDraft, Statement};

fn memory_id(value: u128) -> MemoryId {
    MemoryId::new(value).expect("test memory identifier is non-zero")
}

fn new_memory(id: u128) -> Memory<EpisodeAtom> {
    Memory::new(memory_id(id))
}

fn statement(predicate: u64, arguments: &[u64]) -> Statement {
    Statement::new(
        PredicateId::new(predicate),
        arguments.iter().copied().map(TermId::new).collect(),
    )
    .expect("test statement is valid")
}

fn draft(seed: u64) -> EpisodeDraft {
    EpisodeDraft {
        occurred_at: TimestampMs::new(i64::try_from(seed).expect("small test seed")),
        recorded_at: TimestampMs::new(i64::try_from(seed + 10).expect("small test seed")),
        context: vec![statement(10 + seed, &[100 + seed])],
        observation: statement(20 + seed, &[200 + seed]),
        action: Some(statement(30 + seed, &[300 + seed])),
        outcome: Some(statement(40 + seed, &[400 + seed])),
        source: SourceId::new(50 + seed),
    }
}

fn insert(memory: &mut Memory<EpisodeAtom>, seed: u64) -> AtomId {
    memory
        .insert_episode(draft(seed))
        .expect("identifier space is available")
}

fn trace(history_bits: u16, sample_count: u8) -> FeedbackTrace {
    FeedbackTrace::from_parts(history_bits, sample_count).expect("test trace is canonical")
}

#[test]
fn episodes_replaying_the_same_atom_sequence_recreates_durable_ids() {
    let durable_id = memory_id(0xfeed);
    let original_ids = {
        let mut original: Memory<EpisodeAtom> = Memory::new(durable_id);
        assert_eq!(original.memory_id(), durable_id);
        [insert(&mut original, 1), insert(&mut original, 2)]
    };

    let mut reopened = Memory::new(durable_id);
    let reopened_ids = [insert(&mut reopened, 1), insert(&mut reopened, 2)];
    assert_eq!(reopened_ids, original_ids);
    assert_eq!(reopened_ids[0].sequence(), 0);
    assert_eq!(reopened_ids[1].sequence(), 1);
}

#[test]
fn episodes_insertion_canonicalizes_context_but_keeps_occurrences_distinct() {
    let low = statement(1, &[1]);
    let high = statement(2, &[1]);
    let mut episode = draft(1);
    episode.context = vec![high.clone(), low.clone(), high];

    let mut memory = new_memory(1);
    let first = memory
        .insert_episode(episode.clone())
        .expect("first inserts");
    let second = memory.insert_episode(episode).expect("duplicate inserts");
    assert_ne!(first, second);
    assert_eq!(
        memory.episode(first).expect("atom exists").context(),
        &[low, statement(2, &[1])]
    );
}

#[test]
fn statements_and_timestamp_extremes_preserve_caller_semantics() {
    let ordered = statement(7, &[30, 20, 10]);
    let mut memory = new_memory(1);
    let earliest = memory
        .insert_episode(EpisodeDraft {
            occurred_at: TimestampMs::new(i64::MIN),
            recorded_at: TimestampMs::new(i64::MIN),
            context: Vec::new(),
            observation: ordered.clone(),
            action: Some(statement(8, &[1])),
            outcome: Some(statement(9, &[2])),
            source: SourceId::new(99),
        })
        .expect("episode inserts");
    let latest = memory
        .insert_episode(EpisodeDraft {
            occurred_at: TimestampMs::new(i64::MAX),
            recorded_at: TimestampMs::new(i64::MAX),
            context: Vec::new(),
            observation: ordered.clone(),
            action: Some(statement(8, &[1])),
            outcome: Some(statement(9, &[2])),
            source: SourceId::new(99),
        })
        .expect("episode inserts");
    let stored = memory.episode(earliest).expect("episode exists");

    assert_eq!(stored.occurred_at(), TimestampMs::new(i64::MIN));
    assert_eq!(stored.recorded_at(), TimestampMs::new(i64::MIN));
    assert_eq!(stored.observation(), &ordered);
    assert_eq!(stored.action(), Some(&statement(8, &[1])));
    assert_eq!(stored.outcome(), Some(&statement(9, &[2])));
    let stored = memory.episode(latest).expect("episode exists");
    assert_eq!(stored.occurred_at(), TimestampMs::new(i64::MAX));
    assert_eq!(stored.recorded_at(), TimestampMs::new(i64::MAX));
}

#[test]
fn episodes_feedback_changes_do_not_mutate_episode_content() {
    let mut memory = new_memory(1);
    let source = insert(&mut memory, 1);
    let target = insert(&mut memory, 2);
    let original = memory.episode(source).expect("atom exists").clone();

    memory
        .set_feedback_trace(source, target, trace(1, 1))
        .expect("trace inserts");
    memory
        .apply_feedback(source, &[target], false)
        .expect("feedback applies");

    assert_eq!(memory.episode(source), Some(&original));
    assert_eq!(memory.feedback_trace(source, target), Some(trace(0b10, 2)));
}

#[test]
fn episodes_empty_memory_has_no_episodes_or_feedback() {
    let memory = new_memory(1);
    assert_eq!(memory.episodes().len(), 0);
    assert_eq!(memory.feedback_edges().len(), 0);
}

#[test]
fn episodes_foreign_and_absent_ids_never_alias_local_atoms_or_feedback() {
    let mut memory = new_memory(1);
    let local = insert(&mut memory, 1);
    let other = insert(&mut memory, 2);
    let foreign = AtomId::from_parts(memory_id(2), local.sequence());
    let absent = AtomId::from_parts(memory.memory_id(), u64::MAX);

    assert_eq!(memory.episode(foreign), None);
    assert_eq!(memory.episode(absent), None);
    assert_eq!(memory.feedback_trace(local, foreign), None);
    assert_eq!(memory.feedback_trace(absent, other), None);
    assert_eq!(
        memory.set_feedback_trace(local, foreign, trace(1, 1)),
        Err(GraphError::UnknownAtom(foreign))
    );
    assert_eq!(
        memory.apply_feedback(absent, &[other], true),
        Err(GraphError::UnknownAtom(absent))
    );
    assert_eq!(memory.feedback_edges().len(), 0);
}
