//! Feedback rows and the plan that reconciles them with a memory.

use nao_m_e::attribute::{Attribute, EpisodeAtom, EpisodeDraft};
use nao_m_e::memory::Memory;
use nao_m_e::model::{AtomId, FeedbackTrace, MemoryId, SymbolId, TimestampMs};
use nao_m_e::sqlite::error::{StoreError, StoreIntegrityError};
use nao_m_e::sqlite::feedback::{
    feedback_row, memory_feedback_records, plan_changes, read_feedback_edge, reconcile, restore,
    FeedbackMutation, FeedbackPlan, FeedbackRecord, FeedbackRow, MAX_BUFFERED_FEEDBACK_MUTATIONS,
};
use nao_m_e::sqlite::row::Value;

fn trace(history_bits: u16, sample_count: u8) -> FeedbackTrace {
    FeedbackTrace::from_parts(history_bits, sample_count).expect("test feedback trace is canonical")
}

fn record(from: u64, to: u64, history_bits: u16, sample_count: u8) -> FeedbackRecord {
    FeedbackRecord {
        from,
        to,
        trace: trace(history_bits, sample_count),
    }
}

fn memory(episodes: u64) -> Memory<EpisodeAtom> {
    let mut memory = Memory::new(MemoryId::new(1).unwrap());
    for key in 0..episodes {
        let attribute = Attribute::new(SymbolId::new(key), vec![SymbolId::new(key)]).unwrap();
        let draft = EpisodeDraft::new(TimestampMs::new(0), vec![attribute]).unwrap();
        memory.insert_episode(draft).unwrap();
    }
    memory
}

fn atom(sequence: u64) -> AtomId {
    AtomId::from_parts(MemoryId::new(1).unwrap(), sequence)
}

fn integrity(error: StoreError) -> StoreIntegrityError {
    match error {
        StoreError::InvalidStore(error) => error,
        other => panic!("unexpected error {other:?}"),
    }
}

#[test]
fn plan_bounds_buffer_before_bulk_replacement() {
    let mut plan = FeedbackPlan::new();
    for to in 0..=MAX_BUFFERED_FEEDBACK_MUTATIONS {
        plan.push(FeedbackMutation::Insert(FeedbackRecord {
            from: 0,
            to: u64::try_from(to).unwrap(),
            trace: trace(1, 1),
        }));
    }

    assert!(plan.replace_all);
    assert!(plan.mutations.is_empty());
    plan.push(FeedbackMutation::Delete(FeedbackRecord {
        from: 1,
        to: 2,
        trace: trace(0, 1),
    }));
    assert!(plan.mutations.is_empty());
}

#[test]
fn plans_hold_only_the_differences() {
    let found = [
        record(0, 1, 1, 1),
        record(0, 2, 1, 1),
        record(1, 0, 0, 1),
    ];
    let wanted = [
        record(0, 2, 3, 2),
        record(1, 0, 0, 1),
        record(2, 0, 1, 1),
    ];
    let plan = plan_changes(&found, &wanted);
    assert!(!plan.replace_all);
    assert_eq!(
        plan.mutations,
        [
            FeedbackMutation::Delete(record(0, 1, 1, 1)),
            FeedbackMutation::Update(record(0, 2, 3, 2)),
            FeedbackMutation::Insert(record(2, 0, 1, 1)),
        ]
    );
    assert!(plan_changes(&wanted, &wanted).mutations.is_empty());
}

#[test]
fn feedback_rows_are_read_back() {
    let edge = record(3, u64::MAX, 0xaaaa, 16);
    assert_eq!(read_feedback_edge(&feedback_row(&edge)), Ok(edge));

    let mut source = memory(3);
    source.apply_feedback(atom(0), &[atom(1), atom(2)], true).unwrap();
    source.apply_feedback(atom(2), &[atom(0)], false).unwrap();
    let rows: Vec<FeedbackRow> = memory_feedback_records(&source)
        .iter()
        .map(feedback_row)
        .collect();
    let mut copy = memory(3);
    restore(&rows, &mut copy).unwrap();
    assert_eq!(copy.feedback_edges(), source.feedback_edges());
    assert!(reconcile(&rows, &copy, 3).unwrap().mutations.is_empty());
}

#[test]
fn invalid_feedback_rows_are_refused() {
    let valid = feedback_row(&record(0, 1, 1, 1));
    let mut target = memory(2);

    let mut row = valid.clone();
    row.from_sequence = Value::Integer(0);
    assert_eq!(
        integrity(restore(&[row], &mut target).unwrap_err()),
        StoreIntegrityError::InvalidEncoding {
            table: "feedback_edges",
            column: "from_sequence",
        }
    );
    let mut row = valid.clone();
    row.history_bits = Value::Integer(2);
    assert_eq!(
        integrity(restore(&[row], &mut target).unwrap_err()),
        StoreIntegrityError::InvalidFeedback {
            from: 0,
            to: 1,
            detail: "feedback trace is not canonical",
        }
    );
    assert!(restore(&[feedback_row(&record(0, 2, 1, 1))], &mut target).is_err());
    assert!(restore(&[feedback_row(&record(1, 1, 1, 1))], &mut target).is_err());
    assert!(reconcile(&[feedback_row(&record(0, 2, 1, 1))], &target, 2).is_err());
}
