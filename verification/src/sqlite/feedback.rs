//! Persisted feedback edges: reading, restoring and reconciling.

use vstd::prelude::*;

use crate::bytes::be_bytes;
use crate::episode::Episode;
use crate::memory::{edge_before, lookup, Memory, Traces};
use crate::model::{lemma_trace_of, lemma_trace_parts, AtomId, FeedbackTrace};
use crate::sqlite::error::{StoreError, StoreIntegrityError};
use crate::sqlite::row::{integer_in, read_integer, read_u64, u64_in, Value};
use crate::sqlite::wire::{encode_u64, law_u64_encoding};

verus! {

/// Mutations that a plan buffers before it replaces the whole table.
pub const MAX_BUFFERED_FEEDBACK_MUTATIONS: usize = 16_384;

const FEEDBACK_TABLE: &'static str = "feedback_edges";

const FROM_COLUMN: &'static str = "from_sequence";

const TO_COLUMN: &'static str = "to_sequence";

const HISTORY_COLUMN: &'static str = "history_bits";

const COUNT_COLUMN: &'static str = "sample_count";

const SELF_EDGE: &'static str = "self-edge";

const NON_CANONICAL_TRACE: &'static str = "feedback trace is not canonical";

const ABSENT_ENDPOINT: &'static str = "edge endpoint is absent";

const GRAPH_VIOLATION: &'static str = "feedback edge violates core graph invariants";

/// One row of the feedback table, in the order of its columns.
#[derive(Clone, Debug, PartialEq, Eq)]
pub struct FeedbackRow {
    /// Source sequence.
    pub from_sequence: Value,
    /// Target sequence.
    pub to_sequence: Value,
    /// Packed samples.
    pub history_bits: Value,
    /// Number of samples.
    pub sample_count: Value,
}

/// A directed feedback edge by the sequences that it joins.
#[derive(Clone, Copy, Debug, PartialEq, Eq, Structural)]
pub struct FeedbackRecord {
    /// Source sequence.
    pub from: u64,
    /// Target sequence.
    pub to: u64,
    /// Bounded history.
    pub trace: FeedbackTrace,
}

impl FeedbackRecord {
    /// The primary key of the record.
    pub open spec fn key(self) -> (u64, u64) {
        (self.from, self.to)
    }
}

/// The order of primary keys.
pub open spec fn key_before(first: (u64, u64), second: (u64, u64)) -> bool {
    first.0 < second.0 || first.0 == second.0 && first.1 < second.1
}

/// Each record stands before every later one.
pub open spec fn ordered(records: Seq<FeedbackRecord>) -> bool {
    forall|i: int, j: int|
        #![trigger records[i], records[j]]
        0 <= i < j < records.len() ==> key_before(records[i].key(), records[j].key())
}

/// The contents of the feedback table, by primary key.
pub type EdgeTable = Map<(u64, u64), FeedbackTrace>;

/// The table that holds the records.
pub open spec fn table(records: Seq<FeedbackRecord>) -> EdgeTable
    decreases records.len(),
{
    if records.len() == 0 {
        Map::empty()
    } else {
        table(records.drop_first()).insert(records[0].key(), records[0].trace)
    }
}

/// The records list the table in key order.
pub open spec fn lists_table(records: Seq<FeedbackRecord>, edges: EdgeTable) -> bool {
    ordered(records) && table(records) == edges
}

/// The feedback table of a memory with the traces.
pub open spec fn edge_table(traces: Traces) -> EdgeTable {
    Map::new(
        |key: (u64, u64)|
            key.0 <= usize::MAX && key.1 <= usize::MAX && traces.contains_key(
                (key.0 as usize, key.1 as usize),
            ),
        |key: (u64, u64)| traces[(key.0 as usize, key.1 as usize)],
    )
}

/// The edge violates a rule.
pub open spec fn bad_feedback(from: u64, to: u64, detail: &'static str) -> StoreError {
    StoreError::InvalidStore(StoreIntegrityError::InvalidFeedback { from, to, detail })
}

/// The record that a row holds.
pub open spec fn record_in(row: FeedbackRow) -> Result<FeedbackRecord, StoreError> {
    match u64_in(row.from_sequence, "feedback_edges", "from_sequence") {
        Err(error) => Err(error),
        Ok(from) => match u64_in(row.to_sequence, "feedback_edges", "to_sequence") {
            Err(error) => Err(error),
            Ok(to) => if from == to {
                Err(bad_feedback(from, to, "self-edge"))
            } else {
                match integer_in(row.history_bits, "feedback_edges", "history_bits") {
                    Err(error) => Err(error),
                    Ok(bits) => match integer_in(
                        row.sample_count,
                        "feedback_edges",
                        "sample_count",
                    ) {
                        Err(error) => Err(error),
                        Ok(count) => if 0 <= bits <= u16::MAX && 0 <= count <= u8::MAX
                            && FeedbackTrace::valid_parts(bits as u16, count as u8) {
                            Ok(
                                FeedbackRecord {
                                    from,
                                    to,
                                    trace: FeedbackTrace::of(bits as u16, count as u8),
                                },
                            )
                        } else {
                            Err(bad_feedback(from, to, "feedback trace is not canonical"))
                        },
                    },
                }
            },
        },
    }
}

/// The record that a row holds, with both endpoints below the bound.
pub open spec fn bounded_record_in(row: FeedbackRow, bound: u64) -> Result<
    FeedbackRecord,
    StoreError,
> {
    match record_in(row) {
        Err(error) => Err(error),
        Ok(record) => if record.from >= bound || record.to >= bound {
            Err(bad_feedback(record.from, record.to, "edge endpoint is absent"))
        } else {
            Ok(record)
        },
    }
}

/// The records that the rows hold, or the error of the first bad row.
pub open spec fn records_in(rows: Seq<FeedbackRow>, bound: u64) -> Result<
    Seq<FeedbackRecord>,
    StoreError,
>
    decreases rows.len(),
{
    if rows.len() == 0 {
        Ok(Seq::empty())
    } else {
        match records_in(rows.drop_last(), bound) {
            Err(error) => Err(error),
            Ok(records) => match bounded_record_in(rows.last(), bound) {
                Err(error) => Err(error),
                Ok(record) => Ok(records.push(record)),
            },
        }
    }
}

/// The traces after the rows are restored over `count` episodes.
pub open spec fn restored(rows: Seq<FeedbackRow>, count: nat, traces: Traces) -> Result<
    Traces,
    StoreError,
>
    decreases rows.len(),
{
    if rows.len() == 0 {
        Ok(traces)
    } else {
        match restored(rows.drop_last(), count, traces) {
            Err(error) => Err(error),
            Ok(before) => match record_in(rows.last()) {
                Err(error) => Err(error),
                Ok(record) => if record.from < count && record.to < count {
                    Ok(before.insert((record.from as usize, record.to as usize), record.trace))
                } else {
                    Err(
                        bad_feedback(
                            record.from,
                            record.to,
                            "feedback edge violates core graph invariants",
                        ),
                    )
                },
            },
        }
    }
}

fn invalid_feedback<T>(from: u64, to: u64, detail: &'static str) -> (result: Result<T, StoreError>)
    ensures
        result == Err::<T, StoreError>(bad_feedback(from, to, detail)),
{
    Err(StoreError::InvalidStore(StoreIntegrityError::InvalidFeedback { from, to, detail }))
}

/// Reads one row.
pub fn read_feedback_edge(row: &FeedbackRow) -> (result: Result<FeedbackRecord, StoreError>)
    ensures
        result == record_in(*row),
{
    let from: u64 = match read_u64(&row.from_sequence, FEEDBACK_TABLE, FROM_COLUMN) {
        Ok(from) => from,
        Err(error) => {
            return Err(error);
        },
    };
    let to: u64 = match read_u64(&row.to_sequence, FEEDBACK_TABLE, TO_COLUMN) {
        Ok(to) => to,
        Err(error) => {
            return Err(error);
        },
    };
    if from == to {
        return invalid_feedback(from, to, SELF_EDGE);
    }
    let history_bits: i64 = match read_integer(&row.history_bits, FEEDBACK_TABLE, HISTORY_COLUMN) {
        Ok(history_bits) => history_bits,
        Err(error) => {
            return Err(error);
        },
    };
    let sample_count: i64 = match read_integer(&row.sample_count, FEEDBACK_TABLE, COUNT_COLUMN) {
        Ok(sample_count) => sample_count,
        Err(error) => {
            return Err(error);
        },
    };
    if history_bits < 0 || history_bits > u16::MAX as i64 || sample_count < 0 || sample_count
        > u8::MAX as i64 {
        return invalid_feedback(from, to, NON_CANONICAL_TRACE);
    }
    match FeedbackTrace::from_parts(history_bits as u16, sample_count as u8) {
        Some(trace) => Ok(FeedbackRecord { from, to, trace }),
        None => invalid_feedback(from, to, NON_CANONICAL_TRACE),
    }
}

/// Reads one row of a table whose edges join persisted episodes.
pub fn next_feedback_edge(row: &FeedbackRow, persisted_episode_count: u64) -> (result: Result<
    FeedbackRecord,
    StoreError,
>)
    ensures
        result == bounded_record_in(*row, persisted_episode_count),
{
    match read_feedback_edge(row) {
        Err(error) => Err(error),
        Ok(edge) => if edge.from >= persisted_episode_count || edge.to >= persisted_episode_count {
            invalid_feedback(edge.from, edge.to, ABSENT_ENDPOINT)
        } else {
            Ok(edge)
        },
    }
}

/// A record stays bad or good in every longer list of rows.
proof fn lemma_first_bad_row(rows: Seq<FeedbackRow>, bound: u64, end: int)
    requires
        0 <= end <= rows.len(),
        records_in(rows.take(end), bound) is Err,
    ensures
        records_in(rows, bound) == records_in(rows.take(end), bound),
    decreases rows.len(),
{
    if end < rows.len() {
        assert(rows.drop_last().take(end) =~= rows.take(end));
        lemma_first_bad_row(rows.drop_last(), bound, end);
    } else {
        assert(rows.take(end) =~= rows);
    }
}

fn read_feedback_edges(rows: &[FeedbackRow], persisted_episode_count: u64) -> (result: Result<
    Vec<FeedbackRecord>,
    StoreError,
>)
    ensures
        match result {
            Ok(records) => records_in(rows@, persisted_episode_count) == Ok::<
                Seq<FeedbackRecord>,
                StoreError,
            >(records@),
            Err(error) => records_in(rows@, persisted_episode_count) == Err::<
                Seq<FeedbackRecord>,
                StoreError,
            >(error),
        },
{
    let mut records: Vec<FeedbackRecord> = Vec::new();
    let mut index: usize = 0;
    assert(rows@.take(0) =~= Seq::empty());
    while index < rows.len()
        invariant
            index <= rows@.len(),
            records_in(rows@.take(index as int), persisted_episode_count) == Ok::<
                Seq<FeedbackRecord>,
                StoreError,
            >(records@),
        decreases rows.len() - index,
    {
        let ghost next = rows@.take(index + 1);
        proof {
            assert(next.drop_last() =~= rows@.take(index as int));
            assert(next.last() == rows@[index as int]);
        }
        match next_feedback_edge(&rows[index], persisted_episode_count) {
            Ok(record) => {
                records.push(record);
            },
            Err(error) => {
                proof {
                    lemma_first_bad_row(rows@, persisted_episode_count, index + 1);
                }
                return Err(error);
            },
        }
        index += 1;
    }
    assert(rows@.take(rows@.len() as int) =~= rows@);
    Ok(records)
}

proof fn lemma_first_unrestored_row(
    rows: Seq<FeedbackRow>,
    count: nat,
    traces: Traces,
    end: int,
)
    requires
        0 <= end <= rows.len(),
        restored(rows.take(end), count, traces) is Err,
    ensures
        restored(rows, count, traces) == restored(rows.take(end), count, traces),
    decreases rows.len(),
{
    if end < rows.len() {
        assert(rows.drop_last().take(end) =~= rows.take(end));
        lemma_first_unrestored_row(rows.drop_last(), count, traces, end);
    } else {
        assert(rows.take(end) =~= rows);
    }
}

/// Adds the edges of a persisted table to a memory that holds its episodes.
pub fn restore<E: Episode>(rows: &[FeedbackRow], memory: &mut Memory<E>) -> (result: Result<
    (),
    StoreError,
>)
    requires
        old(memory).wf(),
    ensures
        final(memory).wf(),
        final(memory).identifier() == old(memory).identifier(),
        final(memory).atoms() == old(memory).atoms(),
        match result {
            Ok(_) => restored(rows@, old(memory).atoms().len(), old(memory).traces()) == Ok::<
                Traces,
                StoreError,
            >(final(memory).traces()),
            Err(error) => restored(rows@, old(memory).atoms().len(), old(memory).traces()) == Err::<
                Traces,
                StoreError,
            >(error),
        },
{
    let mut index: usize = 0;
    let ghost before = memory.traces();
    let ghost count = memory.atoms().len();
    assert(rows@.take(0) =~= Seq::empty());
    while index < rows.len()
        invariant
            index <= rows@.len(),
            memory.wf(),
            memory.identifier() == old(memory).identifier(),
            memory.atoms() == old(memory).atoms(),
            count == old(memory).atoms().len(),
            before == old(memory).traces(),
            restored(rows@.take(index as int), count, before) == Ok::<Traces, StoreError>(
                memory.traces(),
            ),
        decreases rows.len() - index,
    {
        let ghost next = rows@.take(index + 1);
        proof {
            assert(next.drop_last() =~= rows@.take(index as int));
            assert(next.last() == rows@[index as int]);
        }
        match read_feedback_edge(&rows[index]) {
            Ok(edge) => {
                let memory_id = memory.memory_id();
                let from_id = AtomId::from_parts(memory_id, edge.from);
                let to_id = AtomId::from_parts(memory_id, edge.to);
                proof {
                    crate::model::lemma_atom_id_parts(memory_id, edge.from);
                    crate::model::lemma_atom_id_parts(memory_id, edge.to);
                }
                match memory.set_feedback_trace(from_id, to_id, edge.trace) {
                    Ok(_) => {},
                    Err(_) => {
                        proof {
                            lemma_first_unrestored_row(rows@, count, before, index + 1);
                        }
                        return invalid_feedback(edge.from, edge.to, GRAPH_VIOLATION);
                    },
                }
            },
            Err(error) => {
                proof {
                    lemma_first_unrestored_row(rows@, count, before, index + 1);
                }
                return Err(error);
            },
        }
        index += 1;
    }
    assert(rows@.take(rows@.len() as int) =~= rows@);
    Ok(())
}

/// The row holds the record in its persisted form.
pub open spec fn encodes(row: FeedbackRow, record: FeedbackRecord) -> bool {
    &&& row.from_sequence matches Value::Blob(bytes) && bytes@ == be_bytes(record.from as nat, 8)
    &&& row.to_sequence matches Value::Blob(bytes) && bytes@ == be_bytes(record.to as nat, 8)
    &&& row.history_bits == Value::Integer(record.trace.bits() as i64)
    &&& row.sample_count == Value::Integer(record.trace.count() as i64)
}

/// The persisted form of a record.
pub fn feedback_row(record: &FeedbackRecord) -> (row: FeedbackRow)
    ensures
        encodes(row, *record),
{
    FeedbackRow {
        from_sequence: sequence_blob(record.from),
        to_sequence: sequence_blob(record.to),
        history_bits: Value::Integer(record.trace.history_bits() as i64),
        sample_count: Value::Integer(record.trace.sample_count() as i64),
    }
}

/// An eight-byte blob.
pub fn sequence_blob(sequence: u64) -> (value: Value)
    ensures
        value matches Value::Blob(bytes) && bytes@ == be_bytes(sequence as nat, 8),
{
    let bytes = encode_u64(sequence);
    let mut blob: Vec<u8> = Vec::new();
    let mut index: usize = 0;
    while index < 8
        invariant
            index <= 8,
            bytes@.len() == 8,
            blob@ =~= bytes@.take(index as int),
        decreases 8 - index,
    {
        blob.push(bytes[index]);
        index += 1;
    }
    assert(bytes@.take(8) =~= bytes@);
    Value::Blob(blob)
}

/// Reading a row gives back the record that was written in it.
pub proof fn law_feedback_row_round_trip(row: FeedbackRow, record: FeedbackRecord)
    requires
        encodes(row, record),
        record.from != record.to,
        record.trace.canonical(),
    ensures
        record_in(row) == Ok::<FeedbackRecord, StoreError>(record),
{
    law_u64_encoding(record.from, record.from, be_bytes(record.from as nat, 8));
    law_u64_encoding(record.to, record.to, be_bytes(record.to as nat, 8));
    lemma_trace_parts(record.trace);
    lemma_trace_of(record.trace);
}

/// One change of the feedback table.
#[derive(Clone, Copy, Debug, PartialEq, Eq, Structural)]
pub enum FeedbackMutation {
    /// Removes a persisted edge.
    Delete(FeedbackRecord),
    /// Adds an edge that is not persisted.
    Insert(FeedbackRecord),
    /// Replaces the history of a persisted edge.
    Update(FeedbackRecord),
}

impl FeedbackMutation {
    /// The key of the changed edge.
    pub open spec fn key(self) -> (u64, u64) {
        match self {
            FeedbackMutation::Delete(record) => record.key(),
            FeedbackMutation::Insert(record) => record.key(),
            FeedbackMutation::Update(record) => record.key(),
        }
    }

    /// The table after the change.
    pub open spec fn apply(self, edges: EdgeTable) -> EdgeTable {
        match self {
            FeedbackMutation::Delete(record) => edges.remove(record.key()),
            FeedbackMutation::Insert(record) => edges.insert(record.key(), record.trace),
            FeedbackMutation::Update(record) => edges.insert(record.key(), record.trace),
        }
    }

    /// The change turns what was found into what is wanted, and is not idle.
    pub open spec fn necessary(self, found: EdgeTable, wanted: EdgeTable) -> bool {
        match self {
            FeedbackMutation::Delete(record) => found.contains_key(record.key())
                && !wanted.contains_key(record.key()),
            FeedbackMutation::Insert(record) => !found.contains_key(record.key())
                && wanted.contains_key(record.key()) && wanted[record.key()] == record.trace,
            FeedbackMutation::Update(record) => found.contains_key(record.key())
                && wanted.contains_key(record.key()) && wanted[record.key()] == record.trace
                && found[record.key()] != record.trace,
        }
    }
}

/// The table after the changes, first to last.
pub open spec fn apply_all(edges: EdgeTable, mutations: Seq<FeedbackMutation>) -> EdgeTable
    decreases mutations.len(),
{
    if mutations.len() == 0 {
        edges
    } else {
        apply_all(mutations[0].apply(edges), mutations.drop_first())
    }
}

/// The changes that a walk over two ordered lists finds.
pub open spec fn merge(found: Seq<FeedbackRecord>, wanted: Seq<FeedbackRecord>) -> Seq<
    FeedbackMutation,
>
    decreases found.len() + wanted.len(),
{
    if found.len() > 0 && (wanted.len() == 0 || key_before(found[0].key(), wanted[0].key())) {
        seq![FeedbackMutation::Delete(found[0])] + merge(found.drop_first(), wanted)
    } else if wanted.len() > 0 && (found.len() == 0 || key_before(
        wanted[0].key(),
        found[0].key(),
    )) {
        seq![FeedbackMutation::Insert(wanted[0])] + merge(found, wanted.drop_first())
    } else if found.len() > 0 && wanted.len() > 0 {
        if found[0].trace != wanted[0].trace {
            seq![FeedbackMutation::Update(wanted[0])] + merge(
                found.drop_first(),
                wanted.drop_first(),
            )
        } else {
            merge(found.drop_first(), wanted.drop_first())
        }
    } else {
        Seq::empty()
    }
}

/// Changes that make the feedback table equal to a memory's edges.
#[derive(Clone, Debug, PartialEq, Eq)]
pub struct FeedbackPlan {
    /// Buffered changes in key order.
    pub mutations: Vec<FeedbackMutation>,
    /// The changes outgrew the buffer: every row is replaced.
    pub replace_all: bool,
}

impl FeedbackPlan {
    /// The plan after the changes were pushed.
    pub open spec fn collects(&self, pushed: Seq<FeedbackMutation>) -> bool {
        &&& self.replace_all <==> pushed.len() > MAX_BUFFERED_FEEDBACK_MUTATIONS
        &&& self.mutations@ == if self.replace_all {
            Seq::empty()
        } else {
            pushed
        }
    }

    /// The table after the plan is carried out over a memory with the wanted edges.
    pub open spec fn outcome(&self, found: EdgeTable, wanted: EdgeTable) -> EdgeTable {
        if self.replace_all {
            wanted
        } else {
            apply_all(found, self.mutations@)
        }
    }

    /// Creates a plan without changes.
    pub fn new() -> (plan: FeedbackPlan)
        ensures
            plan.collects(Seq::empty()),
    {
        FeedbackPlan { mutations: Vec::new(), replace_all: false }
    }

    /// Buffers a change, or turns to replacement when the buffer is full.
    pub fn push(&mut self, mutation: FeedbackMutation)
        ensures
            forall|pushed: Seq<FeedbackMutation>| #[trigger]
                old(self).collects(pushed) ==> final(self).collects(pushed.push(mutation)),
            old(self).replace_all ==> *final(self) == *old(self),
            !old(self).replace_all && old(self).mutations@.len()
                == MAX_BUFFERED_FEEDBACK_MUTATIONS ==> {
                &&& final(self).replace_all
                &&& final(self).mutations@.len() == 0
            },
            !old(self).replace_all && old(self).mutations@.len()
                != MAX_BUFFERED_FEEDBACK_MUTATIONS ==> {
                &&& !final(self).replace_all
                &&& final(self).mutations@ == old(self).mutations@.push(mutation)
            },
    {
        if self.replace_all {
            return;
        }
        if self.mutations.len() == MAX_BUFFERED_FEEDBACK_MUTATIONS {
            self.mutations.clear();
            self.replace_all = true;
            return;
        }
        self.mutations.push(mutation);
    }
}

fn key_precedes(first: &FeedbackRecord, second: &FeedbackRecord) -> (before: bool)
    ensures
        before == key_before(first.key(), second.key()),
{
    first.from < second.from || first.from == second.from && first.to < second.to
}

/// Plans the changes from one ordered list of edges to another.
pub fn plan_changes(found: &[FeedbackRecord], wanted: &[FeedbackRecord]) -> (plan: FeedbackPlan)
    ensures
        plan.collects(merge(found@, wanted@)),
{
    let mut plan = FeedbackPlan::new();
    let ghost mut pushed: Seq<FeedbackMutation> = Seq::empty();
    let mut left: usize = 0;
    let mut right: usize = 0;
    assert(found@.skip(0) =~= found@);
    assert(wanted@.skip(0) =~= wanted@);
    assert(pushed + merge(found@, wanted@) =~= merge(found@, wanted@));
    while !plan.replace_all && (left < found.len() || right < wanted.len())
        invariant
            left <= found@.len(),
            right <= wanted@.len(),
            plan.collects(pushed),
            pushed + merge(found@.skip(left as int), wanted@.skip(right as int)) == merge(
                found@,
                wanted@,
            ),
        decreases (found.len() - left) + (wanted.len() - right),
    {
        let ghost before = pushed;
        let ghost rest_found = found@.skip(left as int);
        let ghost rest_wanted = wanted@.skip(right as int);
        proof {
            if left < found@.len() {
                assert(rest_found[0] == found@[left as int]);
                assert(rest_found.drop_first() =~= found@.skip(left + 1));
            }
            if right < wanted@.len() {
                assert(rest_wanted[0] == wanted@[right as int]);
                assert(rest_wanted.drop_first() =~= wanted@.skip(right + 1));
            }
        }
        let ghost mut step: Seq<FeedbackMutation> = Seq::empty();
        if left < found.len() && (right == wanted.len() || key_precedes(
            &found[left],
            &wanted[right],
        )) {
            let mutation = FeedbackMutation::Delete(found[left]);
            plan.push(mutation);
            proof {
                step = seq![mutation];
                pushed = pushed.push(mutation);
            }
            left += 1;
        } else if right < wanted.len() && (left == found.len() || key_precedes(
            &wanted[right],
            &found[left],
        )) {
            let mutation = FeedbackMutation::Insert(wanted[right]);
            plan.push(mutation);
            proof {
                step = seq![mutation];
                pushed = pushed.push(mutation);
            }
            right += 1;
        } else {
            if found[left].trace != wanted[right].trace {
                let mutation = FeedbackMutation::Update(wanted[right]);
                plan.push(mutation);
                proof {
                    step = seq![mutation];
                    pushed = pushed.push(mutation);
                }
            }
            left += 1;
            right += 1;
        }
        proof {
            let rest = merge(found@.skip(left as int), wanted@.skip(right as int));
            assert(merge(rest_found, rest_wanted) =~= step + rest);
            assert(pushed =~= before + step);
            assert(before + (step + rest) =~= (before + step) + rest);
        }
    }
    proof {
        if !plan.replace_all {
            assert(found@.skip(left as int) =~= Seq::empty());
            assert(wanted@.skip(right as int) =~= Seq::empty());
            assert(pushed + Seq::<FeedbackMutation>::empty() =~= pushed);
        }
    }
    plan
}

/// Each entry of a table is that of a record.
pub proof fn lemma_table_keys(records: Seq<FeedbackRecord>, key: (u64, u64))
    ensures
        table(records).contains_key(key) ==> exists|i: int|
            0 <= i < records.len() && (#[trigger] records[i]).key() == key && records[i].trace
                == table(records)[key],
    decreases records.len(),
{
    if records.len() > 0 && table(records).contains_key(key) {
        let rest = records.drop_first();
        if key == records[0].key() {
            assert(records[0].key() == key);
        } else {
            lemma_table_keys(rest, key);
            let i = choose|i: int|
                0 <= i < rest.len() && (#[trigger] rest[i]).key() == key && rest[i].trace == table(
                    rest,
                )[key];
            assert(records[i + 1] == rest[i]);
        }
    }
}

/// Each record of an ordered list is in its table.
pub proof fn lemma_table_records(records: Seq<FeedbackRecord>, index: int)
    requires
        ordered(records),
        0 <= index < records.len(),
    ensures
        table(records).contains_key(records[index].key()),
        table(records)[records[index].key()] == records[index].trace,
    decreases records.len(),
{
    if index > 0 {
        let rest = records.drop_first();
        assert forall|i: int, j: int|
            #![trigger rest[i], rest[j]]
            0 <= i < j < rest.len() implies key_before(rest[i].key(), rest[j].key()) by {
            assert(rest[i] == records[i + 1]);
            assert(rest[j] == records[j + 1]);
        }
        assert(rest[index - 1] == records[index]);
        lemma_table_records(rest, index - 1);
        assert(key_before(records[0].key(), records[index].key()));
    }
}

/// A table with one more record holds its key and trace.
pub proof fn lemma_table_push(records: Seq<FeedbackRecord>, record: FeedbackRecord)
    requires
        ordered(records.push(record)),
    ensures
        table(records.push(record)) == table(records).insert(record.key(), record.trace),
    decreases records.len(),
{
    let all = records.push(record);
    if records.len() == 0 {
        assert(all.drop_first() =~= records);
    } else {
        let rest = records.drop_first();
        assert(all.drop_first() =~= rest.push(record));
        lemma_ordered_head(all);
        lemma_table_push(rest, record);
        assert(all[0] == records[0]);
        assert(key_before(all[0].key(), all[records.len() as int].key()));
        assert(table(all) =~= table(records).insert(record.key(), record.trace));
    }
}

/// An ordered list's head is absent from the rest, which is ordered.
proof fn lemma_ordered_head(records: Seq<FeedbackRecord>)
    requires
        ordered(records),
        records.len() > 0,
    ensures
        ordered(records.drop_first()),
        !table(records.drop_first()).contains_key(records[0].key()),
        forall|key: (u64, u64)| #[trigger]
            table(records.drop_first()).contains_key(key) ==> key_before(records[0].key(), key),
{
    let rest = records.drop_first();
    assert forall|i: int, j: int|
        #![trigger rest[i], rest[j]]
        0 <= i < j < rest.len() implies key_before(rest[i].key(), rest[j].key()) by {
        assert(rest[i] == records[i + 1]);
        assert(rest[j] == records[j + 1]);
    }
    assert forall|key: (u64, u64)| #[trigger] table(rest).contains_key(key) implies key_before(
        records[0].key(),
        key,
    ) by {
        lemma_table_keys(rest, key);
        let i = choose|i: int| 0 <= i < rest.len() && (#[trigger] rest[i]).key() == key;
        assert(rest[i] == records[i + 1]);
    }
}

/// Two ordered lists of one table are equal.
pub proof fn law_listing_is_unique(
    first: Seq<FeedbackRecord>,
    second: Seq<FeedbackRecord>,
    edges: EdgeTable,
)
    requires
        lists_table(first, edges),
        lists_table(second, edges),
    ensures
        first == second,
    decreases first.len(),
{
    if first.len() == 0 {
        if second.len() > 0 {
            lemma_table_records(second, 0);
        }
        assert(first =~= second);
    } else if second.len() == 0 {
        lemma_table_records(first, 0);
    } else {
        lemma_ordered_head(first);
        lemma_ordered_head(second);
        lemma_table_records(first, 0);
        lemma_table_records(second, 0);
        if first[0].key() != second[0].key() {
            assert(table(first.drop_first()).contains_key(second[0].key()));
            assert(table(second.drop_first()).contains_key(first[0].key()));
        }
        let rest = edges.remove(first[0].key());
        assert(table(first.drop_first()) =~= rest);
        assert(table(second.drop_first()) =~= rest);
        law_listing_is_unique(first.drop_first(), second.drop_first(), rest);
        assert(first =~= seq![first[0]] + first.drop_first());
        assert(second =~= seq![second[0]] + second.drop_first());
    }
}

spec fn touches(found: Seq<FeedbackRecord>, wanted: Seq<FeedbackRecord>, key: (u64, u64)) -> bool {
    table(found).contains_key(key) || table(wanted).contains_key(key)
}

spec fn entry(edges: EdgeTable, key: (u64, u64)) -> Option<FeedbackTrace> {
    if edges.contains_key(key) {
        Some(edges[key])
    } else {
        None
    }
}

/// The walk settles each key of either list and leaves every other key alone.
proof fn lemma_merge_settles(
    found: Seq<FeedbackRecord>,
    wanted: Seq<FeedbackRecord>,
    edges: EdgeTable,
)
    requires
        ordered(found),
        ordered(wanted),
        forall|key: (u64, u64)| #[trigger]
            touches(found, wanted, key) ==> entry(edges, key) == entry(table(found), key),
    ensures
        forall|key: (u64, u64)| #[trigger]
            entry(apply_all(edges, merge(found, wanted)), key) == if touches(found, wanted, key) {
                entry(table(wanted), key)
            } else {
                entry(edges, key)
            },
    decreases found.len() + wanted.len(),
{
    let mutations = merge(found, wanted);
    if found.len() > 0 {
        lemma_ordered_head(found);
    }
    if wanted.len() > 0 {
        lemma_ordered_head(wanted);
    }
    if found.len() > 0 && (wanted.len() == 0 || key_before(found[0].key(), wanted[0].key())) {
        let rest = found.drop_first();
        let after = edges.remove(found[0].key());
        assert(mutations.drop_first() =~= merge(rest, wanted));
        assert forall|key: (u64, u64)| #[trigger] touches(rest, wanted, key) implies entry(
            after,
            key,
        ) == entry(table(rest), key) by {
            assert(touches(found, wanted, key));
        }
        lemma_merge_settles(rest, wanted, after);
        assert forall|key: (u64, u64)| #[trigger]
            entry(apply_all(edges, mutations), key) == if touches(found, wanted, key) {
                entry(table(wanted), key)
            } else {
                entry(edges, key)
            } by {
            assert(entry(apply_all(after, merge(rest, wanted)), key) == if touches(
                rest,
                wanted,
                key,
            ) {
                entry(table(wanted), key)
            } else {
                entry(after, key)
            });
        }
    } else if wanted.len() > 0 && (found.len() == 0 || key_before(
        wanted[0].key(),
        found[0].key(),
    )) {
        let rest = wanted.drop_first();
        let after = edges.insert(wanted[0].key(), wanted[0].trace);
        assert(mutations.drop_first() =~= merge(found, rest));
        assert forall|key: (u64, u64)| #[trigger] touches(found, rest, key) implies entry(
            after,
            key,
        ) == entry(table(found), key) by {
            assert(touches(found, wanted, key));
        }
        lemma_merge_settles(found, rest, after);
        assert forall|key: (u64, u64)| #[trigger]
            entry(apply_all(edges, mutations), key) == if touches(found, wanted, key) {
                entry(table(wanted), key)
            } else {
                entry(edges, key)
            } by {
            assert(entry(apply_all(after, merge(found, rest)), key) == if touches(
                found,
                rest,
                key,
            ) {
                entry(table(rest), key)
            } else {
                entry(after, key)
            });
        }
    } else if found.len() > 0 && wanted.len() > 0 {
        assert(found[0].key() == wanted[0].key());
        let rest_found = found.drop_first();
        let rest_wanted = wanted.drop_first();
        let changed = found[0].trace != wanted[0].trace;
        let after = if changed {
            edges.insert(wanted[0].key(), wanted[0].trace)
        } else {
            edges
        };
        if changed {
            assert(mutations.drop_first() =~= merge(rest_found, rest_wanted));
        }
        assert(touches(found, wanted, found[0].key()));
        assert forall|key: (u64, u64)| #[trigger] touches(rest_found, rest_wanted, key) implies entry(
            after,
            key,
        ) == entry(table(rest_found), key) by {
            assert(touches(found, wanted, key));
        }
        lemma_merge_settles(rest_found, rest_wanted, after);
        assert forall|key: (u64, u64)| #[trigger]
            entry(apply_all(edges, mutations), key) == if touches(found, wanted, key) {
                entry(table(wanted), key)
            } else {
                entry(edges, key)
            } by {
            assert(entry(apply_all(after, merge(rest_found, rest_wanted)), key) == if touches(
                rest_found,
                rest_wanted,
                key,
            ) {
                entry(table(rest_wanted), key)
            } else {
                entry(after, key)
            });
        }
    }
}

/// Carrying out a plan turns the persisted edges into the wanted ones,
/// whether it is buffered or replaces the table.
pub proof fn law_plan_reaches_wanted_edges(
    plan: FeedbackPlan,
    found: Seq<FeedbackRecord>,
    wanted: Seq<FeedbackRecord>,
)
    requires
        ordered(found),
        ordered(wanted),
        plan.collects(merge(found, wanted)),
    ensures
        plan.outcome(table(found), table(wanted)) == table(wanted),
{
    lemma_merge_settles(found, wanted, table(found));
    let reached = apply_all(table(found), merge(found, wanted));
    assert forall|key: (u64, u64)| #[trigger] entry(reached, key) == entry(table(wanted), key) by {
        assert(touches(found, wanted, key) || !touches(found, wanted, key));
    }
    assert forall|key: (u64, u64)| reached.contains_key(key) <==> table(wanted).contains_key(
        key,
    ) by {
        assert(entry(reached, key) == entry(table(wanted), key));
    }
    assert forall|key: (u64, u64)| reached.contains_key(key) implies reached[key] == table(
        wanted,
    )[key] by {
        assert(entry(reached, key) == entry(table(wanted), key));
    }
    assert(reached =~= table(wanted));
}

/// Each key's change stands before that of every later one.
pub open spec fn mutations_ordered(mutations: Seq<FeedbackMutation>) -> bool {
    forall|i: int, j: int|
        #![trigger mutations[i], mutations[j]]
        0 <= i < j < mutations.len() ==> key_before(mutations[i].key(), mutations[j].key())
}

spec fn all_after(mutations: Seq<FeedbackMutation>, key: (u64, u64)) -> bool {
    forall|i: int| 0 <= i < mutations.len() ==> key_before(key, (#[trigger] mutations[i]).key())
}

proof fn lemma_merge_after(
    found: Seq<FeedbackRecord>,
    wanted: Seq<FeedbackRecord>,
    key: (u64, u64),
)
    requires
        forall|i: int| 0 <= i < found.len() ==> key_before(key, (#[trigger] found[i]).key()),
        forall|i: int| 0 <= i < wanted.len() ==> key_before(key, (#[trigger] wanted[i]).key()),
    ensures
        all_after(merge(found, wanted), key),
    decreases found.len() + wanted.len(),
{
    if found.len() > 0 && (wanted.len() == 0 || key_before(found[0].key(), wanted[0].key())) {
        lemma_merge_after(found.drop_first(), wanted, key);
    } else if wanted.len() > 0 && (found.len() == 0 || key_before(
        wanted[0].key(),
        found[0].key(),
    )) {
        lemma_merge_after(found, wanted.drop_first(), key);
    } else if found.len() > 0 && wanted.len() > 0 {
        lemma_merge_after(found.drop_first(), wanted.drop_first(), key);
    }
}

/// A plan changes each key at most once, in key order, and only where the
/// persisted edge differs from the wanted one.
pub proof fn law_plan_changes_only_differences(
    found: Seq<FeedbackRecord>,
    wanted: Seq<FeedbackRecord>,
)
    requires
        ordered(found),
        ordered(wanted),
    ensures
        mutations_ordered(merge(found, wanted)),
        forall|i: int|
            0 <= i < merge(found, wanted).len() ==> (#[trigger] merge(found, wanted)[i]).necessary(
                table(found),
                table(wanted),
            ),
    decreases found.len() + wanted.len(),
{
    let mutations = merge(found, wanted);
    if found.len() > 0 {
        lemma_ordered_head(found);
    }
    if wanted.len() > 0 {
        lemma_ordered_head(wanted);
    }
    if found.len() > 0 && (wanted.len() == 0 || key_before(found[0].key(), wanted[0].key())) {
        let rest = merge(found.drop_first(), wanted);
        lemma_merge_after(found.drop_first(), wanted, found[0].key());
        law_plan_changes_only_differences(found.drop_first(), wanted);
        assert(!table(wanted).contains_key(found[0].key())) by {
            if table(wanted).contains_key(found[0].key()) {
                lemma_table_keys(wanted, found[0].key());
            }
        }
        assert forall|i: int| 0 <= i < mutations.len() implies (
        #[trigger] mutations[i]).necessary(table(found), table(wanted)) by {
            if i > 0 {
                assert(mutations[i] == rest[i - 1]);
                assert(rest[i - 1].necessary(table(found.drop_first()), table(wanted)));
                assert(key_before(found[0].key(), rest[i - 1].key()));
            }
        }
    } else if wanted.len() > 0 && (found.len() == 0 || key_before(
        wanted[0].key(),
        found[0].key(),
    )) {
        let rest = merge(found, wanted.drop_first());
        lemma_merge_after(found, wanted.drop_first(), wanted[0].key());
        law_plan_changes_only_differences(found, wanted.drop_first());
        assert(!table(found).contains_key(wanted[0].key())) by {
            if table(found).contains_key(wanted[0].key()) {
                lemma_table_keys(found, wanted[0].key());
            }
        }
        assert forall|i: int| 0 <= i < mutations.len() implies (
        #[trigger] mutations[i]).necessary(table(found), table(wanted)) by {
            if i > 0 {
                assert(mutations[i] == rest[i - 1]);
                assert(rest[i - 1].necessary(table(found), table(wanted.drop_first())));
                assert(key_before(wanted[0].key(), rest[i - 1].key()));
            }
        }
    } else if found.len() > 0 && wanted.len() > 0 {
        assert(found[0].key() == wanted[0].key());
        let rest = merge(found.drop_first(), wanted.drop_first());
        lemma_merge_after(found.drop_first(), wanted.drop_first(), found[0].key());
        law_plan_changes_only_differences(found.drop_first(), wanted.drop_first());
        let shift: int = if found[0].trace != wanted[0].trace {
            1
        } else {
            0
        };
        assert forall|i: int| 0 <= i < mutations.len() implies (
        #[trigger] mutations[i]).necessary(table(found), table(wanted)) by {
            if i >= shift {
                assert(mutations[i] == rest[i - shift]);
                assert(rest[i - shift].necessary(
                    table(found.drop_first()),
                    table(wanted.drop_first()),
                ));
                assert(key_before(found[0].key(), rest[i - shift].key()));
            }
        }
    }
}

/// Lists a memory's edges in key order.
pub fn memory_feedback_records<E: Episode>(memory: &Memory<E>) -> (records: Vec<FeedbackRecord>)
    requires
        memory.wf(),
    ensures
        lists_table(records@, edge_table(memory.traces())),
{
    let edges = memory.feedback_edges();
    let mut records: Vec<FeedbackRecord> = Vec::new();
    let mut index: usize = 0;
    let length: usize = memory.episodes().len();
    while index < edges.len()
        invariant
            index <= edges@.len(),
            records@.len() == index,
            forall|i: int|
                0 <= i < index ==> (#[trigger] records@[i]) == (FeedbackRecord {
                    from: edges@[i].parts().0.position(),
                    to: edges@[i].parts().1.position(),
                    trace: edges@[i].parts().2,
                }),
        decreases edges.len() - index,
    {
        let edge = edges[index];
        records.push(
            FeedbackRecord {
                from: edge.from().sequence(),
                to: edge.to().sequence(),
                trace: edge.trace(),
            },
        );
        index += 1;
    }
    proof {
        assert forall|i: int, j: int|
            #![trigger records@[i], records@[j]]
            0 <= i < j < records@.len() implies key_before(
            records@[i].key(),
            records@[j].key(),
        ) by {
            assert(edge_before(edges@[i], edges@[j]));
        }
        let wanted = edge_table(memory.traces());
        assert forall|key: (u64, u64)| #[trigger] table(records@).contains_key(key) implies
            wanted.contains_key(key) && wanted[key] == table(records@)[key] by {
            lemma_table_keys(records@, key);
            let i = choose|i: int|
                0 <= i < records@.len() && (#[trigger] records@[i]).key() == key
                    && records@[i].trace == table(records@)[key];
            let parts = edges@[i].parts();
            assert(memory.knows(parts.0));
            assert(memory.knows(parts.1));
            assert(lookup(
                memory.traces(),
                (parts.0.position() as usize, parts.1.position() as usize),
            ) == Some(parts.2));
        }
        assert forall|key: (u64, u64)| #[trigger] wanted.contains_key(key) implies table(
            records@,
        ).contains_key(key) by {
            let pair = (key.0 as usize, key.1 as usize);
            assert(crate::memory::lists_edge(edges@, pair));
            let i = choose|i: int|
                0 <= i < edges@.len() && crate::memory::edge_joins(#[trigger] edges@[i], pair);
            assert(records@[i].key() == key);
            lemma_table_records(records@, i);
        }
        assert(table(records@) =~= wanted);
    }
    records
}

/// Plans how the persisted rows become the memory's edges.
///
/// The rows are those of the whole table in key order; each must join two
/// episodes that are persisted.
pub fn reconcile<E: Episode>(
    rows: &[FeedbackRow],
    memory: &Memory<E>,
    persisted_episode_count: usize,
) -> (result: Result<FeedbackPlan, StoreError>)
    requires
        memory.wf(),
    ensures
        match (records_in(rows@, persisted_episode_count as u64), result) {
            (Ok(found), Ok(plan)) => exists|wanted: Seq<FeedbackRecord>| #[trigger]
                lists_table(wanted, edge_table(memory.traces())) && plan.collects(
                    merge(found, wanted),
                ),
            (Err(expected), Err(error)) => error == expected,
            _ => false,
        },
{
    match read_feedback_edges(rows, persisted_episode_count as u64) {
        Ok(found) => {
            let wanted = memory_feedback_records(memory);
            let plan = plan_changes(found.as_slice(), wanted.as_slice());
            assert(lists_table(wanted@, edge_table(memory.traces())));
            Ok(plan)
        },
        Err(error) => Err(error),
    }
}

} // verus!
