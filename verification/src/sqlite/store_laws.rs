//! What a save writes, whom it refuses, and what rows are accepted.

use vstd::arithmetic::power::pow;
use vstd::prelude::*;

use crate::bytes::{be_bytes, be_value};
use crate::memory::Traces;
use crate::model::two_to;
use crate::sqlite::episode_codec::{law_episode_payload_round_trip, parse_episode, storable_groups};
use crate::sqlite::error::{StoreError, StoreIntegrityError};
use crate::sqlite::feedback::{
    edge_table, ordered, record_in, records_in, restored, table, EdgeTable,
    FeedbackMutation, FeedbackPlan, FeedbackRecord, FeedbackRow,
};
use crate::sqlite::format::{metadata_error, version_error, MetadataRow, ObjectContent};
use crate::sqlite::row::{u64_in, Value};
use crate::sqlite::semantic_laws::holds_vector_of;
use crate::sqlite::snapshot::{episodes_in, EpisodeRow, StoredEpisode};
use crate::sqlite::store::{
    identity_error, named_memory, named_revision, owned_bytes, tail_error, SaveObservation,
    SavePlan, SqliteStore,
};
use crate::sqlite::vectors::{
    components, first_fault, law_vector_codec_round_trip, VectorRow,
};

verus! {

/// A save writes the next revision, every staged symbol under the next free
/// identifiers, every new episode with its timestamp and its attributes, and
/// every prepared vector, each under the sequence of its episode.
pub proof fn law_saves_write_everything_new(
    store: SqliteStore,
    seen: SaveObservation,
    plan: SavePlan,
)
    requires
        store.plans(seen, plan),
        store.saved_episodes() <= store.owned().atoms().len() <= u64::MAX,
        forall|i: int|
            0 <= i < store.owned().atoms().len() ==> storable_groups(
                (#[trigger] store.owned().atoms()[i]).groups(),
            ),
    ensures
        plan.next_revision == store.revision() + 1,
        plan.symbols@.len() == store.catalog_state().staged().len(),
        forall|i: int|
            0 <= i < plan.symbols@.len() ==> (#[trigger] plan.symbols@[i]).0
                == store.catalog_state().persisted() + i && plan.symbols@[i].1@
                == store.catalog_state().staged()[i],
        plan.episodes@.len() == store.owned().atoms().len() - store.saved_episodes(),
        forall|i: int|
            0 <= i < plan.episodes@.len() ==> {
                let row = #[trigger] plan.episodes@[i];
                let atom = store.owned().atoms()[store.saved_episodes() + i];
                &&& u64_in(row.sequence, "episodes", "sequence") == Ok::<u64, StoreError>(
                    (store.saved_episodes() + i) as u64,
                )
                &&& row.payload matches Value::Blob(bytes) && parse_episode(bytes@) == Ok::<
                    StoredEpisode,
                    Seq<char>,
                >((atom.content().timestamp, atom.groups()))
            },
        plan.vectors@.len() == store.prepared().len(),
        forall|i: int|
            0 <= i < plan.vectors@.len() ==> (#[trigger] plan.vectors@[i]).0
                == store.saved_episodes() + i && components(plan.vectors@[i].1@)
                == store.prepared()[i],
{
    assert forall|i: int| 0 <= i < plan.episodes@.len() implies {
        let row = #[trigger] plan.episodes@[i];
        let atom = store.owned().atoms()[store.saved_episodes() + i];
        &&& u64_in(row.sequence, "episodes", "sequence") == Ok::<u64, StoreError>(
            (store.saved_episodes() + i) as u64,
        )
        &&& row.payload matches Value::Blob(bytes) && parse_episode(bytes@) == Ok::<
            StoredEpisode,
            Seq<char>,
        >((atom.content().timestamp, atom.groups()))
    } by {
        let row = plan.episodes@[i];
        let atom = store.owned().atoms()[store.saved_episodes() + i];
        let number = (store.saved_episodes() + i) as u64;
        crate::sqlite::wire::law_u64_encoding(number, number, be_bytes(number as nat, 8));
        law_episode_payload_round_trip(atom.content().timestamp, atom.groups());
        assert(crate::sqlite::snapshot::encodes_episode(
            row,
            (store.saved_episodes() + i) as nat,
            crate::sqlite::snapshot::stored(atom),
        ));
    }
    assert forall|i: int| 0 <= i < plan.vectors@.len() implies (#[trigger] plan.vectors@[i]).0
        == store.saved_episodes() + i && components(plan.vectors@[i].1@)
        == store.prepared()[i] by {
        law_vector_codec_round_trip(store.prepared()[i], Seq::empty());
    }
}

/// A save goes on only in the database of its own memory, at the revision that
/// the session works on, and behind the rows that it knows; a session that works
/// on another revision is told so.
pub proof fn law_stale_sessions_are_refused(
    store: SqliteStore,
    seen: SaveObservation,
    canonical: Seq<ObjectContent>,
)
    ensures
        store.save_error(seen, canonical) is None ==> {
            &&& identity_error(seen.identity, canonical) is None
            &&& named_memory(seen.identity.metadata@) == store.owned().identifier()@
            &&& named_revision(seen.identity.metadata@) == store.revision() < i64::MAX
            &&& store.saved_episodes() <= store.owned().atoms().len()
            &&& ends_at(owned_bytes(seen.episode_tail), store.saved_episodes())
            &&& ends_at(owned_bytes(seen.symbol_tail), store.catalog_state().persisted())
            &&& ends_at(owned_bytes(seen.vector_tail), store.saved_episodes())
        },
        store.saved_episodes() <= store.owned().atoms().len() && identity_error(
            seen.identity,
            canonical,
        ) is None && named_memory(seen.identity.metadata@) == store.owned().identifier()@
            && named_revision(seen.identity.metadata@) != store.revision() ==> store.save_error(
            seen,
            canonical,
        ) == Some(
            StoreError::ConcurrentModification {
                expected_revision: store.revision(),
                actual_revision: named_revision(seen.identity.metadata@),
            },
        ),
        store.session_error(seen.identity.metadata@) is None ==> named_memory(
            seen.identity.metadata@,
        ) == store.owned().identifier()@ && named_revision(seen.identity.metadata@)
            == store.revision(),
{
    lemma_tail(owned_bytes(seen.episode_tail));
    lemma_tail(owned_bytes(seen.symbol_tail));
    lemma_tail(owned_bytes(seen.vector_tail));
}

/// The table ends behind as many rows: its last number is one less, and there is
/// none in an empty table.
pub open spec fn ends_at(tail: Option<Seq<u8>>, count: nat) -> bool {
    match tail {
        None => count == 0,
        Some(bytes) => bytes.len() == 8 && be_value(bytes) + 1 == count,
    }
}

proof fn lemma_tail(tail: Option<Seq<u8>>)
    ensures
        tail matches Some(bytes) ==> (bytes.len() == 8 ==> be_value(bytes)
            < 0x1_0000_0000_0000_0000),
{
    if let Some(bytes) = tail {
        crate::bytes::lemma_capacities();
        crate::bytes::lemma_be_canonical(bytes);
    }
}

/// A last number is right exactly if the table ends there.
pub proof fn law_tails_close_their_prefix(
    tail: Option<Seq<u8>>,
    name: &'static str,
    count: nat,
    detail: &'static str,
)
    ensures
        tail_error(tail, name, count, detail) is None <==> ends_at(tail, count),
{
    lemma_tail(tail);
}

/// A save needs a vector for every new episode.
pub proof fn law_every_new_episode_needs_its_vector(store: SqliteStore)
    requires
        store.encoded_all(),
        store.saved_episodes() <= store.owned().atoms().len(),
    ensures
        store.prepared().len() == store.owned().atoms().len() - store.saved_episodes(),
{
}

/// Only a store of format version 8 is accepted.
pub proof fn law_only_the_eighth_version_is_accepted(rows: Seq<Value>)
    ensures
        version_error(rows) is None <==> rows.len() == 1 && (rows[0] matches Value::Integer(found)
            && found == 8),
        rows.len() > 0 && (rows[0] matches Value::Integer(found) && found != 8) ==> version_error(
            rows,
        ) == Some(
            StoreError::InvalidStore(
                StoreIntegrityError::UnsupportedFormatVersion { found: rows[0]->Integer_0 },
            ),
        ),
{
}

/// Metadata is accepted exactly if it is one row under the key one, of format
/// version 8, with a memory identifier that is not zero, a revision that is not
/// negative, and the fingerprint of the fixed profile.
pub proof fn law_accepted_metadata(rows: Seq<MetadataRow>)
    ensures
        metadata_error(rows) is None <==> {
            &&& rows.len() == 1
            &&& rows[0].singleton matches Value::Integer(singleton) && singleton == 1
            &&& rows[0].format_version matches Value::Integer(found) && found == 8
            &&& rows[0].memory_id matches Value::Blob(bytes) && bytes@.len() == 16 && be_value(
                bytes@,
            ) != 0
            &&& rows[0].snapshot_revision matches Value::Integer(revision) && revision >= 0
            &&& rows[0].semantic_profile_fingerprint matches Value::Blob(bytes) && bytes@
                == crate::semantic::profile::PROFILE_FINGERPRINT@
        },
        metadata_error(rows) is None ==> rows[0].snapshot_revision == Value::Integer(
            named_revision(rows),
        ) && (rows[0].memory_id matches Value::Blob(bytes) && named_memory(rows) == be_value(
            bytes@,
        )),
{
}

/// A feedback row is read as the edge between its sequences with its history, and
/// an edge from an episode to itself is refused.
pub proof fn law_feedback_rows_hold_their_edges(row: FeedbackRow)
    ensures
        record_in(row) matches Ok(record) ==> {
            &&& u64_in(row.from_sequence, "feedback_edges", "from_sequence") == Ok::<
                u64,
                StoreError,
            >(record.from)
            &&& u64_in(row.to_sequence, "feedback_edges", "to_sequence") == Ok::<
                u64,
                StoreError,
            >(record.to)
            &&& record.from != record.to
            &&& row.history_bits matches Value::Integer(bits) && bits == record.trace.bits()
            &&& row.sample_count matches Value::Integer(count) && count == record.trace.count()
            &&& 1 <= record.trace.count() <= 16
        },
{
    crate::model::lemma_trace_built(
        match row.history_bits {
            Value::Integer(bits) => bits as u16,
            _ => 0,
        },
        match row.sample_count {
            Value::Integer(count) => count as u8,
            _ => 0,
        },
    );
}

/// Accepted feedback rows are read one by one, and each joins persisted episodes.
pub proof fn law_feedback_rows_are_read_one_by_one(rows: Seq<FeedbackRow>, bound: u64)
    ensures
        records_in(rows, bound) is Ok <==> forall|i: int|
            0 <= i < rows.len() ==> (record_in(#[trigger] rows[i]) matches Ok(record) && record.from
                < bound && record.to < bound),
        records_in(rows, bound) matches Ok(records) ==> {
            &&& records.len() == rows.len()
            &&& forall|i: int|
                0 <= i < rows.len() ==> record_in(#[trigger] rows[i]) == Ok::<
                    FeedbackRecord,
                    StoreError,
                >(records[i])
        },
    decreases rows.len(),
{
    if rows.len() > 0 {
        let rest = rows.drop_last();
        law_feedback_rows_are_read_one_by_one(rest, bound);
        assert(rows[rows.len() - 1] == rows.last());
        assert forall|i: int| 0 <= i < rest.len() implies #[trigger] rest[i] == rows[i] by {}
        if forall|i: int|
            0 <= i < rows.len() ==> (record_in(#[trigger] rows[i]) matches Ok(record) && record.from
                < bound && record.to < bound) {
            assert forall|i: int| 0 <= i < rest.len() implies (record_in(
                #[trigger] rest[i],
            ) matches Ok(record) && record.from < bound && record.to < bound) by {
                assert(record_in(rows[i]) is Ok);
            }
            assert(record_in(rows[rows.len() - 1]) is Ok);
        }
        if records_in(rows, bound) is Ok {
            let before = records_in(rest, bound)->Ok_0;
            let records = records_in(rows, bound)->Ok_0;
            assert forall|i: int| 0 <= i < rows.len() implies record_in(#[trigger] rows[i]) == Ok::<
                FeedbackRecord,
                StoreError,
            >(records[i]) by {
                if i < rest.len() {
                    assert(record_in(rest[i]) == Ok::<FeedbackRecord, StoreError>(before[i]));
                }
            }
            assert forall|i: int| 0 <= i < rows.len() implies (record_in(
                #[trigger] rows[i],
            ) matches Ok(record) && record.from < bound && record.to < bound) by {
                if i < rest.len() {
                    assert(record_in(rest[i]) is Ok);
                }
            }
        }
    }
}

/// Ordered records are the table of their edges: every record under its two
/// sequences, and nothing else.
pub proof fn law_tables_hold_their_records(records: Seq<FeedbackRecord>)
    requires
        ordered(records),
    ensures
        forall|i: int|
            0 <= i < records.len() ==> table(records).contains_key(
                ((#[trigger] records[i]).from, records[i].to),
            ) && table(records)[(records[i].from, records[i].to)] == records[i].trace,
        forall|key: (u64, u64)| #[trigger]
            table(records).contains_key(key) ==> exists|i: int|
                0 <= i < records.len() && (#[trigger] records[i]).from == key.0 && records[i].to
                    == key.1,
    decreases records.len(),
{
    if records.len() > 0 {
        let rest = records.drop_first();
        assert forall|i: int| 0 <= i < rest.len() implies #[trigger] rest[i] == records[i + 1] by {}
        assert(ordered(rest)) by {
            assert forall|i: int, j: int|
                #![trigger rest[i], rest[j]]
                0 <= i < j < rest.len() implies crate::sqlite::feedback::key_before(
                rest[i].key(),
                rest[j].key(),
            ) by {
                assert(rest[i] == records[i + 1] && rest[j] == records[j + 1]);
            }
        }
        law_tables_hold_their_records(rest);
        assert forall|i: int| 0 <= i < records.len() implies table(records).contains_key(
            ((#[trigger] records[i]).from, records[i].to),
        ) && table(records)[(records[i].from, records[i].to)] == records[i].trace by {
            if i > 0 {
                assert(rest[i - 1] == records[i]);
                assert(crate::sqlite::feedback::key_before(records[0].key(), records[i].key()));
            }
        }
        assert forall|key: (u64, u64)| #[trigger] table(records).contains_key(key) implies exists|
            i: int,
        |
            0 <= i < records.len() && (#[trigger] records[i]).from == key.0 && records[i].to
                == key.1 by {
            if key == records[0].key() {
                assert(records[0].from == key.0);
            } else {
                assert(table(rest).contains_key(key));
                let i = choose|i: int|
                    0 <= i < rest.len() && (#[trigger] rest[i]).from == key.0 && rest[i].to == key.1;
                assert(records[i + 1] == rest[i]);
            }
        }
    }
}

/// The feedback table of a memory holds each of its histories under the two
/// sequences that it joins, and nothing else.
pub proof fn law_edges_are_the_histories(traces: Traces, from: usize, to: usize)
    ensures
        edge_table(traces).contains_key((from as u64, to as u64)) <==> traces.contains_key(
            (from, to),
        ),
        traces.contains_key((from, to)) ==> edge_table(traces)[(from as u64, to as u64)]
            == traces[(from, to)],
        forall|key: (u64, u64)| #[trigger]
            edge_table(traces).contains_key(key) ==> traces.contains_key(
                (key.0 as usize, key.1 as usize),
            ),
{
}

/// Each change of the feedback table touches the edge of its record alone: a
/// deletion leaves it absent, and the others leave the record's history there.
pub proof fn law_changes_touch_one_edge(
    record: FeedbackRecord,
    edges: EdgeTable,
    other: (u64, u64),
)
    requires
        other != (record.from, record.to),
    ensures
        ({
            let key = (record.from, record.to);
            let deleted = FeedbackMutation::Delete(record).apply(edges);
            let inserted = FeedbackMutation::Insert(record).apply(edges);
            let updated = FeedbackMutation::Update(record).apply(edges);
            &&& !deleted.contains_key(key)
            &&& inserted.contains_key(key) && inserted[key] == record.trace
            &&& updated.contains_key(key) && updated[key] == record.trace
            &&& deleted.contains_key(other) == edges.contains_key(other)
            &&& inserted.contains_key(other) == edges.contains_key(other)
            &&& updated.contains_key(other) == edges.contains_key(other)
            &&& edges.contains_key(other) ==> deleted[other] == edges[other] && inserted[other]
                == edges[other] && updated[other] == edges[other]
        }),
{
}

/// Restored rows are the histories of a memory: each accepted row under the two
/// episodes that it joins, in place of what stood there before.
pub proof fn law_rows_are_restored_one_by_one(
    rows: Seq<FeedbackRow>,
    row: FeedbackRow,
    count: nat,
    traces: Traces,
)
    requires
        restored(rows, count, traces) is Ok,
        record_in(row) is Ok,
    ensures
        restored(Seq::empty(), count, traces) == Ok::<Traces, StoreError>(traces),
        ({
            let record = record_in(row)->Ok_0;
            let before = restored(rows, count, traces)->Ok_0;
            if record.from < count && record.to < count {
                restored(rows.push(row), count, traces) == Ok::<Traces, StoreError>(
                    before.insert((record.from as usize, record.to as usize), record.trace),
                )
            } else {
                restored(rows.push(row), count, traces) is Err
            }
        }),
{
    assert(rows.push(row).drop_last() =~= rows);
}

/// Accepted episode rows are read one by one: each under its own sequence, and
/// as the timestamp and the attributes of its payload.
pub proof fn law_episode_rows_are_read_one_by_one(rows: Seq<EpisodeRow>, persisted: nat)
    requires
        rows.len() <= u64::MAX,
        episodes_in(rows, persisted) is Ok,
    ensures
        episodes_in(rows, persisted)->Ok_0.len() == rows.len(),
        forall|i: int|
            0 <= i < rows.len() ==> {
                let row = #[trigger] rows[i];
                &&& u64_in(row.sequence, "episodes", "sequence") == Ok::<u64, StoreError>(i as u64)
                &&& row.payload matches Value::Blob(bytes) && parse_episode(bytes@) == Ok::<
                    StoredEpisode,
                    Seq<char>,
                >(episodes_in(rows, persisted)->Ok_0[i])
            },
    decreases rows.len(),
{
    if rows.len() > 0 {
        let rest = rows.drop_last();
        law_episode_rows_are_read_one_by_one(rest, persisted);
        let before = episodes_in(rest, persisted)->Ok_0;
        let episodes = episodes_in(rows, persisted)->Ok_0;
        assert(rows[rows.len() - 1] == rows.last());
        assert forall|i: int| 0 <= i < rows.len() implies {
            let row = #[trigger] rows[i];
            &&& u64_in(row.sequence, "episodes", "sequence") == Ok::<u64, StoreError>(i as u64)
            &&& row.payload matches Value::Blob(bytes) && parse_episode(bytes@) == Ok::<
                StoredEpisode,
                Seq<char>,
            >(episodes[i])
        } by {
            if i < rest.len() {
                assert(rest[i] == rows[i]);
                assert(episodes[i] == before[i]);
            }
        }
    }
}

/// An audit passes exactly if every row holds a valid vector under its own sequence.
pub proof fn law_audits_check_every_vector(rows: Seq<VectorRow>)
    requires
        rows.len() <= u64::MAX,
    ensures
        first_fault(rows) is None <==> forall|i: int|
            0 <= i < rows.len() ==> holds_vector_of(#[trigger] rows[i], i),
    decreases rows.len(),
{
    if rows.len() > 0 {
        let rest = rows.drop_last();
        law_audits_check_every_vector(rest);
        assert(rows[rows.len() - 1] == rows.last());
        assert forall|i: int| 0 <= i < rest.len() implies #[trigger] rest[i] == rows[i] by {}
        if forall|i: int| 0 <= i < rows.len() ==> holds_vector_of(#[trigger] rows[i], i) {
            assert forall|i: int| 0 <= i < rest.len() implies holds_vector_of(
                #[trigger] rest[i],
                i,
            ) by {
                assert(holds_vector_of(rows[i], i));
            }
            assert(holds_vector_of(rows[rows.len() - 1], rows.len() - 1));
        }
        if first_fault(rows) is None {
            assert forall|i: int| 0 <= i < rows.len() implies holds_vector_of(
                #[trigger] rows[i],
                i,
            ) by {
                if i < rest.len() {
                    assert(holds_vector_of(rest[i], i));
                }
            }
        }
    }
}

/// A feedback row is accepted exactly if its sequences are two different numbers,
/// and its history has one to sixteen samples and no bit beyond them.
pub proof fn law_accepted_feedback_rows(row: FeedbackRow)
    ensures
        record_in(row) is Ok <==> {
            &&& row.from_sequence matches Value::Blob(bytes) && bytes@.len() == 8
            &&& row.to_sequence matches Value::Blob(bytes) && bytes@.len() == 8
            &&& row.from_sequence matches Value::Blob(first) && row.to_sequence matches Value::Blob(
                second,
            ) && be_value(first@) != be_value(second@)
            &&& row.history_bits matches Value::Integer(bits) && row.sample_count matches Value::Integer(
                count,
            ) && 1 <= count <= 16 && 0 <= bits < pow(2, count as nat)
        },
{
    if let Value::Blob(bytes) = row.from_sequence {
        lemma_tail(Some(bytes@));
    }
    if let Value::Blob(bytes) = row.to_sequence {
        lemma_tail(Some(bytes@));
    }
    if let Value::Integer(count) = row.sample_count {
        if 1 <= count <= 16 {
            lemma_two_to(count as nat);
            lemma_two_to(16);
            vstd::arithmetic::power::lemma_pow_increases(2, count as nat, 16);
            reveal_with_fuel(two_to, 17);
        }
    }
}

proof fn lemma_two_to(exponent: nat)
    ensures
        two_to(exponent) == pow(2, exponent),
    decreases exponent,
{
    if exponent == 0 {
        vstd::arithmetic::power::lemma_pow0(2);
    } else {
        lemma_two_to((exponent - 1) as nat);
        vstd::arithmetic::power::lemma_pow1(2);
        vstd::arithmetic::power::lemma_pow_adds(2, 1, (exponent - 1) as nat);
    }
}

/// Changes are applied one by one as long as there are at most 16384 of them;
/// more of them replace the whole table.
pub proof fn law_many_changes_replace_the_table(
    plan: FeedbackPlan,
    pushed: Seq<FeedbackMutation>,
)
    requires
        plan.collects(pushed),
    ensures
        pushed.len() <= 16_384 ==> !plan.replace_all && plan.mutations@ == pushed,
        pushed.len() > 16_384 ==> plan.replace_all,
{
}

} // verus!
