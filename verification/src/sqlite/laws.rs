//! What a committed save leaves for the next load.

use vstd::prelude::*;

use crate::attribute::EpisodeAtom;
use crate::memory::Traces;
use crate::sqlite::episode_codec::storable_groups;
use crate::sqlite::error::StoreError;
use crate::sqlite::feedback::{
    edge_table, encodes, lemma_table_records, lists_table, restored, FeedbackRecord,
};
use crate::sqlite::format::{quick_faults, ObjectContent};
use crate::sqlite::normalize::{normalized, SymbolValueError};
use crate::sqlite::snapshot::{
    encodes_episode, episodes_in, law_appended_episodes_are_read_back,
    law_feedback_rows_are_read_back, law_staged_symbols_extend_the_catalog, stored,
    stored_episodes, SnapshotFault, StoredEpisode,
};
use crate::sqlite::store::{
    identity_error, named_memory, named_revision, owned_bytes, snapshot_in, tail_error,
    SaveObservation, SavePlan, SnapshotContent, SnapshotRows, SqliteStore,
};
use crate::sqlite::symbol_checks::{
    appended_since, encodes_symbol, unknown_in_episodes, unknown_symbol,
};
use crate::sqlite::symbols::{catalog, identifier_space};

verus! {

/// The rows that a database held before a save are those of the session.
pub open spec fn session_rows(
    store: SqliteStore,
    before: SnapshotRows,
    canonical: Seq<ObjectContent>,
) -> bool {
    snapshot_in(before, canonical) matches Ok(content) && {
        &&& content.memory == store.owned().identifier()@
        &&& content.revision == store.revision()
        &&& content.symbols == store.catalog_state().persisted()
        &&& content.episodes == stored_episodes(store.owned().atoms()).take(
            store.saved_episodes() as int,
        )
        &&& store.saved_episodes() <= store.owned().atoms().len()
    }
}

/// The rows are those of before with the plan carried out.
pub open spec fn saved_rows(
    store: SqliteStore,
    before: SnapshotRows,
    plan: SavePlan,
    records: Seq<FeedbackRecord>,
    after: SnapshotRows,
    canonical: Seq<ObjectContent>,
) -> bool {
    let added = after.symbols@.skip(before.symbols@.len() as int);
    &&& identity_error(after.identity, canonical) is None
    &&& named_memory(after.identity.metadata@) == named_memory(before.identity.metadata@)
    &&& named_revision(after.identity.metadata@) == plan.next_revision
    &&& quick_faults(after.quick_check@).len() == 0
    &&& after.symbols@ == before.symbols@ + added
    &&& added.len() == plan.symbols@.len()
    &&& forall|i: int|
        0 <= i < added.len() ==> encodes_symbol(
            #[trigger] added[i],
            plan.symbols@[i].0,
            plan.symbols@[i].1@,
        )
    &&& after.episodes@ == before.episodes@ + plan.episodes@
    &&& tail_error(
        owned_bytes(after.vector_tail),
        "episode_vectors",
        after.episodes@.len(),
        "persisted episode-vector tail differs from the episode prefix",
    ) is None
    &&& after.feedback@.len() == records.len()
    &&& forall|i: int|
        0 <= i < records.len() ==> encodes(#[trigger] after.feedback@[i], records[i])
}

proof fn lemma_edge_table_injective(first: Traces, second: Traces)
    requires
        edge_table(first) == edge_table(second),
    ensures
        first == second,
{
    assert forall|pair: (usize, usize)| first.contains_key(pair) <==> second.contains_key(
        pair,
    ) by {
        let key = (pair.0 as u64, pair.1 as u64);
        assert(edge_table(first).contains_key(key) == first.contains_key(pair));
        assert(edge_table(second).contains_key(key) == second.contains_key(pair));
    }
    assert forall|pair: (usize, usize)| first.contains_key(pair) implies first[pair]
        == second[pair] by {
        let key = (pair.0 as u64, pair.1 as u64);
        assert(edge_table(first).contains_key(key));
        assert(edge_table(first)[key] == first[pair]);
        assert(edge_table(second)[key] == second[pair]);
    }
    assert(first =~= second);
}

proof fn lemma_known_episode(atoms: Seq<EpisodeAtom>, bound: nat, index: int)
    requires
        unknown_in_episodes(atoms, bound) is None,
        0 <= index < atoms.len(),
    ensures
        unknown_symbol(atoms[index].groups(), bound) is None,
    decreases atoms.len(),
{
    if index > 0 {
        assert(atoms.drop_first()[index - 1] == atoms[index]);
        lemma_known_episode(atoms.drop_first(), bound, index - 1);
    }
}

proof fn lemma_episode_count(
    rows: Seq<crate::sqlite::snapshot::EpisodeRow>,
    persisted: nat,
)
    requires
        episodes_in(rows, persisted) is Ok,
    ensures
        episodes_in(rows, persisted)->Ok_0.len() == rows.len(),
    decreases rows.len(),
{
    if rows.len() > 0 {
        lemma_episode_count(rows.drop_last(), persisted);
    }
}

/// Loading a database after a planned save gives back the session's memory:
/// the same identifier, every episode in order, every feedback trace, every
/// symbol, and the next revision.
///
/// The staged symbols are canonical texts, the episodes use known symbols, and
/// the feedback rows list the outcome of the plan.
pub proof fn law_saved_store_is_loaded_back(
    store: SqliteStore,
    before: SnapshotRows,
    seen: SaveObservation,
    plan: SavePlan,
    records: Seq<FeedbackRecord>,
    after: SnapshotRows,
    canonical: Seq<ObjectContent>,
)
    requires
        store.wf(),
        store.owned().atoms().len() <= usize::MAX,
        store.catalog_state().allocated() <= identifier_space(),
        session_rows(store, before, canonical),
        store.plans(seen, plan),
        saved_rows(store, before, plan, records, after, canonical),
        lists_table(records, edge_table(store.owned().traces())),
        forall|i: int|
            0 <= i < store.catalog_state().staged().len() ==> normalized(
                #[trigger] store.catalog_state().staged()[i],
            ) == Ok::<Seq<char>, SymbolValueError>(store.catalog_state().staged()[i]),
        forall|i: int|
            0 <= i < store.owned().atoms().len() ==> storable_groups(
                (#[trigger] store.owned().atoms()[i]).groups(),
            ),
        unknown_in_episodes(
            appended_since(store.owned().atoms(), store.saved_episodes()),
            store.catalog_state().allocated(),
        ) is None,
    ensures
        snapshot_in(after, canonical) == Ok::<SnapshotContent, SnapshotFault>(
            SnapshotContent {
                memory: store.owned().identifier()@,
                revision: plan.next_revision,
                symbols: store.catalog_state().allocated(),
                episodes: stored_episodes(store.owned().atoms()),
                traces: store.owned().traces(),
            },
        ),
{
    let persisted = store.catalog_state().persisted();
    let allocated = store.catalog_state().allocated();
    let staged = store.catalog_state().staged();
    let atoms = store.owned().atoms();
    let saved = store.saved_episodes();
    let added = after.symbols@.skip(before.symbols@.len() as int);
    assert(catalog(before.symbols@) == Ok::<nat, StoreError>(persisted));
    assert forall|i: int| 0 <= i < added.len() implies {
        &&& encodes_symbol(#[trigger] added[i], (persisted + i) as u64, staged[i])
        &&& normalized(staged[i]) == Ok::<Seq<char>, SymbolValueError>(staged[i])
    } by {
        assert(encodes_symbol(added[i], plan.symbols@[i].0, plan.symbols@[i].1@));
        assert(plan.symbols@[i].0 == persisted + i);
    }
    law_staged_symbols_extend_the_catalog(before.symbols@, added, staged);
    assert(catalog(after.symbols@) == Ok::<nat, StoreError>(allocated));

    let later = stored_episodes(atoms).skip(saved as int);
    let fresh = appended_since(atoms, saved);
    lemma_episode_count(before.episodes@, persisted);
    let early = stored_episodes(atoms).take(saved as int);
    assert(episodes_in(before.episodes@, persisted) == Ok::<Seq<StoredEpisode>, SnapshotFault>(
        early,
    ));
    assert(before.episodes@.len() == saved);
    let rows = plan.episodes@;
    assert forall|i: int| 0 <= i < rows.len() implies {
        &&& encodes_episode(#[trigger] rows[i], before.episodes@.len() + i as nat, later[i])
        &&& storable_groups(later[i].1)
        &&& unknown_symbol(later[i].1, allocated) is None
    } by {
        assert(later[i] == stored(atoms[saved + i]));
        assert(fresh[i] == atoms[saved + i]);
        lemma_known_episode(fresh, allocated, i);
        assert(storable_groups(atoms[saved + i].groups()));
    }
    law_appended_episodes_are_read_back(before.episodes@, rows, later, persisted, allocated);
    assert(early + later =~= stored_episodes(atoms));
    assert(after.episodes@.len() == atoms.len());

    store.owned().lemma_traces_join_episodes();
    let feedback = after.feedback@;
    let traces = store.owned().traces();
    assert forall|i: int| 0 <= i < feedback.len() implies {
        &&& encodes(#[trigger] feedback[i], records[i])
        &&& records[i].from != records[i].to
        &&& records[i].from < atoms.len()
        &&& records[i].to < atoms.len()
        &&& records[i].trace.canonical()
    } by {
        lemma_table_records(records, i);
        let key = records[i].key();
        assert(edge_table(traces).contains_key(key));
        let pair = (key.0 as usize, key.1 as usize);
        assert(traces.contains_key(pair));
        assert(edge_table(traces)[key] == traces[pair]);
    }
    law_feedback_rows_are_read_back(feedback, records, atoms.len());
    let restored_traces = restored(feedback, atoms.len(), Map::empty())->Ok_0;
    lemma_edge_table_injective(restored_traces, traces);
}

} // verus!
