//! Which databases are loaded, and what they are loaded as.

use vstd::prelude::*;
use vstd::string::*;

use crate::memory::Traces;
use crate::sqlite::error::StoreError;
use crate::sqlite::episode_codec::parse_episode;
use crate::sqlite::feedback::{record_in, records_in, restored, FeedbackRow};
use crate::sqlite::format::{
    metadata_error, object_contents, quick_faults, MetadataRow, ObjectContent,
};
use crate::sqlite::row::{u64_in, Value};
use crate::sqlite::snapshot::{episodes_in, EpisodeRow};
use crate::sqlite::store::{
    identity_error, named_memory, named_revision, owned_bytes, snapshot_in, DatabaseIdentity,
    SaveObservation, SnapshotRows, SqliteStore,
};
use crate::sqlite::store_laws::{ends_at, law_tails_close_their_prefix};
use crate::sqlite::symbol_checks::unknown_symbol;
use crate::sqlite::symbols::catalog;

verus! {

/// A database is one of this format exactly if its header, its metadata and its
/// schema are those of the format.
pub proof fn law_accepted_databases(identity: DatabaseIdentity, canonical: Seq<ObjectContent>)
    ensures
        identity_error(identity, canonical) is None <==> {
            &&& identity.application_id == 0x4E41_4F4D
            &&& metadata_error(identity.metadata@) is None
            &&& object_contents(identity.schema@) == canonical
        },
{
}

/// A quick check passes exactly if every table reports `ok`; each other table is
/// told with its diagnostic, in order.
pub proof fn law_quick_checks_need_every_table(reports: Seq<(&'static str, String)>)
    ensures
        quick_faults(reports) == reports.filter(
            |report: (&'static str, String)| report.1@ != "ok"@,
        ).map_values(|report: (&'static str, String)| report.0@ + ": "@ + report.1@),
        quick_faults(reports).len() == 0 <==> forall|i: int|
            0 <= i < reports.len() ==> (#[trigger] reports[i]).1@ == "ok"@,
    decreases reports.len(),
{
    reveal(Seq::filter);
    let bad = |report: (&'static str, String)| report.1@ != "ok"@;
    let show = |report: (&'static str, String)| report.0@ + ": "@ + report.1@;
    if reports.len() == 0 {
        assert(reports.filter(bad).map_values(show) =~= Seq::empty());
    } else {
        let rest = reports.drop_last();
        law_quick_checks_need_every_table(rest);
        assert(reports[reports.len() - 1] == reports.last());
        assert forall|i: int| 0 <= i < rest.len() implies #[trigger] rest[i] == reports[i] by {}
        if bad(reports.last()) {
            assert(reports.filter(bad) == rest.filter(bad).push(reports.last()));
            assert(rest.filter(bad).push(reports.last()).map_values(show) =~= rest.filter(
                bad,
            ).map_values(show).push(show(reports.last())));
        } else {
            if quick_faults(reports).len() == 0 {
                assert forall|i: int| 0 <= i < reports.len() implies (#[trigger] reports[i]).1@
                    == "ok"@ by {
                    if i < rest.len() {
                        assert(rest[i] == reports[i]);
                    }
                }
            }
            if forall|i: int|
                0 <= i < reports.len() ==> (#[trigger] reports[i]).1@ == "ok"@ {
                assert forall|i: int| 0 <= i < rest.len() implies (#[trigger] rest[i]).1@
                    == "ok"@ by {
                    assert(reports[i].1@ == "ok"@);
                }
            }
        }
    }
}

/// The row holds an episode under the sequence, and every symbol of it is known.
pub open spec fn holds_episode_of(row: EpisodeRow, sequence: int, persisted: nat) -> bool {
    &&& u64_in(row.sequence, "episodes", "sequence") == Ok::<u64, StoreError>(sequence as u64)
    &&& row.payload matches Value::Blob(bytes) && parse_episode(bytes@) matches Ok((_, groups))
        && unknown_symbol(groups, persisted) is None
}

/// Episode rows are accepted exactly if each holds an episode under its own
/// sequence, and every symbol is known.
pub proof fn law_accepted_episode_rows(rows: Seq<EpisodeRow>, persisted: nat)
    requires
        rows.len() <= u64::MAX,
    ensures
        episodes_in(rows, persisted) is Ok <==> forall|i: int|
            0 <= i < rows.len() ==> holds_episode_of(#[trigger] rows[i], i, persisted),
    decreases rows.len(),
{
    if rows.len() > 0 {
        let rest = rows.drop_last();
        law_accepted_episode_rows(rest, persisted);
        assert(rows[rows.len() - 1] == rows.last());
        assert forall|i: int| 0 <= i < rest.len() implies #[trigger] rest[i] == rows[i] by {}
        if forall|i: int|
            0 <= i < rows.len() ==> holds_episode_of(#[trigger] rows[i], i, persisted) {
            assert forall|i: int| 0 <= i < rest.len() implies holds_episode_of(
                #[trigger] rest[i],
                i,
                persisted,
            ) by {
                assert(holds_episode_of(rows[i], i, persisted));
            }
            assert(holds_episode_of(rows[rows.len() - 1], rows.len() - 1, persisted));
        }
        if episodes_in(rows, persisted) is Ok {
            assert forall|i: int| 0 <= i < rows.len() implies holds_episode_of(
                #[trigger] rows[i],
                i,
                persisted,
            ) by {
                if i < rest.len() {
                    assert(holds_episode_of(rest[i], i, persisted));
                }
            }
        }
    }
}

/// A feedback row that is refused, or joins an episode that is not there, makes
/// the restoring fail, and nothing else does.
pub proof fn law_wrong_feedback_is_not_restored(
    rows: Seq<FeedbackRow>,
    count: nat,
    traces: Traces,
)
    ensures
        restored(rows, count, traces) is Ok <==> forall|i: int|
            0 <= i < rows.len() ==> (record_in(#[trigger] rows[i]) matches Ok(record) && record.from
                < count && record.to < count),
    decreases rows.len(),
{
    if rows.len() > 0 {
        let rest = rows.drop_last();
        law_wrong_feedback_is_not_restored(rest, count, traces);
        assert(rows[rows.len() - 1] == rows.last());
        assert forall|i: int| 0 <= i < rest.len() implies #[trigger] rest[i] == rows[i] by {}
        if forall|i: int|
            0 <= i < rows.len() ==> (record_in(#[trigger] rows[i]) matches Ok(record) && record.from
                < count && record.to < count) {
            assert forall|i: int| 0 <= i < rest.len() implies (record_in(
                #[trigger] rest[i],
            ) matches Ok(record) && record.from < count && record.to < count) by {
                assert(record_in(rows[i]) is Ok);
            }
            assert(record_in(rows[rows.len() - 1]) is Ok);
        }
        if restored(rows, count, traces) is Ok {
            assert forall|i: int| 0 <= i < rows.len() implies (record_in(
                #[trigger] rows[i],
            ) matches Ok(record) && record.from < count && record.to < count) by {
                if i < rest.len() {
                    assert(record_in(rest[i]) is Ok);
                }
            }
        }
    }
}

/// A database is loaded exactly if it is one of this format, its quick checks
/// pass, its symbols, episodes and feedback are accepted, and its vectors end
/// where its episodes end; it is loaded as what its rows hold.
pub proof fn law_databases_are_loaded_whole(rows: SnapshotRows, canonical: Seq<ObjectContent>)
    ensures
        snapshot_in(rows, canonical) is Ok <==> {
            &&& identity_error(rows.identity, canonical) is None
            &&& quick_faults(rows.quick_check@).len() == 0
            &&& catalog(rows.symbols@) matches Ok(symbols) && episodes_in(
                rows.episodes@,
                symbols,
            ) matches Ok(episodes) && ends_at(owned_bytes(rows.vector_tail), episodes.len())
                && restored(rows.feedback@, episodes.len(), Map::empty()) is Ok
        },
        snapshot_in(rows, canonical) matches Ok(content) ==> {
            &&& content.memory == named_memory(rows.identity.metadata@)
            &&& content.revision == named_revision(rows.identity.metadata@)
            &&& catalog(rows.symbols@) == Ok::<nat, StoreError>(content.symbols)
            &&& episodes_in(rows.episodes@, content.symbols) matches Ok(episodes) && episodes
                == content.episodes
            &&& restored(rows.feedback@, content.episodes.len(), Map::empty()) == Ok::<
                Traces,
                StoreError,
            >(content.traces)
        },
{
    if let Ok(symbols) = catalog(rows.symbols@) {
        if let Ok(episodes) = episodes_in(rows.episodes@, symbols) {
            law_tails_close_their_prefix(
                owned_bytes(rows.vector_tail),
                "episode_vectors",
                episodes.len(),
                "persisted episode-vector tail differs from the episode prefix",
            );
        }
    }
}

/// A save goes on exactly if the database is the session's own, at its revision,
/// which can still grow, its tables end where the session left them, there is
/// room for the new episodes, and its feedback is accepted.
pub proof fn law_saves_go_on_in_their_own_database(
    store: SqliteStore,
    seen: SaveObservation,
    canonical: Seq<ObjectContent>,
)
    ensures
        store.save_error(seen, canonical) is None <==> {
            &&& store.saved_episodes() <= store.owned().atoms().len()
            &&& identity_error(seen.identity, canonical) is None
            &&& named_memory(seen.identity.metadata@) == store.owned().identifier()@
            &&& named_revision(seen.identity.metadata@) == store.revision() < i64::MAX
            &&& ends_at(owned_bytes(seen.episode_tail), store.saved_episodes())
            &&& ends_at(owned_bytes(seen.symbol_tail), store.catalog_state().persisted())
            &&& ends_at(owned_bytes(seen.vector_tail), store.saved_episodes())
            &&& store.prepared().len() == 0 || store.saved_episodes() + store.prepared().len()
                <= usize::MAX + 1
            &&& records_in(seen.feedback@, store.saved_episodes() as u64) is Ok
        },
{
    law_tails_close_their_prefix(
        owned_bytes(seen.episode_tail),
        "episodes",
        store.saved_episodes(),
        "",
    );
    law_tails_close_their_prefix(
        owned_bytes(seen.symbol_tail),
        "symbols",
        store.catalog_state().persisted(),
        "",
    );
    law_tails_close_their_prefix(
        owned_bytes(seen.vector_tail),
        "episode_vectors",
        store.saved_episodes(),
        "",
    );
}

/// A recall goes on exactly if the metadata is accepted and is that of the
/// session's own memory at its revision.
pub proof fn law_recalls_go_on_in_their_own_database(
    store: SqliteStore,
    metadata: Seq<MetadataRow>,
)
    ensures
        store.session_error(metadata) is None <==> metadata_error(metadata) is None
            && named_memory(metadata) == store.owned().identifier()@ && named_revision(metadata)
            == store.revision(),
{
}

} // verus!
