//! Which identifiers symbols have, and which of them are asked for and new.

use vstd::prelude::*;

use crate::attribute::EpisodeAtom;
use crate::model::SymbolId;
use crate::sqlite::error::StoreError;
use crate::sqlite::normalize::{batch_of, normalized, SymbolValueError};
use crate::sqlite::row::Value;
use crate::sqlite::symbol_checks::{
    first_beyond, placeholder_text, unknown_in_episodes, unknown_symbol,
};
use crate::sqlite::symbol_values::{collected, persisted_ids, value_of, values_of};
use crate::sqlite::symbols::{
    answered, assigned, catalog, foreign_answer, fresh_texts, query_end, requested, symbol_in,
    unstaged, SymbolRow,
};
use crate::text::joined;
use crate::text_table::distinct;

verus! {

/// A batch whose values all have canonical symbols is accepted, and a refusal
/// names a value that has none, with the rule that it violates.
pub proof fn law_batches_are_refused_for_a_value(values: Seq<Seq<char>>)
    requires
        values.len() <= usize::MAX,
    ensures
        (forall|i: int| 0 <= i < values.len() ==> normalized(#[trigger] values[i]) is Ok)
            ==> batch_of(values) is Ok,
        batch_of(values) matches Err(error) ==> (error matches StoreError::InvalidSymbolValue {
            index,
            detail,
        } && index < values.len() && normalized(values[index as int]) is Err && detail
            == normalized(values[index as int])->Err_0.rule()),
    decreases values.len(),
{
    if values.len() > 0 {
        let rest = values.drop_last();
        law_batches_are_refused_for_a_value(rest);
        assert(values[values.len() - 1] == values.last());
        assert forall|i: int| 0 <= i < rest.len() implies #[trigger] rest[i] == values[i] by {}
        if forall|i: int| 0 <= i < values.len() ==> normalized(#[trigger] values[i]) is Ok {
            assert forall|i: int| 0 <= i < rest.len() implies normalized(
                #[trigger] rest[i],
            ) is Ok by {
                assert(normalized(values[i]) is Ok);
            }
        }
    }
}

/// The catalog is asked for every canonical text that is not staged, and for no other.
pub proof fn law_unstaged_texts_are_asked_for(
    unique: Seq<Seq<char>>,
    staged: Seq<Seq<char>>,
    place: usize,
)
    requires
        unique.len() <= usize::MAX,
    ensures
        unstaged(unique, staged, unique.len()).contains(place) <==> place < unique.len()
            && !staged.contains(unique[place as int]),
{
    lemma_unstaged_places(unique, staged, unique.len(), place);
}

proof fn lemma_unstaged_places(
    unique: Seq<Seq<char>>,
    staged: Seq<Seq<char>>,
    end: nat,
    place: usize,
)
    requires
        end <= unique.len() <= usize::MAX,
    ensures
        unstaged(unique, staged, end).contains(place) <==> place < end && !staged.contains(
            unique[place as int],
        ),
    decreases end,
{
    if end > 0 {
        lemma_unstaged_places(unique, staged, (end - 1) as nat, place);
        let before = unstaged(unique, staged, (end - 1) as nat);
        let after = unstaged(unique, staged, end);
        if before.contains(place) {
            assert(after[before.index_of(place)] == place);
        }
        if !staged.contains(unique[end - 1]) {
            assert(after.last() == (end - 1) as usize);
            if after.contains(place) {
                let k = after.index_of(place);
                if k < before.len() {
                    assert(before[k] == place);
                }
            }
        }
    }
}

/// A canonical text becomes new exactly if it is neither staged nor known to the
/// catalog, and no text becomes new twice.
pub proof fn law_only_unknown_texts_are_new(
    unique: Seq<Seq<char>>,
    staged: Seq<Seq<char>>,
    known: Seq<Option<u64>>,
)
    requires
        distinct(unique),
        distinct(staged),
        known.len() == unique.len(),
    ensures
        forall|place: int|
            0 <= place < unique.len() ==> (fresh_texts(unique, staged, known, unique.len()).contains(
                #[trigger] unique[place],
            ) <==> !staged.contains(unique[place]) && known[place] is None),
        forall|k: int|
            0 <= k < fresh_texts(unique, staged, known, unique.len()).len() ==> unique.contains(
                #[trigger] fresh_texts(unique, staged, known, unique.len())[k],
            ),
        distinct(staged + fresh_texts(unique, staged, known, unique.len())),
{
    lemma_fresh_members(unique, staged, known, unique.len());
    let fresh = fresh_texts(unique, staged, known, unique.len());
    let all = staged + fresh;
    assert forall|i: int, j: int|
        #![trigger all[i], all[j]]
        0 <= i < j < all.len() implies all[i] != all[j] by {
        if j < staged.len() {
            assert(staged[i] != staged[j]);
        } else if i < staged.len() {
            assert(fresh.contains(fresh[j - staged.len()]));
            let text = fresh[j - staged.len()];
            let place = unique.index_of(text);
            assert(unique[place] == text);
            assert(staged.contains(staged[i]));
        } else {
            assert(fresh[i - staged.len()] != fresh[j - staged.len()]);
        }
    }
}

proof fn lemma_fresh_members(
    unique: Seq<Seq<char>>,
    staged: Seq<Seq<char>>,
    known: Seq<Option<u64>>,
    end: nat,
)
    requires
        distinct(unique),
        end <= unique.len(),
        known.len() == unique.len(),
    ensures
        forall|place: int|
            0 <= place < unique.len() ==> (fresh_texts(unique, staged, known, end).contains(
                #[trigger] unique[place],
            ) <==> place < end && !staged.contains(unique[place]) && known[place] is None),
        forall|k: int|
            0 <= k < fresh_texts(unique, staged, known, end).len() ==> unique.contains(
                #[trigger] fresh_texts(unique, staged, known, end)[k],
            ),
        distinct(fresh_texts(unique, staged, known, end)),
    decreases end,
{
    if end > 0 {
        lemma_fresh_members(unique, staged, known, (end - 1) as nat);
        let before = fresh_texts(unique, staged, known, (end - 1) as nat);
        let after = fresh_texts(unique, staged, known, end);
        let last = unique[end - 1];
        assert forall|place: int| 0 <= place < unique.len() implies (after.contains(
            #[trigger] unique[place],
        ) <==> place < end && !staged.contains(unique[place]) && known[place] is None) by {
            if before.contains(unique[place]) {
                assert(after[before.index_of(unique[place])] == unique[place]);
            }
            if place == end - 1 && after.len() > before.len() {
                assert(after[before.len() as int] == last);
            }
            if after.contains(unique[place]) {
                let k = after.index_of(unique[place]);
                if k < before.len() {
                    assert(before[k] == unique[place]);
                } else if place < end - 1 {
                    assert(unique[place] != unique[end - 1]);
                } else if place > end - 1 {
                    assert(unique[end - 1] != unique[place]);
                }
            }
        }
        assert forall|k: int| 0 <= k < after.len() implies unique.contains(#[trigger] after[k]) by {
            if k < before.len() {
                assert(after[k] == before[k]);
                assert(unique.contains(before[k]));
            } else {
                assert(unique[end - 1] == last);
            }
        }
        assert forall|i: int, j: int|
            #![trigger after[i], after[j]]
            0 <= i < j < after.len() implies after[i] != after[j] by {
            if j < before.len() {
                assert(before[i] != before[j]);
            } else {
                assert(before.contains(before[i]));
                assert(!before.contains(unique[end - 1]));
            }
        }
    }
}

/// An accepted answer to a query gives each text of a row the identifier of its
/// row, and leaves every other text as it was.
pub proof fn law_rows_answer_for_their_texts(
    unique: Seq<Seq<char>>,
    chunk: Seq<usize>,
    known: Seq<Option<u64>>,
    rows: Seq<SymbolRow>,
)
    requires
        distinct(unique),
        known.len() == unique.len(),
        forall|i: int| 0 <= i < chunk.len() ==> (#[trigger] chunk[i]) < unique.len(),
        answered(unique, chunk, known, rows) is Ok,
    ensures
        answered(unique, chunk, known, rows)->Ok_0.len() == known.len(),
        forall|r: int|
            0 <= r < rows.len() ==> {
                &&& symbol_in(#[trigger] rows[r]) is Ok
                &&& unique.contains(symbol_in(rows[r])->Ok_0.1)
                &&& answered(unique, chunk, known, rows)->Ok_0[unique.index_of(
                    symbol_in(rows[r])->Ok_0.1,
                )] == Some(symbol_in(rows[r])->Ok_0.0)
            },
        forall|k: int|
            0 <= k < unique.len() ==> {
                ||| (#[trigger] answered(unique, chunk, known, rows)->Ok_0[k]) == known[k]
                ||| exists|r: int|
                    0 <= r < rows.len() && symbol_in(#[trigger] rows[r]) == Ok::<
                        (u64, Seq<char>),
                        StoreError,
                    >((answered(unique, chunk, known, rows)->Ok_0[k]->0, unique[k]))
            },
    decreases rows.len(),
{
    if rows.len() > 0 {
        let rest = rows.drop_last();
        law_rows_answer_for_their_texts(unique, chunk, known, rest);
        let before = answered(unique, chunk, known, rest)->Ok_0;
        let after = answered(unique, chunk, known, rows)->Ok_0;
        let (id, text) = symbol_in(rows.last())->Ok_0;
        assert(rows[rows.len() - 1] == rows.last());
        assert(requested(unique, chunk, text));
        let i = choose|i: int|
            0 <= i < chunk.len() && unique[(#[trigger] chunk[i]) as int] == text;
        let place = unique.index_of(text);
        assert(unique[chunk[i] as int] == text);
        assert(unique.contains(text));
        assert(unique[place] == text);
        assert forall|r: int| 0 <= r < rows.len() implies {
            &&& symbol_in(#[trigger] rows[r]) is Ok
            &&& unique.contains(symbol_in(rows[r])->Ok_0.1)
            &&& after[unique.index_of(symbol_in(rows[r])->Ok_0.1)] == Some(
                symbol_in(rows[r])->Ok_0.0,
            )
        } by {
            if r < rest.len() {
                assert(rest[r] == rows[r]);
                assert(symbol_in(rest[r]) is Ok);
            }
        }
        assert forall|k: int| 0 <= k < unique.len() implies {
            ||| (#[trigger] after[k]) == known[k]
            ||| exists|r: int|
                0 <= r < rows.len() && symbol_in(#[trigger] rows[r]) == Ok::<
                    (u64, Seq<char>),
                    StoreError,
                >((after[k]->0, unique[k]))
        } by {
            if k == place {
                assert(symbol_in(rows[rows.len() - 1]) == Ok::<(u64, Seq<char>), StoreError>(
                    (after[k]->0, unique[k]),
                ));
            } else {
                assert(after[k] == before[k]);
                if before[k] != known[k] {
                    let r = choose|r: int|
                        0 <= r < rest.len() && symbol_in(#[trigger] rest[r]) == Ok::<
                            (u64, Seq<char>),
                            StoreError,
                        >((before[k]->0, unique[k]));
                    assert(rows[r] == rest[r]);
                }
            }
        }
    }
}

/// An answer is foreign exactly if it is an identifier that is not persisted.
pub proof fn law_answers_are_foreign_above_the_persisted(
    places: Seq<usize>,
    known: Seq<Option<u64>>,
    persisted: nat,
)
    ensures
        foreign_answer(places, known, persisted) is None <==> forall|i: int|
            0 <= i < places.len() ==> (known[(#[trigger] places[i]) as int] matches Some(id)
                ==> id < persisted),
        foreign_answer(places, known, persisted) matches Some(id) ==> id >= persisted && exists|
            i: int,
        |
            0 <= i < places.len() && known[(#[trigger] places[i]) as int] == Some(id),
    decreases places.len(),
{
    if places.len() > 0 {
        let rest = places.drop_first();
        law_answers_are_foreign_above_the_persisted(rest, known, persisted);
        assert forall|i: int| 0 <= i < rest.len() implies #[trigger] rest[i] == places[i + 1] by {}
        if known[places[0] as int] matches Some(id) && id >= persisted {
            assert(known[places[0] as int] is Some);
        } else {
            if foreign_answer(places, known, persisted) is None {
                assert forall|i: int| 0 <= i < places.len() implies (known[(
                #[trigger] places[i]) as int] matches Some(id) ==> id < persisted) by {
                    if i > 0 {
                        assert(rest[i - 1] == places[i]);
                    }
                }
            } else {
                let id = foreign_answer(places, known, persisted)->0;
                let i = choose|i: int|
                    0 <= i < rest.len() && known[(#[trigger] rest[i]) as int] == Some(id);
                assert(known[places[i + 1] as int] == Some(id));
            }
        }
    }
}

/// A row that is a symbol holds its identifier in eight bytes, and its text, which
/// is its own canonical symbol.
pub proof fn law_symbol_rows_hold_canonical_texts(row: SymbolRow)
    ensures
        symbol_in(row) matches Ok((id, text)) ==> {
            &&& row.id matches Value::Blob(bytes) && bytes@.len() == 8
                && crate::bytes::be_value(bytes@) == id
            &&& row.value matches Value::Text(bytes)
                && vstd::utf8::valid_utf8(bytes@) && vstd::utf8::decode_utf8(bytes@) == text
            &&& normalized(text) == Ok::<Seq<char>, SymbolValueError>(text)
        },
{
    if let Value::Blob(bytes) = row.id {
        crate::bytes::lemma_capacities();
        crate::bytes::lemma_be_canonical(bytes@);
    }
}

/// A catalog counts its rows, which hold the identifiers from zero on in order.
pub proof fn law_catalogs_count_their_symbols(rows: Seq<SymbolRow>)
    requires
        rows.len() <= 0xffff_ffff_ffff_ffff,
    ensures
        catalog(rows) matches Ok(count) ==> count == rows.len(),
        catalog(rows) is Ok <==> forall|i: int|
            0 <= i < rows.len() ==> (symbol_in(#[trigger] rows[i]) matches Ok((id, _)) && id == i),
    decreases rows.len(),
{
    if rows.len() > 0 {
        let rest = rows.drop_last();
        law_catalogs_count_their_symbols(rest);
        assert(rows[rows.len() - 1] == rows.last());
        assert forall|i: int| 0 <= i < rest.len() implies #[trigger] rest[i] == rows[i] by {}
        if forall|i: int|
            0 <= i < rows.len() ==> (symbol_in(#[trigger] rows[i]) matches Ok((id, _)) && id == i) {
            assert forall|i: int| 0 <= i < rest.len() implies (symbol_in(
                #[trigger] rest[i],
            ) matches Ok((id, _)) && id == i) by {
                assert(symbol_in(rows[i]) is Ok);
            }
            assert(symbol_in(rows[rows.len() - 1]) is Ok);
        }
        if catalog(rows) is Ok {
            assert forall|i: int| 0 <= i < rows.len() implies (symbol_in(
                #[trigger] rows[i],
            ) matches Ok((id, _)) && id == i) by {
                if i < rest.len() {
                    assert(symbol_in(rest[i]) is Ok);
                }
            }
        }
    }
}

/// Collected rows give each of their identifiers its text, beside the texts that
/// were known before, and no other.
pub proof fn law_rows_are_collected(found: Map<u64, Seq<char>>, rows: Seq<SymbolRow>)
    requires
        collected(found, rows) is Ok,
    ensures
        forall|r: int|
            0 <= r < rows.len() ==> (symbol_in(#[trigger] rows[r]) matches Ok((id, text))
                && collected(found, rows)->Ok_0.contains_key(id) && collected(
                found,
                rows,
            )->Ok_0[id] == text),
        forall|id: u64| #[trigger]
            found.contains_key(id) ==> collected(found, rows)->Ok_0.contains_key(id) && collected(
                found,
                rows,
            )->Ok_0[id] == found[id],
        forall|id: u64| #[trigger]
            collected(found, rows)->Ok_0.contains_key(id) ==> found.contains_key(id) || exists|
                r: int,
            |
                0 <= r < rows.len() && (symbol_in(#[trigger] rows[r])->Ok_0).0 == id,
    decreases rows.len(),
{
    if rows.len() > 0 {
        let rest = rows.drop_last();
        law_rows_are_collected(found, rest);
        let before = collected(found, rest)->Ok_0;
        let after = collected(found, rows)->Ok_0;
        assert(rows[rows.len() - 1] == rows.last());
        assert forall|r: int| 0 <= r < rows.len() implies (symbol_in(
            #[trigger] rows[r],
        ) matches Ok((id, text)) && after.contains_key(id) && after[id] == text) by {
            if r < rest.len() {
                assert(rest[r] == rows[r]);
                assert(symbol_in(rest[r]) is Ok);
            }
        }
        assert forall|id: u64| #[trigger] after.contains_key(id) implies found.contains_key(id)
            || exists|r: int|
            0 <= r < rows.len() && (symbol_in(#[trigger] rows[r])->Ok_0).0 == id by {
            if before.contains_key(id) {
                if !found.contains_key(id) {
                    let r = choose|r: int|
                        0 <= r < rest.len() && (symbol_in(#[trigger] rest[r])->Ok_0).0 == id;
                    assert(rows[r] == rest[r]);
                }
            } else {
                assert((symbol_in(rows[rows.len() - 1])->Ok_0).0 == id);
            }
        }
        assert forall|id: u64| #[trigger] found.contains_key(id) implies after.contains_key(id)
            && after[id] == found[id] by {
            assert(before.contains_key(id));
        }
    }
}

/// Every persisted identifier of a request is loaded once, and no other.
pub proof fn law_persisted_identifiers_are_loaded_once(
    ids: Seq<SymbolId>,
    persisted: nat,
    number: u64,
)
    ensures
        persisted_ids(ids, persisted).contains(number) <==> number < persisted && ids.contains(
            SymbolId(number),
        ),
        persisted_ids(ids, persisted).no_duplicates(),
    decreases ids.len(),
{
    if ids.len() > 0 {
        let rest = ids.drop_last();
        law_persisted_identifiers_are_loaded_once(rest, persisted, number);
        let before = persisted_ids(rest, persisted);
        let after = persisted_ids(ids, persisted);
        let last = ids.last();
        assert(ids[ids.len() - 1] == last);
        if rest.contains(SymbolId(number)) {
            assert(ids[rest.index_of(SymbolId(number))] == SymbolId(number));
        }
        if ids.contains(SymbolId(number)) {
            let k = ids.index_of(SymbolId(number));
            if k < rest.len() {
                assert(rest[k] == SymbolId(number));
            }
        }
        if before.contains(number) {
            assert(after[before.index_of(number)] == number);
        }
        if after.len() > before.len() {
            assert(after[before.len() as int] == last.0);
            if after.contains(number) {
                let k = after.index_of(number);
                if k < before.len() {
                    assert(before[k] == number);
                }
            }
            assert forall|i: int, j: int| 0 <= i < after.len() && 0 <= j < after.len() && i
                != j implies after[i] != after[j] by {
                if i < before.len() && j < before.len() {
                    assert(before[i] != before[j]);
                } else if i < before.len() {
                    assert(before.contains(before[i]));
                } else {
                    assert(before.contains(before[j]));
                }
            }
        }
        if last.0 == number {
            assert(last == SymbolId(number));
        }
    }
}

/// A query binds at most 900 values, and the queries of a request leave nothing out.
pub proof fn law_queries_are_bounded(length: nat, start: nat)
    requires
        start <= length,
    ensures
        query_end(length, start) - start <= 900,
        query_end(length, start) <= length,
        query_end(length, start) == length || query_end(length, start) == start + 900,
{
}

/// A query has one placeholder for each bound value.
pub proof fn law_placeholders_are_counted(count: nat)
    ensures
        placeholder_text(count) == joined(
            Seq::new(count, |i: int| seq!['?']),
            seq![',', ' '],
        ),
    decreases count,
{
    let parts = Seq::new(count, |i: int| seq!['?']);
    if count > 1 {
        law_placeholders_are_counted((count - 1) as nat);
        assert(parts.drop_last() =~= Seq::new((count - 1) as nat, |i: int| seq!['?']));
        assert(placeholder_text(count) =~= joined(parts, seq![',', ' ']));
    } else {
        assert(placeholder_text(count) =~= joined(parts, seq![',', ' ']));
    }
}

/// Attributes are accepted exactly if all of their symbols are below the bound.
pub proof fn law_unknown_symbols_are_found(all: Seq<(u64, Seq<u64>)>, bound: nat)
    ensures
        unknown_symbol(all, bound) is None <==> forall|i: int|
            0 <= i < all.len() ==> (#[trigger] all[i]).0 < bound && (forall|j: int|
                0 <= j < all[i].1.len() ==> (#[trigger] all[i].1[j]) < bound),
        unknown_symbol(all, bound) matches Some((id, _)) ==> id >= bound,
    decreases all.len(),
{
    if all.len() > 0 {
        let rest = all.drop_first();
        law_unknown_symbols_are_found(rest, bound);
        lemma_first_beyond(all[0].1, bound);
        assert forall|i: int| 0 <= i < rest.len() implies #[trigger] rest[i] == all[i + 1] by {}
        if unknown_symbol(all, bound) is None {
            assert forall|i: int| 0 <= i < all.len() implies (#[trigger] all[i]).0 < bound && (
            forall|j: int| 0 <= j < all[i].1.len() ==> (#[trigger] all[i].1[j]) < bound) by {
                if i > 0 {
                    assert(rest[i - 1] == all[i]);
                }
            }
        }
    }
}

proof fn lemma_first_beyond(values: Seq<u64>, bound: nat)
    ensures
        first_beyond(values, bound) is None <==> forall|j: int|
            0 <= j < values.len() ==> (#[trigger] values[j]) < bound,
        first_beyond(values, bound) matches Some(id) ==> id >= bound,
    decreases values.len(),
{
    if values.len() > 0 {
        let rest = values.drop_first();
        lemma_first_beyond(rest, bound);
        assert forall|i: int| 0 <= i < rest.len() implies #[trigger] rest[i] == values[i + 1] by {}
        if first_beyond(values, bound) is None {
            assert forall|j: int| 0 <= j < values.len() implies (#[trigger] values[j]) < bound by {
                if j > 0 {
                    assert(rest[j - 1] == values[j]);
                }
            }
        }
    }
}

/// Episodes are accepted exactly if each of them is.
pub proof fn law_every_episode_is_checked(atoms: Seq<EpisodeAtom>, bound: nat)
    ensures
        unknown_in_episodes(atoms, bound) is None <==> forall|i: int|
            0 <= i < atoms.len() ==> unknown_symbol((#[trigger] atoms[i]).groups(), bound) is None,
    decreases atoms.len(),
{
    if atoms.len() > 0 {
        let rest = atoms.drop_first();
        law_every_episode_is_checked(rest, bound);
        assert forall|i: int| 0 <= i < rest.len() implies #[trigger] rest[i] == atoms[i + 1] by {}
        if unknown_in_episodes(atoms, bound) is None {
            assert forall|i: int| 0 <= i < atoms.len() implies unknown_symbol(
                (#[trigger] atoms[i]).groups(),
                bound,
            ) is None by {
                if i > 0 {
                    assert(rest[i - 1] == atoms[i]);
                }
            }
        } else if forall|i: int|
            0 <= i < atoms.len() ==> unknown_symbol((#[trigger] atoms[i]).groups(), bound)
                is None {
            assert(unknown_symbol(atoms[0].groups(), bound) is None);
            assert forall|i: int| 0 <= i < rest.len() implies unknown_symbol(
                (#[trigger] rest[i]).groups(),
                bound,
            ) is None by {
                assert(unknown_symbol(atoms[i + 1].groups(), bound) is None);
            }
        }
    }
}

/// A persisted identifier has the text of its row, a staged one the text at its
/// place behind the persisted ones, and any larger one has none; a persisted one
/// without a row is refused.
pub proof fn law_identifiers_have_their_texts(
    persisted: nat,
    staged: Seq<Seq<char>>,
    found: Map<u64, Seq<char>>,
    id: u64,
)
    ensures
        id < persisted && found.contains_key(id) ==> value_of(persisted, staged, found, id) == Ok::<
            Option<Seq<char>>,
            StoreError,
        >(Some(found[id])),
        id < persisted && !found.contains_key(id) ==> value_of(persisted, staged, found, id) is Err,
        forall|place: int|
            0 <= place < staged.len() && id == persisted + place ==> value_of(
                persisted,
                staged,
                found,
                id,
            ) == Ok::<Option<Seq<char>>, StoreError>(Some(#[trigger] staged[place])),
        id >= persisted + staged.len() ==> value_of(persisted, staged, found, id) == Ok::<
            Option<Seq<char>>,
            StoreError,
        >(None),
{
}

/// The texts of identifiers are given one by one, and are refused exactly if one
/// of them is.
pub proof fn law_texts_are_given_one_by_one(
    persisted: nat,
    staged: Seq<Seq<char>>,
    found: Map<u64, Seq<char>>,
    ids: Seq<SymbolId>,
)
    ensures
        values_of(persisted, staged, found, ids) is Ok <==> all_valued(
            persisted,
            staged,
            found,
            ids,
        ),
        values_of(persisted, staged, found, ids) matches Ok(values) ==> values.len() == ids.len()
            && forall|i: int|
            0 <= i < ids.len() ==> value_of(persisted, staged, found, (#[trigger] ids[i]).0)
                == Ok::<Option<Seq<char>>, StoreError>(values[i]),
    decreases ids.len(),
{
    if ids.len() > 0 {
        let rest = ids.drop_last();
        law_texts_are_given_one_by_one(persisted, staged, found, rest);
        assert(ids[ids.len() - 1] == ids.last());
        assert forall|i: int| 0 <= i < rest.len() implies #[trigger] rest[i] == ids[i] by {}
        if all_valued(persisted, staged, found, ids) {
            assert forall|i: int| 0 <= i < rest.len() implies value_of(
                persisted,
                staged,
                found,
                (#[trigger] rest[i]).0,
            ) is Ok by {
                assert(value_of(persisted, staged, found, ids[i].0) is Ok);
            }
            assert(value_of(persisted, staged, found, ids[ids.len() - 1].0) is Ok);
        }
        if values_of(persisted, staged, found, ids) is Ok {
            let before = values_of(persisted, staged, found, rest)->Ok_0;
            let values = values_of(persisted, staged, found, ids)->Ok_0;
            assert forall|i: int| 0 <= i < ids.len() implies value_of(
                persisted,
                staged,
                found,
                (#[trigger] ids[i]).0,
            ) == Ok::<Option<Seq<char>>, StoreError>(values[i]) by {
                if i < rest.len() {
                    assert(value_of(persisted, staged, found, rest[i].0) == Ok::<
                        Option<Seq<char>>,
                        StoreError,
                    >(before[i]));
                }
            }
        }
    }
}

/// Every identifier has a text or none.
pub open spec fn all_valued(
    persisted: nat,
    staged: Seq<Seq<char>>,
    found: Map<u64, Seq<char>>,
    ids: Seq<SymbolId>,
) -> bool {
    forall|i: int|
        0 <= i < ids.len() ==> value_of(persisted, staged, found, (#[trigger] ids[i]).0) is Ok
}

/// A staged text has the identifier of its place behind the persisted ones, and
/// any other the one that the catalog answered.
pub proof fn law_texts_have_their_identifiers(
    persisted: nat,
    staged: Seq<Seq<char>>,
    place: int,
    text: Seq<char>,
    answer: u64,
)
    requires
        staged.no_duplicates(),
    ensures
        0 <= place < staged.len() ==> assigned(persisted, staged, staged[place], Some(answer))
            == persisted + place,
        !staged.contains(text) ==> assigned(persisted, staged, text, Some(answer)) == answer,
{
    if 0 <= place < staged.len() {
        assert(staged.contains(staged[place]));
        assert(staged[staged.index_of(staged[place])] == staged[place]);
    }
}

} // verus!
