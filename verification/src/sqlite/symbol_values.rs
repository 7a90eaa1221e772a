//! Resolving symbol identifiers to texts.

use std::collections::{BTreeMap, BTreeSet};

use vstd::prelude::*;

use crate::model::SymbolId;
use crate::sqlite::error::{invalid_metadata, StoreError, StoreIntegrityError};
use crate::sqlite::normalize::{
    batch_of, law_batch_positions_hold_canonical_symbols, normalized, repeats_settle,
};
use crate::sqlite::symbols::{
    assigned, bad_metadata, bad_symbol, fresh_texts, identifier_space, read_symbol_row, symbol_in,
    SymbolRow, SymbolState,
};

verus! {

const REPEATED_ID: &'static str = "symbol identifier appears more than once";

const ROW_ABSENT: &'static str = "symbol row is absent";

/// The distinct identifiers below the bound, in first-occurrence order.
pub open spec fn persisted_ids(ids: Seq<SymbolId>, persisted: nat) -> Seq<u64>
    decreases ids.len(),
{
    if ids.len() == 0 {
        Seq::empty()
    } else {
        let before = persisted_ids(ids.drop_last(), persisted);
        if ids.last().0 < persisted && !before.contains(ids.last().0) {
            before.push(ids.last().0)
        } else {
            before
        }
    }
}

/// Symbol texts by identifier, by their characters.
pub open spec fn known_texts(found: Map<u64, String>) -> Map<u64, Seq<char>> {
    found.map_values(|text: String| text@)
}

/// The texts with those of the rows added.
pub open spec fn collected(found: Map<u64, Seq<char>>, rows: Seq<SymbolRow>) -> Result<
    Map<u64, Seq<char>>,
    StoreError,
>
    decreases rows.len(),
{
    if rows.len() == 0 {
        Ok(found)
    } else {
        match collected(found, rows.drop_last()) {
            Err(error) => Err(error),
            Ok(before) => match symbol_in(rows.last()) {
                Err(error) => Err(error),
                Ok((id, text)) => if before.contains_key(id) {
                    Err(bad_metadata("symbol identifier appears more than once"))
                } else {
                    Ok(before.insert(id, text))
                },
            },
        }
    }
}

/// The text of an identifier: staged, not allocated, or as the catalog gave it.
pub open spec fn value_of(
    persisted: nat,
    staged: Seq<Seq<char>>,
    found: Map<u64, Seq<char>>,
    id: u64,
) -> Result<Option<Seq<char>>, StoreError> {
    if persisted <= id < persisted + staged.len() {
        Ok(Some(staged[id - persisted]))
    } else if id >= persisted {
        Ok(None)
    } else if found.contains_key(id) {
        Ok(Some(found[id]))
    } else {
        Err(bad_symbol(id, "symbol row is absent"))
    }
}

/// The texts of the identifiers in input order, or the first error.
pub open spec fn values_of(
    persisted: nat,
    staged: Seq<Seq<char>>,
    found: Map<u64, Seq<char>>,
    ids: Seq<SymbolId>,
) -> Result<Seq<Option<Seq<char>>>, StoreError>
    decreases ids.len(),
{
    if ids.len() == 0 {
        Ok(Seq::empty())
    } else {
        match values_of(persisted, staged, found, ids.drop_last()) {
            Err(error) => Err(error),
            Ok(values) => match value_of(persisted, staged, found, ids.last().0) {
                Err(error) => Err(error),
                Ok(value) => Ok(values.push(value)),
            },
        }
    }
}

/// Optional texts by their characters.
pub open spec fn optional_contents(values: Seq<Option<String>>) -> Seq<Option<Seq<char>>> {
    values.map_values(
        |value: Option<String>|
            match value {
                Some(text) => Some(text@),
                None => None,
            },
    )
}

proof fn lemma_values_stop(
    persisted: nat,
    staged: Seq<Seq<char>>,
    found: Map<u64, Seq<char>>,
    ids: Seq<SymbolId>,
    end: int,
)
    requires
        0 <= end <= ids.len(),
        values_of(persisted, staged, found, ids.take(end)) is Err,
    ensures
        values_of(persisted, staged, found, ids) == values_of(
            persisted,
            staged,
            found,
            ids.take(end),
        ),
    decreases ids.len(),
{
    if end < ids.len() {
        assert(ids.drop_last().take(end) =~= ids.take(end));
        lemma_values_stop(persisted, staged, found, ids.drop_last(), end);
    } else {
        assert(ids.take(end) =~= ids);
    }
}

proof fn lemma_collection_stops(found: Map<u64, Seq<char>>, rows: Seq<SymbolRow>, end: int)
    requires
        0 <= end <= rows.len(),
        collected(found, rows.take(end)) is Err,
    ensures
        collected(found, rows) == collected(found, rows.take(end)),
    decreases rows.len(),
{
    if end < rows.len() {
        assert(rows.drop_last().take(end) =~= rows.take(end));
        lemma_collection_stops(found, rows.drop_last(), end);
    } else {
        assert(rows.take(end) =~= rows);
    }
}

/// Adds the rows of one query to the texts that are known.
pub fn read_symbol_value_rows(found: BTreeMap<u64, String>, rows: &[SymbolRow]) -> (result: Result<
    BTreeMap<u64, String>,
    StoreError,
>)
    ensures
        match (collected(known_texts(found@), rows@), result) {
            (Ok(expected), Ok(all)) => known_texts(all@) == expected,
            (Err(expected), Err(error)) => error == expected,
            _ => false,
        },
{
    let ghost start = known_texts(found@);
    let mut all: BTreeMap<u64, String> = found;
    let mut index: usize = 0;
    assert(rows@.take(0) =~= Seq::empty());
    while index < rows.len()
        invariant
            index <= rows@.len(),
            start == known_texts(found@),
            collected(start, rows@.take(index as int)) == Ok::<Map<u64, Seq<char>>, StoreError>(
                known_texts(all@),
            ),
        decreases rows.len() - index,
    {
        proof {
            let part = rows@.take(index + 1);
            assert(part.drop_last() =~= rows@.take(index as int));
            assert(part.last() == rows@[index as int]);
            if collected(start, part) is Err {
                lemma_collection_stops(start, rows@, index + 1);
            }
        }
        match read_symbol_row(&rows[index]) {
            Err(error) => {
                return Err(error);
            },
            Ok((id, text)) => {
                let ghost before = all@;
                let ghost content = text@;
                if all.contains_key(&id) {
                    assert(known_texts(before).contains_key(id));
                    return invalid_metadata(REPEATED_ID);
                }
                all.insert(id, text);
                proof {
                    assert(!known_texts(before).contains_key(id));
                    assert(known_texts(all@) =~= known_texts(before).insert(id, content));
                }
            },
        }
        index += 1;
    }
    assert(rows@.take(rows@.len() as int) =~= rows@);
    Ok(all)
}

impl SymbolState {
    /// Lists the persisted identifiers whose texts have to be loaded.
    pub fn requested_ids(&self, ids: &[SymbolId]) -> (requested: Vec<u64>)
        ensures
            requested@ == persisted_ids(ids@, self.persisted()),
    {
        let mut seen: BTreeSet<u64> = BTreeSet::new();
        let mut requested: Vec<u64> = Vec::new();
        let mut index: usize = 0;
        assert(ids@.take(0) =~= Seq::empty());
        while index < ids.len()
            invariant
                index <= ids@.len(),
                requested@ == persisted_ids(ids@.take(index as int), self.persisted()),
                forall|id: u64| #[trigger] seen@.contains(id) <==> requested@.contains(id),
            decreases ids.len() - index,
        {
            let id: u64 = ids[index].get();
            let ghost before = requested@;
            proof {
                let part = ids@.take(index + 1);
                assert(part.drop_last() =~= ids@.take(index as int));
                assert(part.last() == ids@[index as int]);
            }
            if self.contains_persisted(id) && !seen.contains(&id) {
                seen.insert(id);
                requested.push(id);
                proof {
                    assert forall|other: u64| #[trigger]
                        seen@.contains(other) <==> requested@.contains(other) by {
                        if before.contains(other) {
                            let i = before.index_of(other);
                            assert(requested@[i] == other);
                        }
                        assert(requested@[before.len() as int] == id);
                        if requested@.contains(other) && other != id {
                            let i = requested@.index_of(other);
                            assert(before[i] == other);
                        }
                    }
                }
            }
            index += 1;
        }
        assert(ids@.take(ids@.len() as int) =~= ids@);
        requested
    }

    /// Resolves identifiers in input order, from the staged texts and those
    /// that were loaded. Unknown identifiers give `None`.
    pub fn symbol_values(&self, ids: &[SymbolId], found: &BTreeMap<u64, String>) -> (result: Result<
        Vec<Option<String>>,
        StoreError,
    >)
        ensures
            match (
                values_of(self.persisted(), self.staged(), known_texts(found@), ids@),
                result,
            ) {
                (Ok(expected), Ok(values)) => optional_contents(values@) == expected,
                (Err(expected), Err(error)) => error == expected,
                _ => false,
            },
    {
        let mut values: Vec<Option<String>> = Vec::new();
        let ghost persisted = self.persisted();
        let ghost staged = self.staged();
        let ghost loaded = known_texts(found@);
        let mut index: usize = 0;
        assert(ids@.take(0) =~= Seq::empty());
        assert(optional_contents(values@) =~= Seq::empty());
        while index < ids.len()
            invariant
                index <= ids@.len(),
                persisted == self.persisted(),
                staged == self.staged(),
                loaded == known_texts(found@),
                values_of(persisted, staged, loaded, ids@.take(index as int)) == Ok::<
                    Seq<Option<Seq<char>>>,
                    StoreError,
                >(optional_contents(values@)),
            decreases ids.len() - index,
        {
            let id: u64 = ids[index].get();
            let ghost before = values@;
            proof {
                let part = ids@.take(index + 1);
                assert(part.drop_last() =~= ids@.take(index as int));
                assert(part.last() == ids@[index as int]);
            }
            let value: Option<String> = if self.contains_persisted(id) {
                match found.get(&id) {
                    Some(text) => Some(text.clone()),
                    None => {
                        proof {
                            lemma_values_stop(persisted, staged, loaded, ids@, index + 1);
                        }
                        return Err(
                            StoreError::InvalidStore(
                                StoreIntegrityError::InvalidSymbol { id, detail: ROW_ABSENT },
                            ),
                        );
                    },
                }
            } else if self.contains_current(id) {
                Some(self.staged_text(id).to_owned())
            } else {
                None
            };
            values.push(value);
            proof {
                assert(optional_contents(values@) =~= optional_contents(before).push(
                    match value {
                        Some(text) => Some(text@),
                        None => None,
                    },
                ));
            }
            index += 1;
        }
        assert(ids@.take(ids@.len() as int) =~= ids@);
        Ok(values)
    }
}

/// A symbol is read back by the identifier that interning gave to its text:
/// from the staged texts, or from the row that answered for it.
pub proof fn law_interned_symbols_are_read_back(
    persisted: nat,
    staged: Seq<Seq<char>>,
    found: Map<u64, Seq<char>>,
    text: Seq<char>,
    answer: Option<u64>,
)
    requires
        persisted + staged.len() <= identifier_space(),
        staged.contains(text) || {
            &&& answer is Some
            &&& answer->0 < persisted
            &&& found.contains_key(answer->0)
            &&& found[answer->0] == text
        },
    ensures
        value_of(persisted, staged, found, assigned(persisted, staged, text, answer) as u64) == Ok::<
            Option<Seq<char>>,
            StoreError,
        >(Some(text)),
{
    if staged.contains(text) {
        let place = staged.index_of(text);
        assert(staged[place] == text);
        assert(persisted + place < identifier_space());
    }
}

/// Every value stands at the place of its identifier, an identifier that was
/// never assigned has none, and a request fails exactly if the text of one of
/// its identifiers does.
pub proof fn law_values_stand_at_their_places(
    persisted: nat,
    staged: Seq<Seq<char>>,
    found: Map<u64, Seq<char>>,
    ids: Seq<SymbolId>,
)
    ensures
        values_of(persisted, staged, found, ids) is Ok <==> forall|i: int|
            0 <= i < ids.len() ==> value_of(persisted, staged, found, (#[trigger] ids[i]).0) is Ok,
        values_of(persisted, staged, found, ids) matches Ok(values) ==> {
            &&& values.len() == ids.len()
            &&& forall|i: int|
                0 <= i < ids.len() ==> value_of(persisted, staged, found, (#[trigger] ids[i]).0)
                    == Ok::<Option<Seq<char>>, StoreError>(values[i])
            &&& forall|i: int|
                0 <= i < ids.len() ==> (values[i] is None <==> (#[trigger] ids[i]).0 >= persisted
                    + staged.len())
        },
    decreases ids.len(),
{
    if ids.len() > 0 {
        let rest = ids.drop_last();
        law_values_stand_at_their_places(persisted, staged, found, rest);
        assert forall|i: int| 0 <= i < rest.len() implies #[trigger] rest[i] == ids[i] by {}
        assert(ids.last() == ids[ids.len() - 1]);
        if values_of(persisted, staged, found, rest) is Err {
            let fault = choose|i: int|
                0 <= i < rest.len() && value_of(
                    persisted,
                    staged,
                    found,
                    (#[trigger] rest[i]).0,
                ) is Err;
            assert(rest[fault] == ids[fault]);
        }
        if values_of(persisted, staged, found, ids) is Ok {
            let before = values_of(persisted, staged, found, rest)->Ok_0;
            let values = values_of(persisted, staged, found, ids)->Ok_0;
            assert forall|i: int| 0 <= i < ids.len() implies value_of(
                persisted,
                staged,
                found,
                (#[trigger] ids[i]).0,
            ) == Ok::<Option<Seq<char>>, StoreError>(values[i]) by {
                if i < rest.len() {
                    assert(rest[i] == ids[i]);
                    assert(values[i] == before[i]);
                }
            }
        }
    }
}

/// The texts as the values of a request.
pub open spec fn present(texts: Seq<Seq<char>>) -> Seq<Option<Seq<char>>> {
    texts.map_values(|text: Seq<char>| Some(text))
}

proof fn lemma_request_of_known_texts(
    persisted: nat,
    staged: Seq<Seq<char>>,
    found: Map<u64, Seq<char>>,
    texts: Seq<Seq<char>>,
    ids: Seq<SymbolId>,
)
    requires
        ids.len() == texts.len(),
        forall|i: int|
            0 <= i < ids.len() ==> value_of(persisted, staged, found, (#[trigger] ids[i]).0) == Ok::<
                Option<Seq<char>>,
                StoreError,
            >(Some(texts[i])),
    ensures
        values_of(persisted, staged, found, ids) == Ok::<Seq<Option<Seq<char>>>, StoreError>(
            present(texts),
        ),
{
    law_values_stand_at_their_places(persisted, staged, found, ids);
    let values = values_of(persisted, staged, found, ids)->Ok_0;
    assert forall|i: int| 0 <= i < values.len() implies values[i] == present(texts)[i] by {
        assert(value_of(persisted, staged, found, ids[i].0) == Ok::<
            Option<Seq<char>>,
            StoreError,
        >(values[i]));
    }
    assert(values =~= present(texts));
}

/// A whole request for identifiers that interning gave is answered by their
/// texts, each at the place of its identifier, repeated ones too.
pub proof fn law_interned_requests_are_read_back(
    persisted: nat,
    staged: Seq<Seq<char>>,
    found: Map<u64, Seq<char>>,
    texts: Seq<Seq<char>>,
    answers: Seq<Option<u64>>,
    ids: Seq<SymbolId>,
)
    requires
        persisted + staged.len() <= identifier_space(),
        ids.len() == texts.len(),
        answers.len() == texts.len(),
        forall|i: int|
            0 <= i < ids.len() ==> (#[trigger] ids[i]).0 as nat == assigned(
                persisted,
                staged,
                texts[i],
                answers[i],
            ),
        forall|i: int|
            0 <= i < texts.len() ==> staged.contains(#[trigger] texts[i]) || {
                &&& answers[i] is Some
                &&& answers[i]->0 < persisted
                &&& found.contains_key(answers[i]->0)
                &&& found[answers[i]->0] == texts[i]
            },
    ensures
        values_of(persisted, staged, found, ids) == Ok::<Seq<Option<Seq<char>>>, StoreError>(
            present(texts),
        ),
{
    assert forall|i: int| 0 <= i < ids.len() implies value_of(
        persisted,
        staged,
        found,
        (#[trigger] ids[i]).0,
    ) == Ok::<Option<Seq<char>>, StoreError>(Some(texts[i])) by {
        law_interned_symbols_are_read_back(persisted, staged, found, texts[i], answers[i]);
    }
    lemma_request_of_known_texts(persisted, staged, found, texts, ids);
}

/// What a catalog of symbols answers for texts: for each no identifier, or
/// the one under which it holds the text.
pub open spec fn answers_from(
    symbols: Seq<Seq<char>>,
    texts: Seq<Seq<char>>,
    answers: Seq<Option<u64>>,
) -> bool {
    &&& answers.len() == texts.len()
    &&& forall|k: int|
        0 <= k < texts.len() ==> ((#[trigger] answers[k]) matches Some(id) ==> id < symbols.len()
            && symbols[id as int] == texts[k])
}

/// The texts that a catalog of symbols loads for the identifiers that it holds.
pub open spec fn loaded_from(
    symbols: Seq<Seq<char>>,
    found: Map<u64, Seq<char>>,
    ids: Seq<SymbolId>,
) -> bool {
    forall|i: int|
        0 <= i < ids.len() && (#[trigger] ids[i]).0 < symbols.len() ==> found.contains_key(ids[i].0)
            && found[ids[i].0] == symbols[ids[i].0 as int]
}

/// The staged texts after the values were interned.
pub open spec fn staged_after(
    staged: Seq<Seq<char>>,
    known: Seq<Option<u64>>,
    values: Seq<Seq<char>>,
) -> Seq<Seq<char>> {
    let unique = batch_of(values)->Ok_0.0;
    staged + fresh_texts(unique, staged, known, unique.len())
}

/// Interning gave the identifiers to the values, as the catalog answered.
pub open spec fn interned(
    symbols: Seq<Seq<char>>,
    staged: Seq<Seq<char>>,
    known: Seq<Option<u64>>,
    values: Seq<Seq<char>>,
    ids: Seq<SymbolId>,
) -> bool {
    let (unique, places) = batch_of(values)->Ok_0;
    &&& batch_of(values) is Ok
    &&& answers_from(symbols, unique, known)
    &&& symbols.len() + staged_after(staged, known, values).len() <= identifier_space()
    &&& ids.len() == values.len()
    &&& forall|i: int|
        0 <= i < ids.len() ==> (#[trigger] ids[i]).0 as nat == assigned(
            symbols.len(),
            staged_after(staged, known, values),
            unique[places[i]],
            known[places[i]],
        )
}

/// The canonical texts of the values.
pub open spec fn canonical_texts(values: Seq<Seq<char>>) -> Seq<Seq<char>> {
    values.map_values(|value: Seq<char>| normalized(value)->Ok_0)
}

proof fn lemma_fresh_or_known(
    unique: Seq<Seq<char>>,
    staged: Seq<Seq<char>>,
    known: Seq<Option<u64>>,
    end: nat,
    place: int,
)
    requires
        0 <= place < end,
    ensures
        staged.contains(unique[place]) || known[place] is Some || fresh_texts(
            unique,
            staged,
            known,
            end,
        ).contains(unique[place]),
    decreases end,
{
    let fresh = fresh_texts(unique, staged, known, end);
    if place < end - 1 {
        lemma_fresh_or_known(unique, staged, known, (end - 1) as nat, place);
        let before = fresh_texts(unique, staged, known, (end - 1) as nat);
        if before.contains(unique[place]) {
            let earlier = before.index_of(unique[place]);
            assert(fresh[earlier] == unique[place]);
        }
    } else if !staged.contains(unique[place]) && known[place] is None {
        assert(fresh.last() == unique[place]);
    }
}

/// The identifier of an interned value is staged with its canonical text, or
/// the catalog holds the text under it.
proof fn lemma_interned_value(
    symbols: Seq<Seq<char>>,
    staged: Seq<Seq<char>>,
    known: Seq<Option<u64>>,
    values: Seq<Seq<char>>,
    ids: Seq<SymbolId>,
    place: int,
)
    requires
        interned(symbols, staged, known, values, ids),
        repeats_settle(values),
        0 <= place < ids.len(),
    ensures
        ids[place].0 < symbols.len() + staged_after(staged, known, values).len(),
        (symbols + staged_after(staged, known, values))[ids[place].0 as int] == canonical_texts(
            values,
        )[place],
{
    law_batch_positions_hold_canonical_symbols(values);
    let (unique, places) = batch_of(values)->Ok_0;
    let fresh = fresh_texts(unique, staged, known, unique.len());
    let later = staged_after(staged, known, values);
    let number = places[place];
    let text = unique[number];
    assert(ids[place].0 as nat == assigned(symbols.len(), later, text, known[number]));
    assert(canonical_texts(values)[place] == text);
    lemma_fresh_or_known(unique, staged, known, unique.len(), number);
    if later.contains(text) {
        let k = later.index_of(text);
        assert(later[k] == text);
        assert((symbols + later)[symbols.len() + k] == later[k]);
    } else {
        if staged.contains(text) {
            let k = staged.index_of(text);
            assert(later[k] == text);
        }
        if fresh.contains(text) {
            let k = fresh.index_of(text);
            assert(later[staged.len() + k] == text);
        }
        assert(known[number] is Some);
        assert((symbols + later)[ids[place].0 as int] == symbols[ids[place].0 as int]);
    }
}

/// The identifiers that interning gave to values are read back as the
/// canonical texts of the values, in input order, before the next save.
///
/// A value that repeats the canonical text of an earlier one must be canonical.
pub proof fn law_interned_values_are_read_back(
    symbols: Seq<Seq<char>>,
    staged: Seq<Seq<char>>,
    known: Seq<Option<u64>>,
    values: Seq<Seq<char>>,
    ids: Seq<SymbolId>,
    found: Map<u64, Seq<char>>,
)
    requires
        interned(symbols, staged, known, values, ids),
        repeats_settle(values),
        loaded_from(symbols, found, ids),
    ensures
        values_of(symbols.len(), staged_after(staged, known, values), found, ids) == Ok::<
            Seq<Option<Seq<char>>>,
            StoreError,
        >(present(canonical_texts(values))),
{
    let later = staged_after(staged, known, values);
    let texts = canonical_texts(values);
    assert forall|i: int| 0 <= i < ids.len() implies value_of(
        symbols.len(),
        later,
        found,
        (#[trigger] ids[i]).0,
    ) == Ok::<Option<Seq<char>>, StoreError>(Some(texts[i])) by {
        lemma_interned_value(symbols, staged, known, values, ids, i);
    }
    lemma_request_of_known_texts(symbols.len(), later, found, texts, ids);
}

/// The identifiers that interning gave to values are read back as the
/// canonical texts of the values, in input order, after a save, by which the
/// catalog holds the staged texts behind its own.
///
/// A value that repeats the canonical text of an earlier one must be canonical.
pub proof fn law_saved_values_are_read_back(
    symbols: Seq<Seq<char>>,
    staged: Seq<Seq<char>>,
    known: Seq<Option<u64>>,
    values: Seq<Seq<char>>,
    ids: Seq<SymbolId>,
    found: Map<u64, Seq<char>>,
)
    requires
        interned(symbols, staged, known, values, ids),
        repeats_settle(values),
        loaded_from(symbols + staged_after(staged, known, values), found, ids),
    ensures
        values_of(
            symbols.len() + staged_after(staged, known, values).len(),
            Seq::empty(),
            found,
            ids,
        ) == Ok::<Seq<Option<Seq<char>>>, StoreError>(present(canonical_texts(values))),
{
    let saved = symbols + staged_after(staged, known, values);
    let texts = canonical_texts(values);
    assert forall|i: int| 0 <= i < ids.len() implies value_of(
        saved.len(),
        Seq::empty(),
        found,
        (#[trigger] ids[i]).0,
    ) == Ok::<Option<Seq<char>>, StoreError>(Some(texts[i])) by {
        lemma_interned_value(symbols, staged, known, values, ids, i);
    }
    lemma_request_of_known_texts(saved.len(), Seq::empty(), found, texts, ids);
}

} // verus!
