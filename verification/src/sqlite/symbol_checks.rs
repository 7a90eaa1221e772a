//! Checks of episodes and tails against the symbol catalog.

use vstd::prelude::*;
use vstd::utf8::{encode_utf8, encode_utf8_decode_utf8, encode_utf8_valid_utf8};

use crate::attribute::{groups, numbers, Attribute, EpisodeAtom, EpisodeDraft};
use crate::bytes::{be_bytes, be_value};
use crate::memory::Memory;
use crate::sqlite::error::{invalid_metadata, StoreError, StoreIntegrityError};
use crate::sqlite::normalize::{normalized, SymbolValueError};
use crate::sqlite::row::{bad_encoding, Value};
use crate::sqlite::symbols::{
    assigned, bad_metadata, symbol_in, through, NextSymbolId, SymbolRow, SymbolState,
};
use crate::sqlite::wire::{decode_u64, law_u64_encoding};
use crate::text_table::distinct;

verus! {

const TAIL_CHANGED: &'static str = "persisted symbol tail changed outside this store session";

const KEY_ABSENT: &'static str = "attribute key identifier is absent from the symbol catalog";

const VALUE_ABSENT: &'static str = "attribute value identifier is absent from the symbol catalog";

/// The first number at or above the bound.
pub open spec fn first_beyond(values: Seq<u64>, bound: nat) -> Option<u64>
    decreases values.len(),
{
    if values.len() == 0 {
        None
    } else if values[0] >= bound {
        Some(values[0])
    } else {
        first_beyond(values.drop_first(), bound)
    }
}

/// The first symbol of the attributes at or above the bound, keys before
/// their values, and whether it is a key.
pub open spec fn unknown_symbol(all: Seq<(u64, Seq<u64>)>, bound: nat) -> Option<(u64, bool)>
    decreases all.len(),
{
    if all.len() == 0 {
        None
    } else if all[0].0 >= bound {
        Some((all[0].0, true))
    } else {
        match first_beyond(all[0].1, bound) {
            Some(value) => Some((value, false)),
            None => unknown_symbol(all.drop_first(), bound),
        }
    }
}

/// The first symbol of the episodes at or above the bound.
pub open spec fn unknown_in_episodes(atoms: Seq<EpisodeAtom>, bound: nat) -> Option<u64>
    decreases atoms.len(),
{
    if atoms.len() == 0 {
        None
    } else {
        match unknown_symbol(atoms[0].groups(), bound) {
            Some((id, _)) => Some(id),
            None => unknown_in_episodes(atoms.drop_first(), bound),
        }
    }
}

fn first_unknown_symbol(attributes: &[Attribute], limit: NextSymbolId) -> (unknown: Option<
    (u64, bool),
>)
    ensures
        unknown == unknown_symbol(groups(attributes@), limit.allocated()),
{
    let ghost all = groups(attributes@);
    let ghost bound = limit.allocated();
    let mut index: usize = 0;
    assert(all.skip(0) =~= all);
    while index < attributes.len()
        invariant
            index <= attributes@.len(),
            all == groups(attributes@),
            bound == limit.allocated(),
            unknown_symbol(all, bound) == unknown_symbol(all.skip(index as int), bound),
        decreases attributes.len() - index,
    {
        let attribute = &attributes[index];
        let key: u64 = attribute.key().get();
        let ghost rest = all.skip(index as int);
        proof {
            assert(rest[0] == attribute@);
            assert(rest.drop_first() =~= all.skip(index + 1));
        }
        if !limit.contains(key) {
            return Some((key, true));
        }
        let values = attribute.values();
        let ghost listed = numbers(values@);
        let mut place: usize = 0;
        assert(listed.skip(0) =~= listed);
        while place < values.len()
            invariant
                place <= values@.len(),
                listed == numbers(values@),
                bound == limit.allocated(),
                rest.len() > 0,
                rest[0].0 < bound,
                rest[0].1 == listed,
                all == groups(attributes@),
                unknown_symbol(all, bound) == unknown_symbol(rest, bound),
                first_beyond(listed, bound) == first_beyond(listed.skip(place as int), bound),
            decreases values.len() - place,
        {
            let value: u64 = values[place].get();
            proof {
                let tail = listed.skip(place as int);
                assert(tail[0] == value);
                assert(tail.drop_first() =~= listed.skip(place + 1));
            }
            if !limit.contains(value) {
                return Some((value, false));
            }
            place += 1;
        }
        assert(listed.skip(place as int) =~= Seq::empty());
        index += 1;
    }
    assert(all.skip(index as int) =~= Seq::empty());
    None
}

/// The error of a persisted episode whose symbols are not all persisted.
pub open spec fn persisted_symbol_error(sequence: u64, unknown: (u64, bool)) -> StoreError {
    StoreError::InvalidStore(
        StoreIntegrityError::InvalidEpisode {
            sequence,
            detail: if unknown.1 {
                "attribute key identifier is absent from the symbol catalog"
            } else {
                "attribute value identifier is absent from the symbol catalog"
            },
        },
    )
}

/// Requires every symbol of a persisted episode to be persisted.
pub fn validate_persisted_episode_symbols(
    sequence: u64,
    draft: &EpisodeDraft,
    symbols: &SymbolState,
) -> (result: Result<(), StoreError>)
    ensures
        match unknown_symbol(draft.groups(), symbols.persisted()) {
            Some(unknown) => result == Err::<(), StoreError>(
                persisted_symbol_error(sequence, unknown),
            ),
            None => result is Ok,
        },
{
    match first_unknown_symbol(draft.attributes(), symbols.persisted_limit()) {
        Some((_, is_key)) => Err(
            StoreError::InvalidStore(
                StoreIntegrityError::InvalidEpisode {
                    sequence,
                    detail: if is_key {
                        KEY_ABSENT
                    } else {
                        VALUE_ABSENT
                    },
                },
            ),
        ),
        None => Ok(()),
    }
}

/// The episodes behind the first `start` ones.
pub open spec fn appended_since(atoms: Seq<EpisodeAtom>, start: nat) -> Seq<EpisodeAtom> {
    if start <= atoms.len() {
        atoms.skip(start as int)
    } else {
        Seq::empty()
    }
}

/// Requires every symbol of the new episodes to be persisted or staged.
pub fn validate_new_episode_symbols(
    memory: &Memory<EpisodeAtom>,
    start: usize,
    symbols: &SymbolState,
) -> (result: Result<(), StoreError>)
    ensures
        match unknown_in_episodes(
            appended_since(memory.atoms(), start as nat),
            symbols.allocated(),
        ) {
            Some(id) => result == Err::<(), StoreError>(StoreError::UnknownSymbolId { id }),
            None => result is Ok,
        },
{
    let atoms = memory.episodes();
    let ghost fresh = appended_since(memory.atoms(), start as nat);
    let ghost bound = symbols.allocated();
    let limit = symbols.current_limit();
    let mut index: usize = start;
    assert(fresh.skip(0) =~= fresh);
    while index < atoms.len()
        invariant
            start <= index,
            index <= atoms@.len() || index == start,
            atoms@ == memory.atoms(),
            fresh == appended_since(memory.atoms(), start as nat),
            bound == symbols.allocated(),
            limit.allocated() == bound,
            start <= atoms@.len() ==> unknown_in_episodes(fresh, bound) == unknown_in_episodes(
                fresh.skip(index - start),
                bound,
            ),
        decreases atoms.len() - index,
    {
        let atom = &atoms[index];
        proof {
            let rest = fresh.skip(index - start);
            assert(rest[0] == atoms@[index as int]);
            assert(rest.drop_first() =~= fresh.skip(index + 1 - start));
        }
        match first_unknown_symbol(atom.attributes(), limit) {
            Some((id, _)) => {
                return Err(StoreError::UnknownSymbolId { id });
            },
            None => {},
        }
        index += 1;
    }
    proof {
        if start <= atoms@.len() {
            assert(fresh.skip(index - start) =~= Seq::empty());
        }
    }
    Ok(())
}

/// The identifier that the last row holds, if there is one.
pub open spec fn tail_in(
    tail: Option<Seq<u8>>,
    table: &'static str,
    column: &'static str,
) -> Result<Option<u64>, StoreError> {
    match tail {
        None => Ok(None),
        Some(bytes) => if bytes.len() == 8 {
            Ok(Some(be_value(bytes) as u64))
        } else {
            Err(bad_encoding(table, column))
        },
    }
}

/// The bytes of an optional blob.
pub open spec fn optional_bytes(blob: Option<&[u8]>) -> Option<Seq<u8>> {
    match blob {
        Some(bytes) => Some(bytes@),
        None => None,
    }
}

/// Reads the sequence or identifier of a table's last row.
pub fn read_tail(tail: Option<&[u8]>, table: &'static str, column: &'static str) -> (result: Result<
    Option<u64>,
    StoreError,
>)
    ensures
        result == tail_in(optional_bytes(tail), table, column),
{
    match tail {
        None => Ok(None),
        Some(bytes) => match decode_u64(bytes) {
            Some(value) => Ok(Some(value)),
            None => Err(
                StoreError::InvalidStore(StoreIntegrityError::InvalidEncoding { table, column }),
            ),
        },
    }
}

/// Requires the catalog to end where this session left it.
pub fn verify_symbol_tail(tail: Option<&[u8]>, state: &SymbolState) -> (result: Result<
    (),
    StoreError,
>)
    ensures
        result == match tail_in(optional_bytes(tail), "symbols", "id") {
            Err(error) => Err::<(), StoreError>(error),
            Ok(actual) => if through(actual) == state.persisted() {
                Ok(())
            } else {
                Err(bad_metadata("persisted symbol tail changed outside this store session"))
            },
        },
{
    match read_tail(tail, "symbols", "id") {
        Err(error) => Err(error),
        Ok(actual) => if state.has_tail(actual) {
            Ok(())
        } else {
            invalid_metadata(TAIL_CHANGED)
        },
    }
}

/// Question marks for the bindings of a query, parted by commas.
pub open spec fn placeholder_text(count: nat) -> Seq<char>
    decreases count,
{
    if count == 0 {
        Seq::empty()
    } else if count == 1 {
        seq!['?']
    } else {
        placeholder_text((count - 1) as nat) + seq![',', ' ', '?']
    }
}

/// Returns the question marks for the bindings of a query.
pub fn placeholders(count: usize) -> (text: String)
    ensures
        text@ == placeholder_text(count as nat),
{
    let mut text = String::new();
    if count != 0 {
        text.push('?');
        let mut index: usize = 1;
        assert(text@ =~= seq!['?']);
        while index < count
            invariant
                1 <= index <= count,
                text@ == placeholder_text(index as nat),
            decreases count - index,
        {
            let ghost before = text@;
            text.push(',');
            text.push(' ');
            text.push('?');
            assert(text@ =~= before + seq![',', ' ', '?']);
            index += 1;
        }
    }
    text
}

/// A staged text keeps its identifier when more texts are staged, and when
/// the staged texts are persisted in identifier order.
pub proof fn law_interning_keeps_identifiers(
    persisted: nat,
    staged: Seq<Seq<char>>,
    fresh: Seq<Seq<char>>,
    text: Seq<char>,
    answer: Option<u64>,
    later_answer: Option<u64>,
)
    requires
        distinct(staged + fresh),
        staged.contains(text),
    ensures
        assigned(persisted, staged + fresh, text, later_answer) == assigned(
            persisted,
            staged,
            text,
            answer,
        ),
        assigned(persisted, staged, text, answer) == persisted + staged.index_of(text),
{
    let place = staged.index_of(text);
    let all = staged + fresh;
    assert(all[place] == text);
    let other = all.index_of(text);
    assert(all[other] == text);
    if other < place {
        assert(all[other] != all[place]);
    } else if place < other {
        assert(all[place] != all[other]);
    }
}

/// Different staged texts have different identifiers, all of them above the
/// persisted ones.
pub proof fn law_staged_identifiers_are_distinct(
    persisted: nat,
    staged: Seq<Seq<char>>,
    first: Seq<char>,
    second: Seq<char>,
    answer: Option<u64>,
)
    requires
        staged.contains(first),
        staged.contains(second),
        first != second,
    ensures
        assigned(persisted, staged, first, answer) != assigned(persisted, staged, second, answer),
        assigned(persisted, staged, first, answer) >= persisted,
{
}

/// The row holds the symbol in its persisted form.
pub open spec fn encodes_symbol(row: SymbolRow, id: u64, text: Seq<char>) -> bool {
    &&& row.id matches Value::Blob(bytes) && bytes@ == be_bytes(id as nat, 8)
    &&& row.value matches Value::Text(bytes) && bytes@ == encode_utf8(text)
}

/// Reading a row gives back the canonical symbol that was written in it.
pub proof fn law_symbol_row_round_trip(row: SymbolRow, id: u64, text: Seq<char>)
    requires
        encodes_symbol(row, id, text),
        normalized(text) == Ok::<Seq<char>, SymbolValueError>(text),
    ensures
        symbol_in(row) == Ok::<(u64, Seq<char>), StoreError>((id, text)),
{
    law_u64_encoding(id, id, be_bytes(id as nat, 8));
    encode_utf8_valid_utf8(text);
    encode_utf8_decode_utf8(text);
}

} // verus!
