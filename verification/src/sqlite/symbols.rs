//! The symbol catalog: allocation, staging, interning and validation.

use vstd::prelude::*;
use vstd::utf8::{decode_utf8, valid_utf8};

use crate::model::SymbolId;
use crate::sqlite::error::{invalid_metadata, StoreError, StoreIntegrityError};
use crate::sqlite::normalize::{
    batch_of, normalize_batch, normalize_symbol, normalized, NormalizedBatch,
};
use crate::sqlite::row::{bad_encoding, read_u64, u64_in, Value};
use crate::text::same_text;
use crate::text_table::{contents, distinct, TextTable};

verus! {

/// Values that one symbol query binds.
pub const MAX_SYMBOL_QUERY_BINDINGS: usize = 900;

const SYMBOL_TABLE: &'static str = "symbols";

const ID_COLUMN: &'static str = "id";

const VALUE_COLUMN: &'static str = "value";

const NOT_NORMALIZED: &'static str = "value is not normalized";

const ROW_CHANGED: &'static str = "symbol row changed outside this store session";

const UNREQUESTED: &'static str = "symbol query returned an unrequested value";

const REPEATED_VALUE: &'static str = "symbol value appears more than once";

const BEYOND_MAXIMUM: &'static str = "symbol row follows the maximum unsigned identifier";

/// Number of symbol identifiers.
pub open spec fn identifier_space() -> nat {
    0x1_0000_0000_0000_0000
}

/// The next free symbol identifier.
#[derive(Clone, Copy, Debug, PartialEq, Eq, Structural)]
pub enum NextSymbolId {
    /// This identifier and those above it are free.
    Next(u64),
    /// No identifier is free.
    Exhausted,
}

impl NextSymbolId {
    /// The number of allocated identifiers, which are those below it.
    pub open spec fn allocated(self) -> nat {
        match self {
            NextSymbolId::Next(next) => next as nat,
            NextSymbolId::Exhausted => identifier_space(),
        }
    }

    /// Allocates consecutive identifiers, all of them or none.
    pub fn allocate_range(self, count: usize) -> (range: Option<(u64, NextSymbolId)>)
        ensures
            range is Some <==> count > 0 && self.allocated() + count <= identifier_space(),
            range matches Some((first, next)) ==> first == self.allocated() && next.allocated()
                == self.allocated() + count,
    {
        match self {
            NextSymbolId::Next(first) => {
                if count == 0 {
                    return None;
                }
                let offset: u64 = (count - 1) as u64;
                match first.checked_add(offset) {
                    Some(last) => {
                        let next = match last.checked_add(1) {
                            Some(next) => NextSymbolId::Next(next),
                            None => NextSymbolId::Exhausted,
                        };
                        Some((first, next))
                    },
                    None => None,
                }
            },
            NextSymbolId::Exhausted => None,
        }
    }

    /// Returns the last allocated identifier.
    pub fn tail(self) -> (tail: Option<u64>)
        ensures
            tail is None <==> self.allocated() == 0,
            tail matches Some(tail) ==> tail + 1 == self.allocated(),
    {
        match self {
            NextSymbolId::Next(next) => if next == 0 {
                None
            } else {
                Some(next - 1)
            },
            NextSymbolId::Exhausted => Some(u64::MAX),
        }
    }

    /// Tells whether the identifier is allocated.
    pub fn contains(self, id: u64) -> (contained: bool)
        ensures
            contained == (id < self.allocated()),
    {
        match self {
            NextSymbolId::Next(next) => id < next,
            NextSymbolId::Exhausted => true,
        }
    }

    /// The next free identifier behind the last allocated one.
    pub fn after(tail: Option<u64>) -> (next: NextSymbolId)
        ensures
            next.allocated() == through(tail),
    {
        match tail {
            None => NextSymbolId::Next(0),
            Some(tail) => match tail.checked_add(1) {
                Some(next) => NextSymbolId::Next(next),
                None => NextSymbolId::Exhausted,
            },
        }
    }
}

/// The number of identifiers up to and with the tail.
pub open spec fn through(tail: Option<u64>) -> nat {
    match tail {
        None => 0,
        Some(tail) => (tail + 1) as nat,
    }
}

/// Persisted symbols, and symbols staged for the next save.
#[derive(Debug)]
pub struct SymbolState {
    persisted_tail: Option<u64>,
    next_id: NextSymbolId,
    pending: TextTable,
}

impl SymbolState {
    /// The staged texts take the identifiers behind the persisted ones.
    #[verifier::type_invariant]
    spec fn contiguous(self) -> bool {
        through(self.persisted_tail) + self.pending@.len() == self.next_id.allocated()
    }

    /// The number of persisted symbols.
    pub closed spec fn persisted(&self) -> nat {
        through(self.persisted_tail)
    }

    /// The staged texts in identifier order.
    pub closed spec fn staged(&self) -> Seq<Seq<char>> {
        self.pending@
    }

    /// The number of persisted and staged symbols.
    pub open spec fn allocated(&self) -> nat {
        self.persisted() + self.staged().len()
    }

    /// Creates a state without staged symbols.
    pub fn from_tail(tail: Option<u64>) -> (state: SymbolState)
        ensures
            state.persisted() == through(tail),
            state.staged() == Seq::<Seq<char>>::empty(),
    {
        SymbolState {
            persisted_tail: tail,
            next_id: NextSymbolId::after(tail),
            pending: TextTable::new(),
        }
    }

    /// Tells whether the identifier is persisted.
    pub fn contains_persisted(&self, id: u64) -> (contained: bool)
        ensures
            contained == (id < self.persisted()),
    {
        match self.persisted_tail {
            Some(tail) => id <= tail,
            None => false,
        }
    }

    /// Tells whether the identifier is persisted or staged.
    pub fn contains_current(&self, id: u64) -> (contained: bool)
        ensures
            contained == (id < self.allocated()),
    {
        proof {
            use_type_invariant(self);
        }
        self.next_id.contains(id)
    }

    /// Tells whether no symbol is persisted.
    pub fn is_persisted_empty(&self) -> (empty: bool)
        ensures
            empty == (self.persisted() == 0),
    {
        self.persisted_tail.is_none()
    }

    /// Takes every staged symbol as persisted.
    pub fn mark_saved(&mut self)
        ensures
            final(self).persisted() == old(self).allocated(),
            final(self).staged() == Seq::<Seq<char>>::empty(),
    {
        proof {
            use_type_invariant(&*self);
        }
        let tail = self.next_id.tail();
        *self = SymbolState { persisted_tail: tail, next_id: self.next_id, pending: TextTable::new() };
    }

    /// Returns the number of staged symbols.
    pub fn pending_len(&self) -> (length: usize)
        ensures
            length == self.staged().len(),
    {
        self.pending.len()
    }

    /// Returns the first identifier that is not persisted.
    pub fn persisted_limit(&self) -> (limit: NextSymbolId)
        ensures
            limit.allocated() == self.persisted(),
    {
        NextSymbolId::after(self.persisted_tail)
    }

    /// Returns the first identifier that is neither persisted nor staged.
    pub fn current_limit(&self) -> (limit: NextSymbolId)
        ensures
            limit.allocated() == self.allocated(),
    {
        proof {
            use_type_invariant(self);
        }
        self.next_id
    }

    /// Tells whether the persisted symbols end at the tail.
    pub fn has_tail(&self, tail: Option<u64>) -> (same: bool)
        ensures
            same == (through(tail) == self.persisted()),
    {
        match (tail, self.persisted_tail) {
            (None, None) => true,
            (Some(first), Some(second)) => first == second,
            _ => false,
        }
    }

    /// Returns the text of a staged identifier.
    pub fn staged_text(&self, id: u64) -> (text: &str)
        requires
            self.persisted() <= id < self.allocated(),
        ensures
            text@ == self.staged()[id - self.persisted()],
    {
        let place: u64 = match self.persisted_tail {
            Some(tail) => id - tail - 1,
            None => id,
        };
        let held: usize = self.pending.len();
        self.pending.text(place as usize)
    }

    /// Lists the staged symbols with their identifiers, in identifier order.
    pub fn pending_symbols(&self) -> (symbols: Vec<(u64, String)>)
        ensures
            symbols@.len() == self.staged().len(),
            forall|i: int|
                0 <= i < symbols@.len() ==> (#[trigger] symbols@[i]).0 == self.persisted() + i
                    && symbols@[i].1@ == self.staged()[i],
    {
        proof {
            use_type_invariant(self);
        }
        let first: u128 = match self.persisted_tail {
            Some(tail) => tail as u128 + 1,
            None => 0,
        };
        let mut symbols: Vec<(u64, String)> = Vec::new();
        let mut index: usize = 0;
        let held: usize = self.pending.len();
        while index < held
            invariant
                index <= held,
                held == self.staged().len(),
                first == self.persisted(),
                self.persisted() + held <= identifier_space(),
                symbols@.len() == index,
                forall|i: int|
                    0 <= i < symbols@.len() ==> (#[trigger] symbols@[i]).0 == self.persisted() + i
                        && symbols@[i].1@ == self.staged()[i],
            decreases held - index,
        {
            let id: u64 = (first + index as u128) as u64;
            symbols.push((id, self.pending.text(index).to_owned()));
            index += 1;
        }
        symbols
    }
}

/// One row of the symbol table, in the order of its columns.
#[derive(Clone, Debug, PartialEq, Eq)]
pub struct SymbolRow {
    /// Identifier.
    pub id: Value,
    /// Canonical text.
    pub value: Value,
}

/// The symbol violates a rule.
pub open spec fn bad_symbol(id: u64, detail: &'static str) -> StoreError {
    StoreError::InvalidStore(StoreIntegrityError::InvalidSymbol { id, detail })
}

/// Metadata violates a rule.
pub open spec fn bad_metadata(detail: &'static str) -> StoreError {
    StoreError::InvalidStore(StoreIntegrityError::InvalidMetadata { detail })
}

/// The identifier and the canonical text that a row holds.
pub open spec fn symbol_in(row: SymbolRow) -> Result<(u64, Seq<char>), StoreError> {
    match u64_in(row.id, "symbols", "id") {
        Err(error) => Err(error),
        Ok(id) => match row.value {
            Value::Text(bytes) => if !valid_utf8(bytes@) {
                Err(bad_encoding("symbols", "value"))
            } else {
                match normalized(decode_utf8(bytes@)) {
                    Err(error) => Err(bad_symbol(id, error.rule())),
                    Ok(text) => if text != decode_utf8(bytes@) {
                        Err(bad_symbol(id, "value is not normalized"))
                    } else {
                        Ok((id, text))
                    },
                }
            },
            _ => Err(bad_encoding("symbols", "value")),
        },
    }
}

/// The row's contents, with the text by its characters.
pub open spec fn symbol_result(result: Result<(u64, String), StoreError>) -> Result<
    (u64, Seq<char>),
    StoreError,
> {
    match result {
        Ok((id, text)) => Ok((id, text@)),
        Err(error) => Err(error),
    }
}

/// Reads one row and holds its text to the canonical form.
pub fn read_symbol_row(row: &SymbolRow) -> (result: Result<(u64, String), StoreError>)
    ensures
        symbol_result(result) == symbol_in(*row),
{
    let id: u64 = match read_u64(&row.id, SYMBOL_TABLE, ID_COLUMN) {
        Ok(id) => id,
        Err(error) => {
            return Err(error);
        },
    };
    let bytes: &Vec<u8> = match &row.value {
        Value::Text(bytes) => bytes,
        _ => {
            return Err(
                StoreError::InvalidStore(
                    StoreIntegrityError::InvalidEncoding {
                        table: SYMBOL_TABLE,
                        column: VALUE_COLUMN,
                    },
                ),
            );
        },
    };
    let value: &str = match core::str::from_utf8(bytes.as_slice()) {
        Ok(value) => value,
        Err(_) => {
            return Err(
                StoreError::InvalidStore(
                    StoreIntegrityError::InvalidEncoding {
                        table: SYMBOL_TABLE,
                        column: VALUE_COLUMN,
                    },
                ),
            );
        },
    };
    match normalize_symbol(value) {
        Err(error) => Err(
            StoreError::InvalidStore(
                StoreIntegrityError::InvalidSymbol { id, detail: error.detail() },
            ),
        ),
        Ok(canonical) => if same_text(canonical.as_str(), value) {
            Ok((id, canonical))
        } else {
            Err(
                StoreError::InvalidStore(
                    StoreIntegrityError::InvalidSymbol { id, detail: NOT_NORMALIZED },
                ),
            )
        },
    }
}

/// The number of symbols behind one more row of a catalog.
pub open spec fn extended(count: nat, row: SymbolRow) -> Result<nat, StoreError> {
    if count >= identifier_space() {
        Err(bad_metadata("symbol row follows the maximum unsigned identifier"))
    } else {
        match symbol_in(row) {
            Err(error) => Err(error),
            Ok((id, _)) => if id != count {
                Err(
                    StoreError::InvalidStore(
                        StoreIntegrityError::NonContiguousSymbolId {
                            expected: count as u64,
                            found: id,
                        },
                    ),
                )
            } else {
                Ok(count + 1)
            },
        }
    }
}

/// The number of symbols of a catalog, whose identifiers count up from zero.
pub open spec fn catalog(rows: Seq<SymbolRow>) -> Result<nat, StoreError>
    decreases rows.len(),
{
    if rows.len() == 0 {
        Ok(0)
    } else {
        match catalog(rows.drop_last()) {
            Err(error) => Err(error),
            Ok(count) => extended(count, rows.last()),
        }
    }
}

/// Accepts one more row of a catalog.
pub fn extend_catalog(next: NextSymbolId, row: &SymbolRow) -> (result: Result<
    NextSymbolId,
    StoreError,
>)
    ensures
        match (extended(next.allocated(), *row), result) {
            (Ok(count), Ok(next)) => next.allocated() == count,
            (Err(expected), Err(error)) => error == expected,
            _ => false,
        },
{
    match next {
        NextSymbolId::Exhausted => invalid_metadata(BEYOND_MAXIMUM),
        NextSymbolId::Next(expected) => match read_symbol_row(row) {
            Err(error) => Err(error),
            Ok((id, _)) => if id != expected {
                Err(
                    StoreError::InvalidStore(
                        StoreIntegrityError::NonContiguousSymbolId { expected, found: id },
                    ),
                )
            } else {
                Ok(NextSymbolId::after(Some(id)))
            },
        },
    }
}

proof fn lemma_catalog_stops(rows: Seq<SymbolRow>, end: int)
    requires
        0 <= end <= rows.len(),
        catalog(rows.take(end)) is Err,
    ensures
        catalog(rows) == catalog(rows.take(end)),
    decreases rows.len(),
{
    if end < rows.len() {
        assert(rows.drop_last().take(end) =~= rows.take(end));
        lemma_catalog_stops(rows.drop_last(), end);
    } else {
        assert(rows.take(end) =~= rows);
    }
}

/// Validates a whole catalog, in identifier order.
pub fn validate_symbol_catalog(rows: &[SymbolRow]) -> (result: Result<SymbolState, StoreError>)
    ensures
        match (catalog(rows@), result) {
            (Ok(count), Ok(state)) => state.persisted() == count && state.staged() == Seq::<
                Seq<char>,
            >::empty(),
            (Err(expected), Err(error)) => error == expected,
            _ => false,
        },
{
    let mut next = NextSymbolId::Next(0);
    let mut index: usize = 0;
    assert(rows@.take(0) =~= Seq::empty());
    while index < rows.len()
        invariant
            index <= rows@.len(),
            catalog(rows@.take(index as int)) == Ok::<nat, StoreError>(next.allocated()),
        decreases rows.len() - index,
    {
        proof {
            let part = rows@.take(index + 1);
            assert(part.drop_last() =~= rows@.take(index as int));
            assert(part.last() == rows@[index as int]);
        }
        match extend_catalog(next, &rows[index]) {
            Ok(after) => {
                next = after;
            },
            Err(error) => {
                proof {
                    lemma_catalog_stops(rows@, index + 1);
                }
                return Err(error);
            },
        }
        index += 1;
    }
    assert(rows@.take(rows@.len() as int) =~= rows@);
    Ok(SymbolState::from_tail(next.tail()))
}

/// The places below `end` whose texts are not staged.
pub open spec fn unstaged(unique: Seq<Seq<char>>, staged: Seq<Seq<char>>, end: nat) -> Seq<usize>
    decreases end,
{
    if end == 0 {
        Seq::empty()
    } else {
        let before = unstaged(unique, staged, (end - 1) as nat);
        if staged.contains(unique[end - 1]) {
            before
        } else {
            before.push((end - 1) as usize)
        }
    }
}

proof fn lemma_unstaged(unique: Seq<Seq<char>>, staged: Seq<Seq<char>>, end: nat)
    requires
        end <= unique.len() <= usize::MAX,
    ensures
        forall|i: int|
            0 <= i < unstaged(unique, staged, end).len() ==> {
                let place = #[trigger] unstaged(unique, staged, end)[i];
                place < end && !staged.contains(unique[place as int])
            },
        unstaged(unique, staged, end).len() <= end,
    decreases end,
{
    if end > 0 {
        lemma_unstaged(unique, staged, (end - 1) as nat);
    }
}

/// Canonical texts to look up, with what the catalog answered so far.
#[derive(Debug)]
pub struct InternRequest {
    unique_values: Vec<String>,
    positions: Vec<usize>,
    unresolved: Vec<usize>,
    answers: Vec<Option<u64>>,
}

impl InternRequest {
    /// Every place is that of a unique text.
    #[verifier::type_invariant]
    spec fn aligned(self) -> bool {
        &&& distinct(contents(self.unique_values@))
        &&& self.answers@.len() == self.unique_values@.len()
        &&& forall|i: int|
            0 <= i < self.positions@.len() ==> (#[trigger] self.positions@[i])
                < self.unique_values@.len()
        &&& forall|i: int|
            0 <= i < self.unresolved@.len() ==> (#[trigger] self.unresolved@[i])
                < self.unique_values@.len()
    }

    /// The canonical texts in first-occurrence order.
    pub closed spec fn unique(&self) -> Seq<Seq<char>> {
        contents(self.unique_values@)
    }

    /// The place of each input's canonical text.
    pub closed spec fn places(&self) -> Seq<usize> {
        self.positions@
    }

    /// The places whose texts the catalog is asked for.
    pub closed spec fn asked(&self) -> Seq<usize> {
        self.unresolved@
    }

    /// The identifiers that the catalog gave.
    pub closed spec fn known(&self) -> Seq<Option<u64>> {
        self.answers@
    }

    /// Returns the number of texts that the catalog is asked for.
    pub fn unresolved_len(&self) -> (length: usize)
        ensures
            length == self.asked().len(),
    {
        self.unresolved.len()
    }

    /// Returns the texts of the query that starts at the given place of the request.
    pub fn query_values(&self, start: usize) -> (values: Vec<String>)
        requires
            start <= self.asked().len(),
        ensures
            values@.len() == query_end(self.asked().len(), start as nat) - start,
            forall|i: int|
                0 <= i < values@.len() ==> (#[trigger] values@[i])@
                    == self.unique()[self.asked()[start + i] as int],
    {
        proof {
            use_type_invariant(self);
        }
        let end: usize = chunk_end(self.unresolved.len(), start);
        let mut values: Vec<String> = Vec::new();
        let mut index: usize = start;
        while index < end
            invariant
                start <= index <= end <= self.unresolved@.len(),
                self.aligned(),
                values@.len() == index - start,
                forall|i: int|
                    0 <= i < values@.len() ==> (#[trigger] values@[i])@
                        == self.unique()[self.asked()[start + i] as int],
            decreases end - index,
        {
            let place: usize = self.unresolved[index];
            values.push(self.unique_values[place].clone());
            index += 1;
        }
        values
    }
}

/// Where the query that starts at `start` ends.
pub open spec fn query_end(length: nat, start: nat) -> nat {
    if length - start > MAX_SYMBOL_QUERY_BINDINGS {
        start + MAX_SYMBOL_QUERY_BINDINGS as nat
    } else {
        length
    }
}

/// Returns where the query that starts at `start` ends.
pub fn chunk_end(length: usize, start: usize) -> (end: usize)
    requires
        start <= length,
    ensures
        end == query_end(length as nat, start as nat),
        start <= end <= length,
        start < length ==> start < end,
{
    if length - start > MAX_SYMBOL_QUERY_BINDINGS {
        start + MAX_SYMBOL_QUERY_BINDINGS
    } else {
        length
    }
}

/// The query asks for the text.
pub open spec fn requested(unique: Seq<Seq<char>>, chunk: Seq<usize>, text: Seq<char>) -> bool {
    exists|i: int| 0 <= i < chunk.len() && unique[(#[trigger] chunk[i]) as int] == text
}

/// What is known after the rows of one query.
pub open spec fn answered(
    unique: Seq<Seq<char>>,
    chunk: Seq<usize>,
    known: Seq<Option<u64>>,
    rows: Seq<SymbolRow>,
) -> Result<Seq<Option<u64>>, StoreError>
    decreases rows.len(),
{
    if rows.len() == 0 {
        Ok(known)
    } else {
        match answered(unique, chunk, known, rows.drop_last()) {
            Err(error) => Err(error),
            Ok(before) => match symbol_in(rows.last()) {
                Err(error) => Err(error),
                Ok((id, text)) => if !requested(unique, chunk, text) {
                    Err(bad_metadata("symbol query returned an unrequested value"))
                } else if before[unique.index_of(text)] is Some {
                    Err(bad_metadata("symbol value appears more than once"))
                } else {
                    Ok(before.update(unique.index_of(text), Some(id)))
                },
            },
        }
    }
}

proof fn lemma_answers_stop(
    unique: Seq<Seq<char>>,
    chunk: Seq<usize>,
    known: Seq<Option<u64>>,
    rows: Seq<SymbolRow>,
    end: int,
)
    requires
        0 <= end <= rows.len(),
        answered(unique, chunk, known, rows.take(end)) is Err,
    ensures
        answered(unique, chunk, known, rows) == answered(unique, chunk, known, rows.take(end)),
    decreases rows.len(),
{
    if end < rows.len() {
        assert(rows.drop_last().take(end) =~= rows.take(end));
        lemma_answers_stop(unique, chunk, known, rows.drop_last(), end);
    } else {
        assert(rows.take(end) =~= rows);
    }
}

proof fn lemma_single_place(texts: Seq<Seq<char>>, place: int)
    requires
        distinct(texts),
        0 <= place < texts.len(),
    ensures
        texts.contains(texts[place]),
        texts.index_of(texts[place]) == place,
{
    let other = texts.index_of(texts[place]);
    assert(texts[other] == texts[place]);
    if other < place {
        assert(texts[other] != texts[place]);
    } else if place < other {
        assert(texts[place] != texts[other]);
    }
}

impl InternRequest {
    /// Takes over the rows that answer the query which starts at `start`.
    pub fn read_symbol_id_rows(self, start: usize, rows: &[SymbolRow]) -> (result: Result<
        InternRequest,
        StoreError,
    >)
        requires
            start <= self.asked().len(),
        ensures
            ({
                let chunk = self.asked().subrange(
                    start as int,
                    query_end(self.asked().len(), start as nat) as int,
                );
                match (answered(self.unique(), chunk, self.known(), rows@), result) {
                    (Ok(known), Ok(request)) => {
                        &&& request.known() == known
                        &&& request.unique() == self.unique()
                        &&& request.places() == self.places()
                        &&& request.asked() == self.asked()
                    },
                    (Err(expected), Err(error)) => error == expected,
                    _ => false,
                }
            }),
    {
        proof {
            use_type_invariant(&self);
        }
        let InternRequest { unique_values, positions, unresolved, answers } = self;
        let mut answers: Vec<Option<u64>> = answers;
        let ghost unique = contents(unique_values@);
        let ghost known = answers@;
        let end: usize = chunk_end(unresolved.len(), start);
        let ghost chunk = unresolved@.subrange(start as int, end as int);
        let mut table = TextTable::new();
        let mut places: Vec<usize> = Vec::new();
        let mut index: usize = start;
        while index < end
            invariant
                start <= index <= end <= unresolved@.len(),
                unique == contents(unique_values@),
                chunk == unresolved@.subrange(start as int, end as int),
                forall|i: int|
                    0 <= i < unresolved@.len() ==> (#[trigger] unresolved@[i])
                        < unique_values@.len(),
                places@.len() == table@.len(),
                forall|i: int|
                    0 <= i < places@.len() ==> {
                        &&& (#[trigger] places@[i]) < unique.len()
                        &&& unique[places@[i] as int] == table@[i]
                        &&& requested(unique, chunk, table@[i])
                    },
                forall|i: int|
                    0 <= i < index - start ==> table@.contains(unique[#[trigger] chunk[i] as int]),
            decreases end - index,
        {
            let place: usize = unresolved[index];
            let ghost before = table@;
            let ghost text = unique[place as int];
            let known_texts: usize = table.len();
            let number: usize = table.insert(unique_values[place].clone());
            if number == known_texts {
                places.push(place);
            }
            proof {
                assert(chunk[index - start] == place);
                assert(requested(unique, chunk, text));
                if before.contains(text) {
                    assert(table@ == before);
                } else {
                    assert(table@ == before.push(text));
                }
                assert forall|i: int| 0 <= i < index + 1 - start implies table@.contains(
                    unique[#[trigger] chunk[i] as int],
                ) by {
                    if i < index - start {
                        assert(before.contains(unique[chunk[i] as int]));
                        let j = before.index_of(unique[chunk[i] as int]);
                        assert(table@[j] == before[j]);
                    } else {
                        assert(table@[number as int] == text);
                    }
                }
            }
            index += 1;
        }
        let mut row: usize = 0;
        assert(rows@.take(0) =~= Seq::empty());
        while row < rows.len()
            invariant
                row <= rows@.len(),
                distinct(unique),
                self.unique() == unique,
                self.known() == known,
                chunk == self.asked().subrange(
                    start as int,
                    query_end(self.asked().len(), start as nat) as int,
                ),
                unique == contents(unique_values@),
                unique.len() == answers@.len(),
                places@.len() == table@.len(),
                start <= end,
                chunk.len() == end - start,
                forall|i: int|
                    0 <= i < places@.len() ==> {
                        &&& (#[trigger] places@[i]) < unique.len()
                        &&& unique[places@[i] as int] == table@[i]
                        &&& requested(unique, chunk, table@[i])
                    },
                forall|i: int|
                    0 <= i < end - start ==> table@.contains(unique[#[trigger] chunk[i] as int]),
                answered(unique, chunk, known, rows@.take(row as int)) == Ok::<
                    Seq<Option<u64>>,
                    StoreError,
                >(answers@),
            decreases rows.len() - row,
        {
            proof {
                let part = rows@.take(row + 1);
                assert(part.drop_last() =~= rows@.take(row as int));
                assert(part.last() == rows@[row as int]);
                if answered(unique, chunk, known, part) is Err {
                    lemma_answers_stop(unique, chunk, known, rows@, row + 1);
                }
            }
            match read_symbol_row(&rows[row]) {
                Err(error) => {
                    return Err(error);
                },
                Ok((id, value)) => match table.find(value.as_str()) {
                    None => {
                        proof {
                            if requested(unique, chunk, value@) {
                                let i = choose|i: int|
                                    0 <= i < chunk.len() && unique[(#[trigger] chunk[i]) as int]
                                        == value@;
                                assert(table@.contains(unique[chunk[i] as int]));
                            }
                        }
                        return invalid_metadata(UNREQUESTED);
                    },
                    Some(number) => {
                        let place: usize = places[number];
                        proof {
                            lemma_single_place(unique, place as int);
                        }
                        if answers[place].is_some() {
                            return invalid_metadata(REPEATED_VALUE);
                        }
                        answers.set(place, Some(id));
                    },
                },
            }
            row += 1;
        }
        assert(rows@.take(rows@.len() as int) =~= rows@);
        Ok(InternRequest { unique_values, positions, unresolved, answers })
    }
}

/// The first answer among the places that is no persisted identifier.
pub open spec fn foreign_answer(
    places: Seq<usize>,
    known: Seq<Option<u64>>,
    persisted: nat,
) -> Option<u64>
    decreases places.len(),
{
    if places.len() == 0 {
        None
    } else if known[places[0] as int] matches Some(id) && id >= persisted {
        known[places[0] as int]
    } else {
        foreign_answer(places.drop_first(), known, persisted)
    }
}

/// The texts at the places below `end` that are neither staged nor answered.
pub open spec fn fresh_texts(
    unique: Seq<Seq<char>>,
    staged: Seq<Seq<char>>,
    known: Seq<Option<u64>>,
    end: nat,
) -> Seq<Seq<char>>
    decreases end,
{
    if end == 0 {
        Seq::empty()
    } else {
        let before = fresh_texts(unique, staged, known, (end - 1) as nat);
        if staged.contains(unique[end - 1]) || known[end - 1] is Some {
            before
        } else {
            before.push(unique[end - 1])
        }
    }
}

/// The identifier of a canonical text: staged behind the persisted ones, or
/// as the catalog answered.
pub open spec fn assigned(
    persisted: nat,
    staged: Seq<Seq<char>>,
    text: Seq<char>,
    answer: Option<u64>,
) -> nat {
    if staged.contains(text) {
        persisted + staged.index_of(text) as nat
    } else {
        answer->0 as nat
    }
}

spec fn settled(
    id: u64,
    persisted: nat,
    staged: Seq<Seq<char>>,
    text: Seq<char>,
    answer: Option<u64>,
) -> bool {
    &&& staged.contains(text) || answer is Some
    &&& id as nat == assigned(persisted, staged, text, answer)
}

proof fn lemma_fresh_bound(
    unique: Seq<Seq<char>>,
    staged: Seq<Seq<char>>,
    known: Seq<Option<u64>>,
    end: nat,
)
    requires
        distinct(unique),
        end <= unique.len(),
    ensures
        fresh_texts(unique, staged, known, end).len() <= end,
        forall|i: int|
            0 <= i < fresh_texts(unique, staged, known, end).len() ==> {
                let text = #[trigger] fresh_texts(unique, staged, known, end)[i];
                &&& unique.contains(text)
                &&& unique.index_of(text) < end
                &&& !staged.contains(text)
                &&& known[unique.index_of(text)] is None
            },
    decreases end,
{
    if end > 0 {
        lemma_fresh_bound(unique, staged, known, (end - 1) as nat);
        lemma_single_place(unique, end - 1);
    }
}

proof fn lemma_fresh_monotone(
    unique: Seq<Seq<char>>,
    staged: Seq<Seq<char>>,
    known: Seq<Option<u64>>,
    small: nat,
    large: nat,
)
    requires
        small <= large,
    ensures
        fresh_texts(unique, staged, known, small).len() <= fresh_texts(
            unique,
            staged,
            known,
            large,
        ).len(),
    decreases large,
{
    if small < large {
        lemma_fresh_monotone(unique, staged, known, small, (large - 1) as nat);
    }
}

impl SymbolState {
    /// Normalizes symbol values and asks for those that are not staged.
    pub fn begin_interning(&self, values: &[String]) -> (result: Result<InternRequest, StoreError>)
        ensures
            match (batch_of(contents(values@)), result) {
                (Ok(batch), Ok(request)) => {
                    &&& request.unique() == batch.0
                    &&& request.places().len() == batch.1.len()
                    &&& forall|i: int|
                        0 <= i < batch.1.len() ==> (#[trigger] request.places()[i]) as int
                            == batch.1[i]
                    &&& request.asked() == unstaged(batch.0, self.staged(), batch.0.len())
                    &&& request.known() == Seq::new(batch.0.len(), |i: int| None::<u64>)
                },
                (Err(expected), Err(error)) => error == expected,
                _ => false,
            },
    {
        let batch = match normalize_batch(values) {
            Ok(batch) => batch,
            Err(error) => {
                return Err(error);
            },
        };
        let ghost model = batch_of(contents(values@))->Ok_0;
        proof {
            lemma_batch_places(contents(values@));
        }
        let NormalizedBatch { unique_values, positions } = batch;
        let mut unresolved: Vec<usize> = Vec::new();
        let mut answers: Vec<Option<u64>> = Vec::new();
        let mut index: usize = 0;
        let ghost unique = contents(unique_values@);
        while index < unique_values.len()
            invariant
                index <= unique_values@.len(),
                unique == contents(unique_values@),
                answers@ =~= Seq::new(index as nat, |i: int| None::<u64>),
                unresolved@ == unstaged(unique, self.staged(), index as nat),
            decreases unique_values.len() - index,
        {
            match self.pending.find(unique_values[index].as_str()) {
                Some(_) => {},
                None => {
                    unresolved.push(index);
                },
            }
            answers.push(None);
            index += 1;
        }
        proof {
            lemma_unstaged(unique, self.staged(), unique.len());
            assert forall|i: int| 0 <= i < positions@.len() implies (#[trigger] positions@[i])
                < unique_values@.len() by {
                assert(positions@[i] as int == model.1[i]);
            }
        }
        Ok(InternRequest { unique_values, positions, unresolved, answers })
    }

    /// Returns the first answer that is no persisted identifier of this session.
    pub fn first_foreign(&self, request: &InternRequest) -> (foreign: Option<u64>)
        ensures
            foreign == foreign_answer(
                unstaged(request.unique(), self.staged(), request.unique().len()),
                request.known(),
                self.persisted(),
            ),
    {
        proof {
            use_type_invariant(request);
        }
        let total: usize = request.unique_values.len();
        let ghost unique = request.unique();
        let ghost all = unstaged(unique, self.staged(), unique.len());
        let mut index: usize = 0;
        let ghost mut passed: int = 0;
        proof {
            assert(all.skip(0) =~= all);
            lemma_unstaged(unique, self.staged(), unique.len());
        }
        while index < request.unique_values.len()
            invariant
                index <= request.unique_values@.len(),
                request.aligned(),
                unique == contents(request.unique_values@),
                all == unstaged(unique, self.staged(), unique.len()),
                passed == unstaged(unique, self.staged(), index as nat).len(),
                0 <= passed <= all.len(),
                foreign_answer(all, request.known(), self.persisted()) == foreign_answer(
                    all.skip(passed),
                    request.known(),
                    self.persisted(),
                ),
            decreases request.unique_values.len() - index,
        {
            proof {
                lemma_unstaged_prefix(unique, self.staged(), (index + 1) as nat, unique.len());
            }
            match self.pending.find(request.unique_values[index].as_str()) {
                Some(_) => {},
                None => {
                    proof {
                        let rest = all.skip(passed);
                        let part = unstaged(unique, self.staged(), (index + 1) as nat);
                        assert(part[passed] == index);
                        assert(all.take(part.len() as int)[passed] == all[passed]);
                        assert(rest[0] == index);
                        assert(rest.drop_first() =~= all.skip(passed + 1));
                        passed = passed + 1;
                    }
                    match request.answers[index] {
                        Some(id) => {
                            if !self.contains_persisted(id) {
                                return Some(id);
                            }
                        },
                        None => {},
                    }
                },
            }
            index += 1;
        }
        assert(all.skip(passed) =~= Seq::empty());
        None
    }

    /// Assigns identifiers to the requested values in input order, and stages
    /// the texts that are new.
    ///
    /// Staging takes all new texts or none. An answered identifier that is not
    /// persisted here stands for a change outside this session.
    pub fn intern_symbols(
        &mut self,
        request: InternRequest,
        expected_revision: i64,
        actual_revision: i64,
    ) -> (result: Result<Vec<SymbolId>, StoreError>)
        ensures
            final(self).persisted() == old(self).persisted(),
            ({
                let unique = request.unique();
                let fresh = fresh_texts(
                    unique,
                    old(self).staged(),
                    request.known(),
                    unique.len(),
                );
                let foreign = foreign_answer(
                    unstaged(unique, old(self).staged(), unique.len()),
                    request.known(),
                    old(self).persisted(),
                );
                match foreign {
                    Some(id) => {
                        &&& final(self).staged() == old(self).staged()
                        &&& result == Err::<Vec<SymbolId>, StoreError>(
                            if actual_revision != expected_revision {
                                StoreError::ConcurrentModification {
                                    expected_revision,
                                    actual_revision,
                                }
                            } else {
                                bad_symbol(id, "symbol row changed outside this store session")
                            },
                        )
                    },
                    None => if fresh.len() > 0 && old(self).allocated() + fresh.len()
                        > identifier_space() {
                        &&& final(self).staged() == old(self).staged()
                        &&& result == Err::<Vec<SymbolId>, StoreError>(
                            StoreError::SymbolIdExhausted,
                        )
                    } else {
                        &&& final(self).staged() == old(self).staged() + fresh
                        &&& result matches Ok(ids) && {
                            &&& ids@.len() == request.places().len()
                            &&& forall|i: int|
                                0 <= i < ids@.len() ==> (#[trigger] ids@[i]).0 as nat == assigned(
                                    old(self).persisted(),
                                    final(self).staged(),
                                    unique[request.places()[i] as int],
                                    request.known()[request.places()[i] as int],
                                )
                        }
                    },
                }
            }),
    {
        proof {
            use_type_invariant(&*self);
            use_type_invariant(&request);
        }
        match self.first_foreign(&request) {
            Some(id) => {
                if actual_revision != expected_revision {
                    return Err(
                        StoreError::ConcurrentModification { expected_revision, actual_revision },
                    );
                }
                return Err(
                    StoreError::InvalidStore(
                        StoreIntegrityError::InvalidSymbol { id, detail: ROW_CHANGED },
                    ),
                );
            },
            None => {},
        }
        let InternRequest { unique_values, positions, unresolved: _, answers } = request;
        let ghost unique = contents(unique_values@);
        let ghost known = answers@;
        let ghost staged = self.staged();
        let ghost fresh = fresh_texts(unique, staged, known, unique.len());
        let mut new_count: usize = 0;
        let mut index: usize = 0;
        while index < unique_values.len()
            invariant
                index <= unique_values@.len(),
                unique == contents(unique_values@),
                known == answers@,
                answers@.len() == unique_values@.len(),
                staged == self.staged(),
                new_count == fresh_texts(unique, staged, known, index as nat).len(),
                new_count <= index,
            decreases unique_values.len() - index,
        {
            if self.pending.find(unique_values[index].as_str()).is_none()
                && answers[index].is_none() {
                new_count += 1;
            }
            index += 1;
        }
        let next_id = if new_count == 0 {
            self.next_id
        } else {
            match self.next_id.allocate_range(new_count) {
                Some((_, next_id)) => next_id,
                None => {
                    return Err(StoreError::SymbolIdExhausted);
                },
            }
        };
        let mut taken = SymbolState::from_tail(None);
        std::mem::swap(self, &mut taken);
        let SymbolState { persisted_tail, next_id: _, mut pending } = taken;
        let ghost persisted = through(persisted_tail);
        let first: u128 = match persisted_tail {
            Some(tail) => tail as u128 + 1,
            None => 0,
        };
        let mut assignments: Vec<u64> = Vec::new();
        let mut place: usize = 0;
        proof {
            assert(staged + Seq::<Seq<char>>::empty() =~= staged);
        }
        while place < unique_values.len()
            invariant
                place <= unique_values@.len(),
                unique == contents(unique_values@),
                distinct(unique),
                known == answers@,
                answers@.len() == unique_values@.len(),
                first == persisted,
                persisted + staged.len() + fresh.len() <= identifier_space(),
                fresh == fresh_texts(unique, staged, known, unique.len()),
                pending@ == staged + fresh_texts(unique, staged, known, place as nat),
                assignments@.len() == place,
                forall|k: int|
                    0 <= k < place ==> settled(
                        #[trigger] assignments@[k],
                        persisted,
                        pending@,
                        unique[k],
                        known[k],
                    ),
            decreases unique_values.len() - place,
        {
            let ghost before = pending@;
            let ghost text = unique[place as int];
            proof {
                lemma_fresh_monotone(unique, staged, known, place as nat, unique.len());
                lemma_fresh_monotone(unique, staged, known, (place + 1) as nat, unique.len());
                lemma_fresh_bound(unique, staged, known, place as nat);
                lemma_single_place(unique, place as int);
            }
            let held: usize = pending.len();
            let id: u64 = match pending.find(unique_values[place].as_str()) {
                Some(number) => {
                    proof {
                        lemma_single_place(pending@, number as int);
                        let earlier = fresh_texts(unique, staged, known, place as nat);
                        if number >= staged.len() {
                            assert(earlier[number - staged.len()] == text);
                        } else {
                            assert(staged[number as int] == text);
                        }
                        assert(staged.contains(text));
                    }
                    (first + number as u128) as u64
                },
                None => {
                    proof {
                        if staged.contains(text) {
                            let k = staged.index_of(text);
                            assert(before[k] == text);
                        }
                    }
                    match answers[place] {
                        Some(id) => id,
                        None => {
                            let number: usize = pending.insert(unique_values[place].clone());
                            let grown: usize = pending.len();
                            proof {
                                assert(pending@ == before.push(text));
                                lemma_single_place(pending@, number as int);
                                assert(pending@ =~= staged + fresh_texts(
                                    unique,
                                    staged,
                                    known,
                                    (place + 1) as nat,
                                ));
                            }
                            (first + number as u128) as u64
                        },
                    }
                },
            };
            assignments.push(id);
            let grown: usize = pending.len();
            proof {
                assert forall|k: int| 0 <= k < place + 1 implies settled(
                    #[trigger] assignments@[k],
                    persisted,
                    pending@,
                    unique[k],
                    known[k],
                ) by {
                    if k < place {
                        assert(settled(assignments@[k], persisted, before, unique[k], known[k]));
                        if before.contains(unique[k]) {
                            let j = before.index_of(unique[k]);
                            assert(pending@[j] == unique[k]);
                            lemma_single_place(pending@, j);
                        } else if pending@.contains(unique[k]) {
                            let j = pending@.index_of(unique[k]);
                            if j < before.len() {
                                assert(before[j] == unique[k]);
                            }
                            assert(unique[k] == text);
                            assert(unique[k] != unique[place as int]);
                        }
                    }
                }
            }
            place += 1;
        }
        let mut resolved: Vec<SymbolId> = Vec::new();
        let mut position: usize = 0;
        while position < positions.len()
            invariant
                position <= positions@.len(),
                unique.len() == assignments@.len(),
                unique.len() == unique_values@.len(),
                forall|i: int|
                    0 <= i < positions@.len() ==> (#[trigger] positions@[i]) < unique_values@.len(),
                forall|k: int|
                    0 <= k < assignments@.len() ==> settled(
                        #[trigger] assignments@[k],
                        persisted,
                        pending@,
                        unique[k],
                        known[k],
                    ),
                resolved@.len() == position,
                forall|i: int|
                    0 <= i < position ==> (#[trigger] resolved@[i]).0 as nat == assigned(
                        persisted,
                        pending@,
                        unique[positions@[i] as int],
                        known[positions@[i] as int],
                    ),
            decreases positions.len() - position,
        {
            resolved.push(SymbolId::new(assignments[positions[position]]));
            position += 1;
        }
        *self = SymbolState { persisted_tail, next_id, pending };
        Ok(resolved)
    }
}

proof fn lemma_unstaged_prefix(
    unique: Seq<Seq<char>>,
    staged: Seq<Seq<char>>,
    small: nat,
    large: nat,
)
    requires
        small <= large,
    ensures
        unstaged(unique, staged, small).len() <= unstaged(unique, staged, large).len(),
        unstaged(unique, staged, small) == unstaged(unique, staged, large).take(
            unstaged(unique, staged, small).len() as int,
        ),
    decreases large,
{
    let part = unstaged(unique, staged, small);
    let whole = unstaged(unique, staged, large);
    if small < large {
        lemma_unstaged_prefix(unique, staged, small, (large - 1) as nat);
        let before = unstaged(unique, staged, (large - 1) as nat);
        assert(whole.take(part.len() as int) =~= before.take(part.len() as int));
    } else {
        assert(whole.take(part.len() as int) =~= part);
    }
}

proof fn lemma_batch_places(values: Seq<Seq<char>>)
    requires
        batch_of(values) is Ok,
    ensures
        batch_of(values)->Ok_0.1.len() == values.len(),
        forall|i: int|
            0 <= i < values.len() ==> 0 <= (#[trigger] batch_of(values)->Ok_0.1[i]) < batch_of(
                values,
            )->Ok_0.0.len(),
    decreases values.len(),
{
    if values.len() > 0 {
        lemma_batch_places(values.drop_last());
        let (unique, places) = batch_of(values.drop_last())->Ok_0;
        let (all, positions) = batch_of(values)->Ok_0;
        assert(all.len() >= unique.len());
        assert forall|i: int| 0 <= i < values.len() implies 0 <= (#[trigger] positions[i])
            < all.len() by {
            if i < values.len() - 1 {
                assert(positions[i] == places[i]);
            }
        }
    }
}

} // verus!
