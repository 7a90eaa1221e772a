//! Persisted episode vectors: codec, preparation and audit.

use vstd::prelude::*;

use crate::semantic::model::{canonical_components, Embedding};
use crate::sqlite::error::{invalid_metadata, StoreError, StoreIntegrityError};
use crate::sqlite::row::{bad_encoding, read_u64, u64_in, Value};
use crate::sqlite::symbol_checks::{optional_bytes, read_tail, tail_in};
use crate::sqlite::symbols::{bad_metadata, through};

verus! {

/// Bytes of a persisted vector: two for each component.
pub const SEMANTIC_VECTOR_BYTES: usize = 768;

const VECTOR_TABLE: &'static str = "episode_vectors";

const SEQUENCE_COLUMN: &'static str = "sequence";

const VECTOR_COLUMN: &'static str = "vector";

const WRONG_WIDTH: &'static str = "vector has the wrong byte width";

const OUT_OF_RANGE: &'static str = "vector contains a component outside the profile range";

const ALL_ZERO: &'static str = "vector is all zero";

const TAIL_DIFFERS: &'static str = "persisted episode-vector tail differs from the episode prefix";

const COUNT_DIFFERS: &'static str = "episode-vector count differs from the episode prefix";

const SPACE_EXHAUSTED: &'static str = "episode vector sequence space is exhausted";

/// The signed number of two bytes, least significant first.
pub open spec fn component_of(low: u8, high: u8) -> i16 {
    let bits = low + 256 * high;
    if bits >= 0x8000 {
        (bits - 0x1_0000) as i16
    } else {
        bits as i16
    }
}

/// The unsigned number with the bits of a signed one.
pub open spec fn component_bits(value: i16) -> int {
    if value < 0 {
        value + 0x1_0000
    } else {
        value as int
    }
}

/// The components that bytes hold, two bytes each; a last odd byte is left out.
pub open spec fn components(bytes: Seq<u8>) -> Seq<i16> {
    Seq::new(bytes.len() / 2, |i: int| component_of(bytes[2 * i], bytes[2 * i + 1]))
}

/// The bytes of components, least significant first.
pub open spec fn component_bytes(values: Seq<i16>) -> Seq<u8> {
    Seq::new(
        2 * values.len(),
        |i: int|
            if i % 2 == 0 {
                (component_bits(values[i / 2]) % 256) as u8
            } else {
                (component_bits(values[i / 2]) / 256) as u8
            },
    )
}

/// Decoding gives back the components that were encoded, and encoding the
/// bytes that were decoded.
pub proof fn law_vector_codec_round_trip(values: Seq<i16>, bytes: Seq<u8>)
    ensures
        components(component_bytes(values)) == values,
        bytes.len() % 2 == 0 ==> component_bytes(components(bytes)) == bytes,
{
    let encoded = component_bytes(values);
    assert forall|i: int| 0 <= i < values.len() implies components(encoded)[i] == values[i] by {
        assert((2 * i) % 2 == 0);
        assert((2 * i) / 2 == i);
        assert((2 * i + 1) % 2 == 1);
        assert((2 * i + 1) / 2 == i);
    }
    assert(components(encoded) =~= values);
    if bytes.len() % 2 == 0 {
        let decoded = components(bytes);
        let again = component_bytes(decoded);
        assert forall|i: int| 0 <= i < bytes.len() implies again[i] == bytes[i] by {
            let half = i / 2;
            assert(decoded[half] == component_of(bytes[2 * half], bytes[2 * half + 1]));
        }
        assert(again =~= bytes);
    }
}

/// The violated rule of a persisted vector.
pub open spec fn vector_fault(bytes: Seq<u8>) -> Option<&'static str> {
    if bytes.len() != SEMANTIC_VECTOR_BYTES {
        Some("vector has the wrong byte width")
    } else if exists|i: int|
        0 <= i < components(bytes).len() && (#[trigger] components(bytes)[i]) == i16::MIN {
        Some("vector contains a component outside the profile range")
    } else if forall|i: int|
        0 <= i < components(bytes).len() ==> (#[trigger] components(bytes)[i]) == 0 {
        Some("vector is all zero")
    } else {
        None
    }
}

/// The bytes of every canonical embedding are a persisted vector, and the
/// components of every persisted vector are a canonical embedding.
pub proof fn law_vectors_are_canonical_embeddings(values: Seq<i16>, bytes: Seq<u8>)
    ensures
        canonical_components(values) ==> vector_fault(component_bytes(values)) is None,
        vector_fault(bytes) is None <==> bytes.len() == 768
            && canonical_components(components(bytes)),
{
    law_vector_codec_round_trip(values, bytes);
}

/// The vector violates a rule.
pub open spec fn bad_vector(sequence: u64, detail: &'static str) -> StoreError {
    StoreError::InvalidStore(StoreIntegrityError::InvalidEpisodeVector { sequence, detail })
}

fn invalid_vector<T>(sequence: u64, detail: &'static str) -> (result: Result<T, StoreError>)
    ensures
        result == Err::<T, StoreError>(bad_vector(sequence, detail)),
{
    Err(StoreError::InvalidStore(StoreIntegrityError::InvalidEpisodeVector { sequence, detail }))
}

fn read_component(low: u8, high: u8) -> (value: i16)
    ensures
        value == component_of(low, high),
{
    let bits: i32 = low as i32 + 256 * (high as i32);
    if bits >= 0x8000 {
        (bits - 0x1_0000) as i16
    } else {
        bits as i16
    }
}

/// Reads the components of bytes, two bytes each.
pub fn vector_components(bytes: &[u8]) -> (values: Vec<i16>)
    ensures
        values@ == components(bytes@),
{
    let mut values: Vec<i16> = Vec::new();
    let length: usize = bytes.len();
    let half: usize = length / 2;
    let mut index: usize = 0;
    while index < half
        invariant
            index <= half,
            length == bytes@.len(),
            half == length / 2,
            values@.len() == index,
            forall|i: int| 0 <= i < index ==> (#[trigger] values@[i]) == components(bytes@)[i],
        decreases half - index,
    {
        values.push(read_component(bytes[2 * index], bytes[2 * index + 1]));
        index += 1;
    }
    assert(values@ =~= components(bytes@));
    values
}

/// Reads a persisted vector.
pub fn read_components(sequence: u64, bytes: &[u8]) -> (result: Result<Vec<i16>, StoreError>)
    ensures
        match (vector_fault(bytes@), result) {
            (None, Ok(values)) => values@ == components(bytes@),
            (Some(detail), Err(error)) => error == bad_vector(sequence, detail),
            _ => false,
        },
{
    if bytes.len() != SEMANTIC_VECTOR_BYTES {
        return invalid_vector(sequence, WRONG_WIDTH);
    }
    let values = vector_components(bytes);
    let mut has_non_zero = false;
    let mut index: usize = 0;
    while index < values.len()
        invariant
            index <= values@.len(),
            bytes@.len() == SEMANTIC_VECTOR_BYTES,
            values@ == components(bytes@),
            forall|i: int| 0 <= i < index ==> (#[trigger] values@[i]) != i16::MIN,
            has_non_zero <==> exists|i: int| 0 <= i < index && (#[trigger] values@[i]) != 0,
        decreases values.len() - index,
    {
        if values[index] == i16::MIN {
            assert(components(bytes@)[index as int] == i16::MIN);
            return invalid_vector(sequence, OUT_OF_RANGE);
        }
        if values[index] != 0 {
            has_non_zero = true;
        }
        index += 1;
    }
    if !has_non_zero {
        return invalid_vector(sequence, ALL_ZERO);
    }
    Ok(values)
}

/// Validates a persisted vector.
pub fn validate_vector(sequence: u64, bytes: &[u8]) -> (result: Result<(), StoreError>)
    ensures
        result == match vector_fault(bytes@) {
            None => Ok::<(), StoreError>(()),
            Some(detail) => Err(bad_vector(sequence, detail)),
        },
{
    match read_components(sequence, bytes) {
        Ok(_) => Ok(()),
        Err(error) => Err(error),
    }
}

/// Encodes components, two bytes each.
pub fn encode_components(values: &[i16]) -> (encoded: Vec<u8>)
    ensures
        encoded@ == component_bytes(values@),
{
    let mut encoded: Vec<u8> = Vec::new();
    let mut index: usize = 0;
    while index < values.len()
        invariant
            index <= values@.len(),
            encoded@.len() == 2 * index,
            forall|i: int|
                0 <= i < encoded@.len() ==> (#[trigger] encoded@[i]) == component_bytes(values@)[i],
        decreases values.len() - index,
    {
        let value: i32 = values[index] as i32;
        let bits: i32 = if value < 0 {
            value + 0x1_0000
        } else {
            value
        };
        let ghost before = encoded@;
        encoded.push((bits % 256) as u8);
        encoded.push((bits / 256) as u8);
        proof {
            assert((2 * index) % 2 == 0 && (2 * index) / 2 == index as int);
            assert((2 * index + 1) % 2 == 1 && (2 * index + 1) / 2 == index as int);
            assert forall|i: int| 0 <= i < encoded@.len() implies (#[trigger] encoded@[i])
                == component_bytes(values@)[i] by {
                if i < before.len() {
                    assert(encoded@[i] == before[i]);
                }
            }
        }
        index += 1;
    }
    assert(encoded@ =~= component_bytes(values@));
    encoded
}

/// Encodes an embedding, two bytes for each component.
pub fn encode_vector(vector: &Embedding) -> (encoded: Vec<u8>)
    ensures
        encoded@ == component_bytes(vector@),
        encoded@.len() == SEMANTIC_VECTOR_BYTES,
{
    encode_components(vector.values())
}

/// One row of the vector table, in the order of its columns.
#[derive(Clone, Debug, PartialEq, Eq)]
pub struct VectorRow {
    /// Episode sequence.
    pub sequence: Value,
    /// Persisted components.
    pub vector: Value,
}

/// Reads the sequence of a row.
pub fn read_sequence(row: &VectorRow) -> (result: Result<u64, StoreError>)
    ensures
        result == u64_in(row.sequence, "episode_vectors", "sequence"),
{
    read_u64(&row.sequence, VECTOR_TABLE, SEQUENCE_COLUMN)
}

/// Reads the bytes of a row's vector.
pub fn read_vector<'a>(row: &'a VectorRow) -> (result: Result<&'a [u8], StoreError>)
    ensures
        match (row.vector, result) {
            (Value::Blob(expected), Ok(bytes)) => bytes@ == expected@,
            (Value::Blob(_), Err(_)) => false,
            (_, Err(error)) => error == bad_encoding("episode_vectors", "vector"),
            _ => false,
        },
{
    match &row.vector {
        Value::Blob(bytes) => Ok(bytes.as_slice()),
        _ => Err(
            StoreError::InvalidStore(
                StoreIntegrityError::InvalidEncoding { table: VECTOR_TABLE, column: VECTOR_COLUMN },
            ),
        ),
    }
}

/// The error of a row that should hold the vector of an episode.
pub open spec fn row_fault(row: VectorRow, expected: nat) -> Option<StoreError> {
    match u64_in(row.sequence, "episode_vectors", "sequence") {
        Err(error) => Some(error),
        Ok(sequence) => if sequence != expected {
            Some(
                StoreError::InvalidStore(
                    StoreIntegrityError::NonContiguousEpisodeVector {
                        expected: expected as u64,
                        found: sequence,
                    },
                ),
            )
        } else {
            match row.vector {
                Value::Blob(bytes) => match vector_fault(bytes@) {
                    Some(detail) => Some(bad_vector(sequence, detail)),
                    None => None,
                },
                _ => Some(bad_encoding("episode_vectors", "vector")),
            }
        },
    }
}

/// The error of the first row that does not hold its episode's vector.
pub open spec fn first_fault(rows: Seq<VectorRow>) -> Option<StoreError>
    decreases rows.len(),
{
    if rows.len() == 0 {
        None
    } else {
        match first_fault(rows.drop_last()) {
            Some(error) => Some(error),
            None => row_fault(rows.last(), (rows.len() - 1) as nat),
        }
    }
}

proof fn lemma_fault_stays(rows: Seq<VectorRow>, end: int)
    requires
        0 <= end <= rows.len(),
        first_fault(rows.take(end)) is Some,
    ensures
        first_fault(rows) == first_fault(rows.take(end)),
    decreases rows.len(),
{
    if end < rows.len() {
        assert(rows.drop_last().take(end) =~= rows.take(end));
        lemma_fault_stays(rows.drop_last(), end);
    } else {
        assert(rows.take(end) =~= rows);
    }
}

/// Requires exactly one valid vector for each of the episodes, in sequence order.
pub fn full_audit(rows: &[VectorRow], expected_episode_count: usize) -> (result: Result<
    (),
    StoreError,
>)
    ensures
        result == match first_fault(rows@) {
            Some(error) => Err::<(), StoreError>(error),
            None => if rows@.len() == expected_episode_count {
                Ok(())
            } else {
                Err(bad_metadata("episode-vector count differs from the episode prefix"))
            },
        },
{
    let mut index: usize = 0;
    assert(rows@.take(0) =~= Seq::empty());
    while index < rows.len()
        invariant
            index <= rows@.len(),
            first_fault(rows@.take(index as int)) is None,
        decreases rows.len() - index,
    {
        proof {
            let part = rows@.take(index + 1);
            assert(part.drop_last() =~= rows@.take(index as int));
            assert(part.last() == rows@[index as int]);
            if first_fault(part) is Some {
                lemma_fault_stays(rows@, index + 1);
            }
        }
        let expected: u64 = index as u64;
        let sequence: u64 = match read_sequence(&rows[index]) {
            Ok(sequence) => sequence,
            Err(error) => {
                return Err(error);
            },
        };
        if sequence != expected {
            return Err(
                StoreError::InvalidStore(
                    StoreIntegrityError::NonContiguousEpisodeVector { expected, found: sequence },
                ),
            );
        }
        let bytes = match read_vector(&rows[index]) {
            Ok(bytes) => bytes,
            Err(error) => {
                return Err(error);
            },
        };
        match validate_vector(sequence, bytes) {
            Ok(_) => {},
            Err(error) => {
                return Err(error);
            },
        }
        index += 1;
    }
    assert(rows@.take(rows@.len() as int) =~= rows@);
    if rows.len() == expected_episode_count {
        Ok(())
    } else {
        invalid_metadata(COUNT_DIFFERS)
    }
}

/// Tells whether a table's last sequence closes the prefix of the given length.
pub fn closes_prefix(tail: Option<u64>, count: usize) -> (closes: bool)
    ensures
        closes == (through(tail) == count),
{
    match tail {
        None => count == 0,
        Some(tail) => count > 0 && tail == (count - 1) as u64,
    }
}

/// Requires the vectors to end with the persisted episodes.
pub fn verify_tail(tail: Option<&[u8]>, persisted_episode_count: usize) -> (result: Result<
    (),
    StoreError,
>)
    ensures
        result == match tail_in(optional_bytes(tail), "episode_vectors", "sequence") {
            Err(error) => Err::<(), StoreError>(error),
            Ok(actual) => if through(actual) == persisted_episode_count {
                Ok(())
            } else {
                Err(bad_metadata("persisted episode-vector tail differs from the episode prefix"))
            },
        },
{
    match read_tail(tail, "episode_vectors", "sequence") {
        Err(error) => Err(error),
        Ok(actual) => if closes_prefix(actual, persisted_episode_count) {
            Ok(())
        } else {
            invalid_metadata(TAIL_DIFFERS)
        },
    }
}

/// Vectors that are encoded and not yet saved, in episode order.
#[derive(Debug)]
pub struct SemanticState {
    pending: Vec<Embedding>,
}

/// The components of vectors.
pub open spec fn vector_contents(vectors: Seq<Embedding>) -> Seq<Seq<i16>> {
    vectors.map_values(|vector: Embedding| vector@)
}

/// The sequence of the last of the vectors is too large.
pub open spec fn exceeds_space(episode_start: nat, length: nat) -> bool {
    length > 0 && episode_start + length - 1 > usize::MAX
}

impl SemanticState {
    /// The components of the pending vectors.
    pub closed spec fn vectors(&self) -> Seq<Seq<i16>> {
        vector_contents(self.pending@)
    }

    /// Creates a state without pending vectors.
    pub fn new() -> (state: SemanticState)
        ensures
            state.vectors() == Seq::<Seq<i16>>::empty(),
    {
        let state = SemanticState { pending: Vec::new() };
        assert(state.vectors() =~= Seq::empty());
        state
    }

    /// Returns the number of pending vectors.
    pub fn pending_len(&self) -> (length: usize)
        ensures
            length == self.vectors().len(),
    {
        self.pending.len()
    }

    /// Adds encoded vectors behind the pending ones.
    pub fn extend(&mut self, encoded: Vec<Embedding>)
        ensures
            final(self).vectors() == old(self).vectors() + vector_contents(encoded@),
    {
        let ghost added = vector_contents(encoded@);
        let mut encoded: Vec<Embedding> = encoded;
        self.pending.append(&mut encoded);
        assert(self.vectors() =~= old(self).vectors() + added);
    }

    /// Drops the pending vectors once they are saved.
    pub fn mark_saved(&mut self)
        ensures
            final(self).vectors() == Seq::<Seq<i16>>::empty(),
    {
        self.pending.clear();
        assert(self.vectors() =~= Seq::empty());
    }

    /// Lists the rows that save the pending vectors behind `episode_start`.
    pub fn pending_vectors(&self, episode_start: usize) -> (result: Result<
        Vec<(u64, Vec<u8>)>,
        StoreError,
    >)
        ensures
            match result {
                Ok(rows) => {
                    &&& rows@.len() == self.vectors().len()
                    &&& forall|i: int|
                        0 <= i < rows@.len() ==> (#[trigger] rows@[i]).0 == episode_start + i
                            && rows@[i].1@ == component_bytes(self.vectors()[i])
                },
                Err(error) => error == bad_metadata("episode vector sequence space is exhausted"),
            },
            result is Err <==> exceeds_space(episode_start as nat, self.vectors().len()),
    {
        let mut rows: Vec<(u64, Vec<u8>)> = Vec::new();
        let mut offset: usize = 0;
        while offset < self.pending.len()
            invariant
                offset <= self.pending@.len(),
                offset > 0 ==> episode_start + offset - 1 <= usize::MAX,
                rows@.len() == offset,
                forall|i: int|
                    0 <= i < rows@.len() ==> (#[trigger] rows@[i]).0 == episode_start + i
                        && rows@[i].1@ == component_bytes(self.vectors()[i]),
            decreases self.pending.len() - offset,
        {
            match episode_start.checked_add(offset) {
                Some(sequence) => {
                    rows.push((sequence as u64, encode_vector(&self.pending[offset])));
                },
                None => {
                    return invalid_metadata(SPACE_EXHAUSTED);
                },
            }
            offset += 1;
        }
        Ok(rows)
    }
}

} // verus!
