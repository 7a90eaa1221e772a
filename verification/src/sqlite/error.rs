//! Failures of the SQLite snapshot adapter.

use vstd::prelude::*;
use vstd::string::*;

use crate::sqlite::wire::signed_bits;
use crate::text::{
    decimal, hexadecimal, push_decimal, push_hexadecimal, push_signed_decimal, signed_decimal,
};

verus! {

/// Failure while creating, opening, or saving a SQLite memory store.
#[derive(Clone, Debug, PartialEq, Eq)]
#[non_exhaustive]
#[allow(inconsistent_fields)]
pub enum StoreError {
    /// Filesystem work outside SQLite failed.
    Io(String),
    /// SQLite rejected an operation.
    Database(String),
    /// Operating-system entropy was unavailable while allocating a memory ID.
    Entropy(String),
    /// Persisted data did not satisfy the SQLite contract.
    InvalidStore(StoreIntegrityError),
    /// Another store session committed after this session was opened or saved.
    ConcurrentModification {
        /// Revision from which this session attempted to save.
        expected_revision: i64,
        /// Revision currently stored in the database.
        actual_revision: i64,
    },
    /// The non-negative SQLite revision counter reached its maximum value.
    RevisionExhausted,
    /// An episode or request refers to a symbol that this store does not hold.
    UnknownSymbolId {
        /// Unknown symbol identifier.
        id: u64,
    },
    /// The symbol identifier space cannot hold the new symbols.
    SymbolIdExhausted,
    /// A supplied symbol value cannot be normalized.
    InvalidSymbolValue {
        /// Position of the value in the request.
        index: usize,
        /// Violated symbol rule.
        detail: &'static str,
    },
    /// A free-text query cannot be normalized.
    InvalidSemanticQuery {
        /// Violated symbol rule.
        detail: &'static str,
    },
    /// Encoding an episode failed.
    SemanticEncoding {
        /// Diagnostic of the encoder.
        detail: String,
    },
    /// Encoding a query failed.
    SemanticQueryEncoding {
        /// Diagnostic of the encoder.
        detail: String,
    },
}

/// Persisted-data violation detected while opening or saving a store.
#[derive(Clone, Debug, PartialEq, Eq)]
#[non_exhaustive]
#[allow(inconsistent_fields)]
pub enum StoreIntegrityError {
    /// The SQLite header does not identify a NAO-M-E database.
    ApplicationMismatch {
        /// Application identifier found in the SQLite header.
        found: i64,
    },
    /// The required singleton metadata row is absent.
    MissingMetadata,
    /// The database uses a format this adapter does not implement.
    UnsupportedFormatVersion {
        /// Format version stored in the database.
        found: i64,
    },
    /// SQLite's structural quick check did not report `ok`.
    QuickCheckFailed {
        /// Diagnostic returned by SQLite.
        detail: String,
    },
    /// SQLite's complete integrity check did not report `ok`.
    IntegrityCheckFailed {
        /// Diagnostic returned by SQLite.
        detail: String,
    },
    /// SQLite reported at least one foreign-key violation.
    ForeignKeyCheckFailed {
        /// Compact diagnostic identifying the violation.
        detail: String,
    },
    /// A column did not contain its canonical fixed-width encoding.
    InvalidEncoding {
        /// Table containing the invalid value.
        table: &'static str,
        /// Column containing the invalid value.
        column: &'static str,
    },
    /// The persisted memory identifier is zero or malformed.
    InvalidMemoryId,
    /// Metadata outside the separately classified fields is invalid.
    InvalidMetadata {
        /// Violated metadata invariant.
        detail: &'static str,
    },
    /// Episode sequences do not form the exact prefix `0..N`.
    NonContiguousEpisodeSequence {
        /// Sequence required at this position.
        expected: u64,
        /// Sequence read from the database.
        found: u64,
    },
    /// An episode or one of its parts is not canonical.
    InvalidEpisode {
        /// Sequence of the affected episode.
        sequence: u64,
        /// Violated episode invariant.
        detail: &'static str,
    },
    /// A persisted positive activation is invalid.
    InvalidActivation {
        /// Sequence of the affected episode.
        sequence: u64,
        /// Violated activation invariant.
        detail: &'static str,
    },
    /// A relevance edge is invalid.
    InvalidRelevance {
        /// Source sequence.
        from: u64,
        /// Target sequence.
        to: u64,
        /// Violated graph invariant.
        detail: &'static str,
    },
    /// A feedback edge is invalid.
    InvalidFeedback {
        /// Source sequence.
        from: u64,
        /// Target sequence.
        to: u64,
        /// Violated feedback invariant.
        detail: &'static str,
    },
    /// Symbol identifiers do not form the exact prefix `0..N`.
    NonContiguousSymbolId {
        /// Identifier required at this position.
        expected: u64,
        /// Identifier read from the database.
        found: u64,
    },
    /// A symbol row is not canonical.
    InvalidSymbol {
        /// Identifier of the affected symbol.
        id: u64,
        /// Violated symbol invariant.
        detail: &'static str,
    },
    /// Episode vectors do not form the exact prefix `0..N`.
    NonContiguousEpisodeVector {
        /// Sequence required at this position.
        expected: u64,
        /// Sequence read from the database.
        found: u64,
    },
    /// An episode vector is not canonical.
    InvalidEpisodeVector {
        /// Sequence of the affected episode.
        sequence: u64,
        /// Violated vector invariant.
        detail: &'static str,
    },
}

/// Number of hexadecimal digits of an identifier, at least eight.
pub open spec fn identifier_width(bits: nat) -> nat {
    if bits < 0x1_0000_0000 {
        8
    } else if bits < 0x10_0000_0000 {
        9
    } else if bits < 0x100_0000_0000 {
        10
    } else if bits < 0x1000_0000_0000 {
        11
    } else if bits < 0x1_0000_0000_0000 {
        12
    } else if bits < 0x10_0000_0000_0000 {
        13
    } else if bits < 0x100_0000_0000_0000 {
        14
    } else if bits < 0x1000_0000_0000_0000 {
        15
    } else {
        16
    }
}

impl StoreIntegrityError {
    /// The diagnostic text.
    pub open spec fn text(self) -> Seq<char> {
        match self {
            StoreIntegrityError::ApplicationMismatch { found } => "unexpected SQLite application ID 0x"@
                + hexadecimal(signed_bits(found), identifier_width(signed_bits(found))),
            StoreIntegrityError::MissingMetadata => "memory metadata row is missing"@,
            StoreIntegrityError::UnsupportedFormatVersion { found } => "unsupported SQLite memory format version "@
                + signed_decimal(found as int),
            StoreIntegrityError::QuickCheckFailed { detail } => "SQLite quick check failed: "@
                + detail@,
            StoreIntegrityError::IntegrityCheckFailed { detail } => "SQLite integrity check failed: "@
                + detail@,
            StoreIntegrityError::ForeignKeyCheckFailed { detail } => "SQLite foreign-key check failed: "@
                + detail@,
            StoreIntegrityError::InvalidEncoding { table, column } => "invalid encoding in "@
                + table@ + seq!['.'] + column@,
            StoreIntegrityError::InvalidMemoryId => "invalid persisted memory ID"@,
            StoreIntegrityError::InvalidMetadata { detail } => "invalid metadata: "@ + detail@,
            StoreIntegrityError::NonContiguousEpisodeSequence { expected, found } => sequence_text(
                "expected episode sequence "@,
                expected,
                found,
            ),
            StoreIntegrityError::InvalidEpisode { sequence, detail } => item_text(
                "invalid episode "@,
                sequence,
                detail@,
            ),
            StoreIntegrityError::InvalidActivation { sequence, detail } => item_text(
                "invalid activation for episode "@,
                sequence,
                detail@,
            ),
            StoreIntegrityError::InvalidRelevance { from, to, detail } => edge_text(
                "invalid relevance edge "@,
                from,
                to,
                detail@,
            ),
            StoreIntegrityError::InvalidFeedback { from, to, detail } => edge_text(
                "invalid feedback edge "@,
                from,
                to,
                detail@,
            ),
            StoreIntegrityError::NonContiguousSymbolId { expected, found } => sequence_text(
                "expected symbol ID "@,
                expected,
                found,
            ),
            StoreIntegrityError::InvalidSymbol { id, detail } => item_text(
                "invalid symbol "@,
                id,
                detail@,
            ),
            StoreIntegrityError::NonContiguousEpisodeVector { expected, found } => sequence_text(
                "expected episode vector "@,
                expected,
                found,
            ),
            StoreIntegrityError::InvalidEpisodeVector { sequence, detail } => item_text(
                "invalid episode vector "@,
                sequence,
                detail@,
            ),
        }
    }

    /// Returns the diagnostic text.
    pub fn to_string(&self) -> (text: String)
        ensures
            text@ == self.text(),
    {
        match self {
            StoreIntegrityError::ApplicationMismatch { found } => {
                let mut text = "unexpected SQLite application ID 0x".to_owned();
                push_identifier(&mut text, *found);
                text
            },
            StoreIntegrityError::MissingMetadata => "memory metadata row is missing".to_owned(),
            StoreIntegrityError::UnsupportedFormatVersion { found } => {
                let mut text = "unsupported SQLite memory format version ".to_owned();
                push_signed_decimal(&mut text, *found);
                text
            },
            StoreIntegrityError::QuickCheckFailed { detail } => {
                let mut text = "SQLite quick check failed: ".to_owned();
                text.append(detail.as_str());
                text
            },
            StoreIntegrityError::IntegrityCheckFailed { detail } => {
                let mut text = "SQLite integrity check failed: ".to_owned();
                text.append(detail.as_str());
                text
            },
            StoreIntegrityError::ForeignKeyCheckFailed { detail } => {
                let mut text = "SQLite foreign-key check failed: ".to_owned();
                text.append(detail.as_str());
                text
            },
            StoreIntegrityError::InvalidEncoding { table, column } => {
                let mut text = "invalid encoding in ".to_owned();
                text.append(*table);
                text.push('.');
                text.append(*column);
                proof {
                    let start = "invalid encoding in "@ + table@;
                    assert(start.push('.') =~= start + seq!['.']);
                }
                text
            },
            StoreIntegrityError::InvalidMemoryId => "invalid persisted memory ID".to_owned(),
            StoreIntegrityError::InvalidMetadata { detail } => {
                let mut text = "invalid metadata: ".to_owned();
                text.append(*detail);
                text
            },
            StoreIntegrityError::NonContiguousEpisodeSequence { expected, found } => sequence_message(
                "expected episode sequence ",
                *expected,
                *found,
            ),
            StoreIntegrityError::InvalidEpisode { sequence, detail } => item_message(
                "invalid episode ",
                *sequence,
                *detail,
            ),
            StoreIntegrityError::InvalidActivation { sequence, detail } => item_message(
                "invalid activation for episode ",
                *sequence,
                *detail,
            ),
            StoreIntegrityError::InvalidRelevance { from, to, detail } => edge_message(
                "invalid relevance edge ",
                *from,
                *to,
                *detail,
            ),
            StoreIntegrityError::InvalidFeedback { from, to, detail } => edge_message(
                "invalid feedback edge ",
                *from,
                *to,
                *detail,
            ),
            StoreIntegrityError::NonContiguousSymbolId { expected, found } => sequence_message(
                "expected symbol ID ",
                *expected,
                *found,
            ),
            StoreIntegrityError::InvalidSymbol { id, detail } => item_message(
                "invalid symbol ",
                *id,
                *detail,
            ),
            StoreIntegrityError::NonContiguousEpisodeVector { expected, found } => sequence_message(
                "expected episode vector ",
                *expected,
                *found,
            ),
            StoreIntegrityError::InvalidEpisodeVector { sequence, detail } => item_message(
                "invalid episode vector ",
                *sequence,
                *detail,
            ),
        }
    }
}

impl StoreError {
    /// The diagnostic text.
    pub open spec fn text(self) -> Seq<char> {
        match self {
            StoreError::Io(detail) => "SQLite store I/O failed: "@ + detail@,
            StoreError::Database(detail) => "SQLite operation failed: "@ + detail@,
            StoreError::Entropy(detail) => "memory ID generation failed: "@ + detail@,
            StoreError::InvalidStore(error) => "invalid SQLite memory store: "@ + error.text(),
            StoreError::ConcurrentModification {
                expected_revision,
                actual_revision,
            } => "SQLite memory revision changed from "@ + signed_decimal(expected_revision as int)
                + " to "@ + signed_decimal(actual_revision as int),
            StoreError::RevisionExhausted => "SQLite memory snapshot revision is exhausted"@,
            StoreError::UnknownSymbolId { id } => "unknown symbol ID "@ + decimal(id as nat),
            StoreError::SymbolIdExhausted => "symbol identifier space is exhausted"@,
            StoreError::InvalidSymbolValue { index, detail } => item_text(
                "invalid symbol value at index "@,
                index as u64,
                detail@,
            ),
            StoreError::InvalidSemanticQuery { detail } => "invalid semantic query: "@ + detail@,
            StoreError::SemanticEncoding { detail } => "semantic episode encoding failed: "@
                + detail@,
            StoreError::SemanticQueryEncoding { detail } => "semantic query encoding failed: "@
                + detail@,
        }
    }

    /// Returns the diagnostic text.
    pub fn to_string(&self) -> (text: String)
        ensures
            text@ == self.text(),
    {
        match self {
            StoreError::Io(detail) => joined("SQLite store I/O failed: ", detail.as_str()),
            StoreError::Database(detail) => joined("SQLite operation failed: ", detail.as_str()),
            StoreError::Entropy(detail) => joined("memory ID generation failed: ", detail.as_str()),
            StoreError::InvalidStore(error) => joined(
                "invalid SQLite memory store: ",
                error.to_string().as_str(),
            ),
            StoreError::ConcurrentModification { expected_revision, actual_revision } => {
                let mut text = "SQLite memory revision changed from ".to_owned();
                push_signed_decimal(&mut text, *expected_revision);
                text.append(" to ");
                push_signed_decimal(&mut text, *actual_revision);
                text
            },
            StoreError::RevisionExhausted => {
                "SQLite memory snapshot revision is exhausted".to_owned()
            },
            StoreError::UnknownSymbolId { id } => {
                let mut text = "unknown symbol ID ".to_owned();
                push_decimal(&mut text, *id);
                text
            },
            StoreError::SymbolIdExhausted => "symbol identifier space is exhausted".to_owned(),
            StoreError::InvalidSymbolValue { index, detail } => item_message(
                "invalid symbol value at index ",
                *index as u64,
                *detail,
            ),
            StoreError::InvalidSemanticQuery { detail } => joined(
                "invalid semantic query: ",
                *detail,
            ),
            StoreError::SemanticEncoding { detail } => joined(
                "semantic episode encoding failed: ",
                detail.as_str(),
            ),
            StoreError::SemanticQueryEncoding { detail } => joined(
                "semantic query encoding failed: ",
                detail.as_str(),
            ),
        }
    }
}

/// A start, an expected number and a found number.
pub open spec fn sequence_text(start: Seq<char>, expected: u64, found: u64) -> Seq<char> {
    start + decimal(expected as nat) + ", found "@ + decimal(found as nat)
}

/// A start, a number, a colon and a detail.
pub open spec fn item_text(start: Seq<char>, number: u64, detail: Seq<char>) -> Seq<char> {
    start + decimal(number as nat) + ": "@ + detail
}

/// A start, a source, an arrow, a target, a colon and a detail.
pub open spec fn edge_text(start: Seq<char>, from: u64, to: u64, detail: Seq<char>) -> Seq<char> {
    start + decimal(from as nat) + "->"@ + decimal(to as nat) + ": "@ + detail
}

fn joined(start: &str, detail: &str) -> (text: String)
    ensures
        text@ == start@ + detail@,
{
    let mut text = start.to_owned();
    text.append(detail);
    text
}

fn sequence_message(start: &str, expected: u64, found: u64) -> (text: String)
    ensures
        text@ == sequence_text(start@, expected, found),
{
    let mut text = start.to_owned();
    push_decimal(&mut text, expected);
    text.append(", found ");
    push_decimal(&mut text, found);
    text
}

fn item_message(start: &str, number: u64, detail: &str) -> (text: String)
    ensures
        text@ == item_text(start@, number, detail@),
{
    let mut text = start.to_owned();
    push_decimal(&mut text, number);
    text.append(": ");
    text.append(detail);
    text
}

fn edge_message(start: &str, from: u64, to: u64, detail: &str) -> (text: String)
    ensures
        text@ == edge_text(start@, from, to, detail@),
{
    let mut text = start.to_owned();
    push_decimal(&mut text, from);
    text.append("->");
    push_decimal(&mut text, to);
    text.append(": ");
    text.append(detail);
    text
}

/// Appends an application identifier in hexadecimal digits, at least eight.
pub fn push_identifier(text: &mut String, value: i64)
    ensures
        final(text)@ == old(text)@ + hexadecimal(
            signed_bits(value),
            identifier_width(signed_bits(value)),
        ),
{
    let bits: u64 = if value >= 0 {
        value as u64
    } else {
        ((value as i128) + 0x1_0000_0000_0000_0000) as u64
    };
    let width: u8 = if bits < 0x1_0000_0000 {
        8
    } else if bits < 0x10_0000_0000 {
        9
    } else if bits < 0x100_0000_0000 {
        10
    } else if bits < 0x1000_0000_0000 {
        11
    } else if bits < 0x1_0000_0000_0000 {
        12
    } else if bits < 0x10_0000_0000_0000 {
        13
    } else if bits < 0x100_0000_0000_0000 {
        14
    } else if bits < 0x1000_0000_0000_0000 {
        15
    } else {
        16
    };
    push_hexadecimal(text, bits, width);
}

/// Metadata violates a rule.
pub fn invalid_metadata<T>(detail: &'static str) -> (result: Result<T, StoreError>)
    ensures
        result == Err::<T, StoreError>(
            StoreError::InvalidStore(StoreIntegrityError::InvalidMetadata { detail }),
        ),
{
    Err(StoreError::InvalidStore(StoreIntegrityError::InvalidMetadata { detail }))
}

} // verus!
