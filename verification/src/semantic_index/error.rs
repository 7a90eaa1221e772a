//! Failures of the semantic cue index.

use vstd::prelude::*;
use vstd::string::*;

use crate::semantic::error::{digest_text, push_digest};
use crate::semantic_index::model::EmbeddingProfile;
use crate::sqlite::error::{identifier_width, push_identifier, StoreError};
use crate::sqlite::wire::signed_bits;
use crate::text::{decimal, hexadecimal, push_decimal, push_signed_decimal, signed_decimal};

verus! {

/// Failure while creating, opening, or synchronizing a semantic cue index.
#[derive(Clone, Debug, PartialEq, Eq)]
#[non_exhaustive]
#[allow(inconsistent_fields)]
pub enum IndexError {
    /// Filesystem work outside SQLite failed.
    Io(String),
    /// SQLite rejected an operation.
    Database(String),
    /// The authoritative memory store could not be read.
    MemoryStore(StoreError),
    /// Persisted sidecar data violated the semantic-index contract.
    InvalidIndex(IndexIntegrityError),
    /// The caller-supplied embedding implementation failed.
    Embedder(String),
    /// The embedder returned a different number of vectors than requested.
    EmbeddingBatchLength {
        /// Number of vectors required for the input cue batch.
        expected: usize,
        /// Number of vectors returned by the embedder.
        found: usize,
    },
    /// An operation used a different embedding configuration than the index.
    ProfileMismatch {
        /// Profile persisted by the index.
        expected: EmbeddingProfile,
        /// Profile supplied for the operation.
        found: EmbeddingProfile,
    },
    /// Another sidecar session changed the indexed episode coverage.
    ConcurrentModification {
        /// Indexed episode count owned by this sidecar session.
        expected_episode_count: u64,
        /// Indexed episode count currently stored in the sidecar.
        actual_episode_count: u64,
    },
    /// The semantic cue identifier space is exhausted.
    CueIdExhausted,
    /// The authoritative episode count cannot be represented by this index.
    EpisodeCountExhausted,
}

/// Persisted-data violation detected in a semantic cue sidecar.
#[derive(Clone, Debug, PartialEq, Eq)]
#[non_exhaustive]
#[allow(inconsistent_fields)]
pub enum IndexIntegrityError {
    /// The SQLite header does not identify a NAO-M-E semantic index.
    ApplicationMismatch {
        /// Application identifier found in the SQLite header.
        found: i64,
    },
    /// The required singleton metadata row is absent.
    MissingMetadata,
    /// The sidecar uses a format this adapter does not implement.
    UnsupportedFormatVersion {
        /// Format version stored in the sidecar.
        found: i64,
    },
    /// Semantic-index metadata is invalid.
    InvalidMetadata {
        /// Violated metadata invariant.
        detail: &'static str,
    },
    /// A column did not contain its canonical fixed-width encoding.
    InvalidEncoding {
        /// Table containing the invalid value.
        table: &'static str,
        /// Column containing the invalid value.
        column: &'static str,
    },
    /// The sidecar belongs to a different authoritative logical memory.
    MemoryMismatch,
    /// A persisted cue is malformed or not canonical.
    InvalidCue {
        /// Identifier of the malformed cue.
        cue_id: u64,
        /// Violated cue invariant.
        detail: &'static str,
    },
    /// A persisted cue-to-episode posting is invalid.
    InvalidPosting {
        /// Authoritative episode sequence referenced by the posting.
        sequence: u64,
        /// Semantic cue identifier referenced by the posting.
        cue_id: u64,
        /// Violated posting invariant.
        detail: &'static str,
    },
    /// SQLite's structural quick check did not report `ok`.
    QuickCheckFailed {
        /// Diagnostic returned by SQLite.
        detail: String,
    },
    /// SQLite reported at least one broken foreign-key reference.
    ForeignKeyCheckFailed,
}

impl IndexIntegrityError {
    /// The diagnostic text.
    pub open spec fn text(self) -> Seq<char> {
        match self {
            IndexIntegrityError::ApplicationMismatch { found } => "unexpected SQLite application ID 0x"@
                + hexadecimal(signed_bits(found), identifier_width(signed_bits(found))),
            IndexIntegrityError::MissingMetadata => "semantic index metadata row is missing"@,
            IndexIntegrityError::UnsupportedFormatVersion { found } => "unsupported semantic index format version "@
                + signed_decimal(found as int),
            IndexIntegrityError::InvalidMetadata { detail } => "invalid metadata: "@ + detail@,
            IndexIntegrityError::InvalidEncoding { table, column } => "invalid encoding in "@
                + table@ + "."@ + column@,
            IndexIntegrityError::MemoryMismatch => "semantic index belongs to a different logical memory"@,
            IndexIntegrityError::InvalidCue { cue_id, detail } => "invalid semantic cue "@
                + decimal(cue_id as nat) + ": "@ + detail@,
            IndexIntegrityError::InvalidPosting { sequence, cue_id, detail } => "invalid semantic posting "@
                + decimal(cue_id as nat) + "->"@ + decimal(sequence as nat) + ": "@ + detail@,
            IndexIntegrityError::QuickCheckFailed { detail } => "SQLite quick check failed: "@
                + detail@,
            IndexIntegrityError::ForeignKeyCheckFailed => "SQLite foreign-key check failed"@,
        }
    }

    /// Returns the diagnostic text.
    pub fn to_string(&self) -> (text: String)
        ensures
            text@ == self.text(),
    {
        match self {
            IndexIntegrityError::ApplicationMismatch { found } => {
                let mut text = "unexpected SQLite application ID 0x".to_owned();
                push_identifier(&mut text, *found);
                text
            },
            IndexIntegrityError::MissingMetadata => {
                "semantic index metadata row is missing".to_owned()
            },
            IndexIntegrityError::UnsupportedFormatVersion { found } => {
                let mut text = "unsupported semantic index format version ".to_owned();
                push_signed_decimal(&mut text, *found);
                text
            },
            IndexIntegrityError::InvalidMetadata { detail } => {
                let mut text = "invalid metadata: ".to_owned();
                text.append(*detail);
                text
            },
            IndexIntegrityError::InvalidEncoding { table, column } => {
                let mut text = "invalid encoding in ".to_owned();
                text.append(*table);
                text.append(".");
                text.append(*column);
                text
            },
            IndexIntegrityError::MemoryMismatch => {
                "semantic index belongs to a different logical memory".to_owned()
            },
            IndexIntegrityError::InvalidCue { cue_id, detail } => {
                let mut text = "invalid semantic cue ".to_owned();
                push_decimal(&mut text, *cue_id);
                text.append(": ");
                text.append(*detail);
                text
            },
            IndexIntegrityError::InvalidPosting { sequence, cue_id, detail } => {
                let mut text = "invalid semantic posting ".to_owned();
                push_decimal(&mut text, *cue_id);
                text.append("->");
                push_decimal(&mut text, *sequence);
                text.append(": ");
                text.append(*detail);
                text
            },
            IndexIntegrityError::QuickCheckFailed { detail } => {
                let mut text = "SQLite quick check failed: ".to_owned();
                text.append(detail.as_str());
                text
            },
            IndexIntegrityError::ForeignKeyCheckFailed => {
                "SQLite foreign-key check failed".to_owned()
            },
        }
    }
}

/// A profile's width and fingerprint.
pub open spec fn profile_text(profile: EmbeddingProfile) -> Seq<char> {
    "dimension "@ + decimal(profile@.1 as nat) + " and fingerprint "@ + digest_text(profile@.0)
}

fn push_profile(text: &mut String, profile: &EmbeddingProfile)
    ensures
        final(text)@ == old(text)@ + profile_text(*profile),
{
    let ghost start = text@;
    text.append("dimension ");
    push_decimal(text, profile.dimensions() as u64);
    text.append(" and fingerprint ");
    let fingerprint = profile.fingerprint();
    push_digest(text, fingerprint.as_slice());
    assert(text@ =~= start + profile_text(*profile));
}

impl IndexError {
    /// The diagnostic text.
    pub open spec fn text(self) -> Seq<char> {
        match self {
            IndexError::Io(error) => "semantic index I/O failed: "@ + error@,
            IndexError::Database(error) => "semantic index SQLite operation failed: "@ + error@,
            IndexError::MemoryStore(error) => "memory store operation failed: "@ + error.text(),
            IndexError::InvalidIndex(error) => "invalid semantic cue index: "@ + error.text(),
            IndexError::Embedder(error) => "cue embedding failed: "@ + error@,
            IndexError::EmbeddingBatchLength { expected, found } => "cue embedder returned "@
                + decimal(found as nat) + " vectors for a batch of "@ + decimal(expected as nat)
                + " cues"@,
            IndexError::ProfileMismatch {
                expected,
                found,
            } => "embedding profile mismatch: expected "@ + profile_text(expected) + ", found "@
                + profile_text(found),
            IndexError::ConcurrentModification {
                expected_episode_count,
                actual_episode_count,
            } => "semantic index coverage changed from "@ + decimal(expected_episode_count as nat)
                + " to "@ + decimal(actual_episode_count as nat) + " episodes"@,
            IndexError::CueIdExhausted => "semantic cue identifier space is exhausted"@,
            IndexError::EpisodeCountExhausted => "memory episode count exceeds the semantic index range"@,
        }
    }

    /// Returns the diagnostic text.
    pub fn to_string(&self) -> (text: String)
        ensures
            text@ == self.text(),
    {
        match self {
            IndexError::Io(error) => {
                let mut text = "semantic index I/O failed: ".to_owned();
                text.append(error.as_str());
                text
            },
            IndexError::Database(error) => {
                let mut text = "semantic index SQLite operation failed: ".to_owned();
                text.append(error.as_str());
                text
            },
            IndexError::MemoryStore(error) => {
                let mut text = "memory store operation failed: ".to_owned();
                text.append(error.to_string().as_str());
                text
            },
            IndexError::InvalidIndex(error) => {
                let mut text = "invalid semantic cue index: ".to_owned();
                text.append(error.to_string().as_str());
                text
            },
            IndexError::Embedder(error) => {
                let mut text = "cue embedding failed: ".to_owned();
                text.append(error.as_str());
                text
            },
            IndexError::EmbeddingBatchLength { expected, found } => {
                let mut text = "cue embedder returned ".to_owned();
                push_decimal(&mut text, *found as u64);
                text.append(" vectors for a batch of ");
                push_decimal(&mut text, *expected as u64);
                text.append(" cues");
                text
            },
            IndexError::ProfileMismatch { expected, found } => {
                let mut text = "embedding profile mismatch: expected ".to_owned();
                push_profile(&mut text, expected);
                text.append(", found ");
                push_profile(&mut text, found);
                text
            },
            IndexError::ConcurrentModification {
                expected_episode_count,
                actual_episode_count,
            } => {
                let mut text = "semantic index coverage changed from ".to_owned();
                push_decimal(&mut text, *expected_episode_count);
                text.append(" to ");
                push_decimal(&mut text, *actual_episode_count);
                text.append(" episodes");
                text
            },
            IndexError::CueIdExhausted => "semantic cue identifier space is exhausted".to_owned(),
            IndexError::EpisodeCountExhausted => {
                "memory episode count exceeds the semantic index range".to_owned()
            },
        }
    }
}

/// The sidecar violates its contract.
pub fn invalid_index<T>(error: IndexIntegrityError) -> (result: Result<T, IndexError>)
    ensures
        result == Err::<T, IndexError>(IndexError::InvalidIndex(error)),
{
    Err(IndexError::InvalidIndex(error))
}

} // verus!
