//! What the diagnostics name.

use vstd::prelude::*;
use vstd::string::*;

use crate::model::{AtomId, GraphError, ValueError};
use crate::semantic::error::{byte_list, digest_text, SemanticError};
use crate::semantic_index::error::{IndexError, IndexIntegrityError};
use crate::semantic_index::model::EmbeddingProfile;
use crate::sqlite::error::{identifier_width, StoreError, StoreIntegrityError};
use crate::text::{decimal, hexadecimal, joined, signed_decimal};

verus! {

/// An unknown episode and an episode that is joined with itself are named by
/// their identifiers, and a limit is named behind the number that exceeds it.
pub proof fn law_memory_diagnostics(id: AtomId, count: usize, max: usize, value: u32)
    ensures
        id.text() == id.memory().text() + ":"@ + decimal(id.position() as nat),
        GraphError::UnknownAtom(id).text() == "unknown atom "@ + id.text(),
        GraphError::SelfEdge(id).text() == "atom "@ + id.text() + " cannot influence itself"@,
        (GraphError::FeedbackTargetLimitExceeded { count, max }).text() == "feedback target count "@
            + decimal(count as nat) + " exceeds "@ + decimal(max as nat),
        (ValueError::OutOfRange { value }).text() == "fixed-point value "@ + decimal(value as nat)
            + " exceeds "@ + decimal(1_000_000),
{
    reveal_strlit(":");
    assert(":"@ =~= seq![':']);
}

/// A changed store is told with the revision that was expected and then the one
/// that was found, and an unknown symbol or a refused value with its number.
pub proof fn law_store_diagnostics(
    expected_revision: i64,
    actual_revision: i64,
    id: u64,
    index: usize,
    detail: &'static str,
)
    ensures
        (StoreError::ConcurrentModification { expected_revision, actual_revision }).text()
            == "SQLite memory revision changed from "@ + signed_decimal(expected_revision as int)
            + " to "@ + signed_decimal(actual_revision as int),
        (StoreError::UnknownSymbolId { id }).text() == "unknown symbol ID "@ + decimal(id as nat),
        (StoreError::InvalidSymbolValue { index, detail }).text()
            == "invalid symbol value at index "@ + decimal(index as nat) + ": "@ + detail@,
        (StoreError::InvalidSemanticQuery { detail }).text() == "invalid semantic query: "@
            + detail@,
        StoreError::RevisionExhausted.text() == "SQLite memory snapshot revision is exhausted"@,
        StoreError::SymbolIdExhausted.text() == "symbol identifier space is exhausted"@,
{
}

/// What failed outside is told with its own diagnostic.
pub proof fn law_store_diagnostics_keep_their_cause(detail: String, error: StoreIntegrityError)
    ensures
        StoreError::Io(detail).text() == "SQLite store I/O failed: "@ + detail@,
        StoreError::Database(detail).text() == "SQLite operation failed: "@ + detail@,
        StoreError::Entropy(detail).text() == "memory ID generation failed: "@ + detail@,
        StoreError::InvalidStore(error).text() == "invalid SQLite memory store: "@ + error.text(),
        (StoreError::SemanticEncoding { detail }).text() == "semantic episode encoding failed: "@
            + detail@,
        (StoreError::SemanticQueryEncoding { detail }).text() == "semantic query encoding failed: "@
            + detail@,
        (StoreIntegrityError::QuickCheckFailed { detail }).text() == "SQLite quick check failed: "@
            + detail@,
        (StoreIntegrityError::IntegrityCheckFailed { detail }).text()
            == "SQLite integrity check failed: "@ + detail@,
        (StoreIntegrityError::ForeignKeyCheckFailed { detail }).text()
            == "SQLite foreign-key check failed: "@ + detail@,
{
}

/// A damaged row is told with its number, an edge with the number where it starts
/// and then the one where it ends, and a gap with the number that was expected
/// and then the one that was found.
pub proof fn law_integrity_diagnostics(
    first: u64,
    second: u64,
    detail: &'static str,
    table: &'static str,
    column: &'static str,
    found: i64,
)
    ensures
        (StoreIntegrityError::NonContiguousEpisodeSequence { expected: first, found: second }).text()
            == "expected episode sequence "@ + decimal(first as nat) + ", found "@ + decimal(
            second as nat,
        ),
        (StoreIntegrityError::NonContiguousSymbolId { expected: first, found: second }).text()
            == "expected symbol ID "@ + decimal(first as nat) + ", found "@ + decimal(
            second as nat,
        ),
        (StoreIntegrityError::NonContiguousEpisodeVector { expected: first, found: second }).text()
            == "expected episode vector "@ + decimal(first as nat) + ", found "@ + decimal(
            second as nat,
        ),
        (StoreIntegrityError::InvalidEpisode { sequence: first, detail }).text()
            == "invalid episode "@ + decimal(first as nat) + ": "@ + detail@,
        (StoreIntegrityError::InvalidSymbol { id: first, detail }).text() == "invalid symbol "@
            + decimal(first as nat) + ": "@ + detail@,
        (StoreIntegrityError::InvalidEpisodeVector { sequence: first, detail }).text()
            == "invalid episode vector "@ + decimal(first as nat) + ": "@ + detail@,
        (StoreIntegrityError::InvalidFeedback { from: first, to: second, detail }).text()
            == "invalid feedback edge "@ + decimal(first as nat) + "->"@ + decimal(second as nat)
            + ": "@ + detail@,
        (StoreIntegrityError::InvalidEncoding { table, column }).text() == "invalid encoding in "@
            + table@ + "."@ + column@,
        (StoreIntegrityError::InvalidMetadata { detail }).text() == "invalid metadata: "@ + detail@,
        (StoreIntegrityError::UnsupportedFormatVersion { found }).text()
            == "unsupported SQLite memory format version "@ + signed_decimal(found as int),
{
    reveal_strlit(".");
    assert("."@ =~= seq!['.']);
}

/// A foreign application identifier is told in at least eight hexadecimal
/// digits, and in no more than it needs.
pub proof fn law_application_identifiers_are_told_in_hexadecimal(found: i64)
    ensures
        ({
            let bits = (found as int % 0x1_0000_0000_0000_0000) as nat;
            let width = identifier_width(bits);
            &&& (StoreIntegrityError::ApplicationMismatch { found }).text()
                == "unexpected SQLite application ID 0x"@ + hexadecimal(bits, width)
            &&& (IndexIntegrityError::ApplicationMismatch { found }).text()
                == "unexpected SQLite application ID 0x"@ + hexadecimal(bits, width)
            &&& 8 <= width <= 16
            &&& bits < vstd::arithmetic::power::pow(16, width)
            &&& width > 8 ==> bits >= vstd::arithmetic::power::pow(16, (width - 1) as nat)
        }),
{
    reveal(vstd::arithmetic::power::pow);
    reveal_with_fuel(vstd::arithmetic::power::pow, 17);
}

/// A digest is told byte by byte, each in two hexadecimal digits, with commas
/// between them and brackets around them.
pub proof fn law_digests_are_told_byte_by_byte(bytes: Seq<u8>)
    ensures
        digest_text(bytes) == "["@ + joined(
            bytes.map_values(|byte: u8| hexadecimal(byte as nat, 2)),
            ", "@,
        ) + "]"@,
    decreases bytes.len(),
{
    lemma_byte_list(bytes);
}

proof fn lemma_byte_list(bytes: Seq<u8>)
    ensures
        byte_list(bytes) == joined(
            bytes.map_values(|byte: u8| hexadecimal(byte as nat, 2)),
            ", "@,
        ),
    decreases bytes.len(),
{
    let show = |byte: u8| hexadecimal(byte as nat, 2);
    let parts = bytes.map_values(show);
    if bytes.len() > 0 {
        lemma_byte_list(bytes.drop_last());
        assert(bytes.drop_last().map_values(show) =~= parts.drop_last());
        assert(parts.last() == show(bytes.last()));
    }
}

/// A wrong artifact is told with its file, with the digest that was found and
/// then with the expected one, and a limit of the encoder behind what exceeds it.
pub proof fn law_encoder_diagnostics(
    file: &'static str,
    source: String,
    expected: [u8; 32],
    found: [u8; 32],
    maximum: usize,
    count: usize,
    detail: &'static str,
)
    ensures
        (SemanticError::ArtifactHashMismatch { file, expected, found }).text()
            == "semantic artifact "@ + file@ + " has SHA-256 "@ + digest_text(found@)
            + "; expected "@ + digest_text(expected@),
        (SemanticError::ArtifactUnavailable { file, source }).text()
            == "required semantic artifact "@ + file@
            + " is not provisioned or accessible in the local cache: "@ + source@,
        (SemanticError::ArtifactRead { file, source }).text() == "failed to read semantic artifact "@
            + file@ + ": "@ + source@,
        (SemanticError::EpisodeTooLong { maximum }).text() == "semantic episode exceeds the fixed "@
            + decimal(maximum as nat) + "-token model context"@,
        (SemanticError::BatchTooLarge { maximum, found: count }).text() == "semantic batch of "@
            + decimal(count as nat) + " cues exceeds the maximum of "@ + decimal(maximum as nat),
        (SemanticError::Tokenizer { detail: source }).text() == "semantic tokenizer failed: "@
            + source@,
        SemanticError::Runtime(source).text() == "semantic ONNX inference failed: "@ + source@,
        (SemanticError::RuntimeConfiguration { detail }).text()
            == "semantic runtime configuration is invalid: "@ + detail@,
        (SemanticError::InvalidModelOutput { detail }).text() == "semantic model output is invalid: "@
            + detail@,
{
}

/// A changed index is told with the count that was expected and then the one that
/// was found, a wrong batch with the number that came and then the number that
/// was asked for, and a foreign profile behind the expected one.
pub proof fn law_index_diagnostics(
    first: u64,
    second: u64,
    asked: usize,
    came: usize,
    expected: EmbeddingProfile,
    found: EmbeddingProfile,
    detail: &'static str,
)
    ensures
        (IndexError::ConcurrentModification {
            expected_episode_count: first,
            actual_episode_count: second,
        }).text() == "semantic index coverage changed from "@ + decimal(first as nat) + " to "@
            + decimal(second as nat) + " episodes"@,
        (IndexError::EmbeddingBatchLength { expected: asked, found: came }).text()
            == "cue embedder returned "@ + decimal(came as nat) + " vectors for a batch of "@
            + decimal(asked as nat) + " cues"@,
        (IndexError::ProfileMismatch { expected, found }).text()
            == "embedding profile mismatch: expected "@ + ("dimension "@ + decimal(
            expected@.1 as nat,
        ) + " and fingerprint "@ + digest_text(expected@.0)) + ", found "@ + ("dimension "@
            + decimal(found@.1 as nat) + " and fingerprint "@ + digest_text(found@.0)),
        (IndexIntegrityError::InvalidCue { cue_id: first, detail }).text()
            == "invalid semantic cue "@ + decimal(first as nat) + ": "@ + detail@,
        (IndexIntegrityError::InvalidPosting { sequence: first, cue_id: second, detail }).text()
            == "invalid semantic posting "@ + decimal(second as nat) + "->"@ + decimal(
            first as nat,
        ) + ": "@ + detail@,
        (IndexIntegrityError::InvalidMetadata { detail }).text() == "invalid metadata: "@ + detail@,
{
}

} // verus!
