//! Diagnostic texts.

use nao_m_e::model::{AtomId, GraphError, MemoryError, MemoryId, ModelError, ValueError};
use nao_m_e::semantic_index::error::{IndexError, IndexIntegrityError};
use nao_m_e::semantic_index::model::EmbeddingProfile;
use nao_m_e::sqlite::error::{StoreError, StoreIntegrityError};

fn atom() -> AtomId {
    AtomId::from_parts(MemoryId::new(0xab).unwrap(), 3)
}

const ATOM: &str = "000000000000000000000000000000ab:3";

#[test]
fn kernel_errors_have_exact_texts() {
    assert_eq!(atom().to_string(), ATOM);
    assert_eq!(
        ModelError::EmptyArguments.to_string(),
        "a statement requires at least one argument"
    );
    assert_eq!(
        ValueError::OutOfRange { value: 1_000_001 }.to_string(),
        "fixed-point value 1000001 exceeds 1000000"
    );
    assert_eq!(
        ValueError::ZeroWeight.to_string(),
        "an influence weight must be positive"
    );
    assert_eq!(
        MemoryError::IdExhausted.to_string(),
        "atom identifier space is exhausted"
    );
    assert_eq!(
        GraphError::UnknownAtom(atom()).to_string(),
        format!("unknown atom {ATOM}")
    );
    assert_eq!(
        GraphError::FeedbackTargetLimitExceeded {
            count: 10_001,
            max: 10_000
        }
        .to_string(),
        "feedback target count 10001 exceeds 10000"
    );
    assert_eq!(
        GraphError::SelfEdge(atom()).to_string(),
        format!("atom {ATOM} cannot influence itself")
    );
    assert_eq!(
        GraphError::OutgoingWeightBudgetExceeded {
            from: atom(),
            attempted_ppm: 1_100_000
        }
        .to_string(),
        format!("atom {ATOM} outgoing weight 1100000 exceeds 1000000")
    );
}

#[test]
fn store_errors_have_exact_texts() {
    for (error, expected) in [
        (
            StoreError::Io("denied".to_owned()),
            "SQLite store I/O failed: denied",
        ),
        (
            StoreError::Database("locked".to_owned()),
            "SQLite operation failed: locked",
        ),
        (
            StoreError::Entropy("none".to_owned()),
            "memory ID generation failed: none",
        ),
        (
            StoreError::InvalidStore(StoreIntegrityError::InvalidMemoryId),
            "invalid SQLite memory store: invalid persisted memory ID",
        ),
        (
            StoreError::ConcurrentModification {
                expected_revision: 1,
                actual_revision: -2,
            },
            "SQLite memory revision changed from 1 to -2",
        ),
        (
            StoreError::RevisionExhausted,
            "SQLite memory snapshot revision is exhausted",
        ),
        (
            StoreError::UnknownSymbolId { id: u64::MAX },
            "unknown symbol ID 18446744073709551615",
        ),
        (
            StoreError::SymbolIdExhausted,
            "symbol identifier space is exhausted",
        ),
        (
            StoreError::InvalidSymbolValue {
                index: 4,
                detail: "bad",
            },
            "invalid symbol value at index 4: bad",
        ),
        (
            StoreError::InvalidSemanticQuery { detail: "bad" },
            "invalid semantic query: bad",
        ),
        (
            StoreError::SemanticEncoding {
                detail: "bad".to_owned(),
            },
            "semantic episode encoding failed: bad",
        ),
        (
            StoreError::SemanticQueryEncoding {
                detail: "bad".to_owned(),
            },
            "semantic query encoding failed: bad",
        ),
    ] {
        assert_eq!(error.to_string(), expected);
    }
}

#[test]
fn store_integrity_errors_have_exact_texts() {
    for (error, expected) in [
        (
            StoreIntegrityError::ApplicationMismatch { found: 0x4e41 },
            "unexpected SQLite application ID 0x00004e41",
        ),
        (
            StoreIntegrityError::ApplicationMismatch { found: -1 },
            "unexpected SQLite application ID 0xffffffffffffffff",
        ),
        (
            StoreIntegrityError::MissingMetadata,
            "memory metadata row is missing",
        ),
        (
            StoreIntegrityError::UnsupportedFormatVersion { found: 5 },
            "unsupported SQLite memory format version 5",
        ),
        (
            StoreIntegrityError::QuickCheckFailed {
                detail: "bad".to_owned(),
            },
            "SQLite quick check failed: bad",
        ),
        (
            StoreIntegrityError::IntegrityCheckFailed {
                detail: "bad".to_owned(),
            },
            "SQLite integrity check failed: bad",
        ),
        (
            StoreIntegrityError::ForeignKeyCheckFailed {
                detail: "bad".to_owned(),
            },
            "SQLite foreign-key check failed: bad",
        ),
        (
            StoreIntegrityError::InvalidEncoding {
                table: "episodes",
                column: "sequence",
            },
            "invalid encoding in episodes.sequence",
        ),
        (
            StoreIntegrityError::InvalidMetadata { detail: "bad" },
            "invalid metadata: bad",
        ),
        (
            StoreIntegrityError::NonContiguousEpisodeSequence {
                expected: 1,
                found: 2,
            },
            "expected episode sequence 1, found 2",
        ),
        (
            StoreIntegrityError::InvalidEpisode {
                sequence: 1,
                detail: "bad",
            },
            "invalid episode 1: bad",
        ),
        (
            StoreIntegrityError::InvalidActivation {
                sequence: 1,
                detail: "bad",
            },
            "invalid activation for episode 1: bad",
        ),
        (
            StoreIntegrityError::InvalidRelevance {
                from: 1,
                to: 2,
                detail: "bad",
            },
            "invalid relevance edge 1->2: bad",
        ),
        (
            StoreIntegrityError::InvalidFeedback {
                from: 1,
                to: 2,
                detail: "bad",
            },
            "invalid feedback edge 1->2: bad",
        ),
        (
            StoreIntegrityError::NonContiguousSymbolId {
                expected: 1,
                found: 2,
            },
            "expected symbol ID 1, found 2",
        ),
        (
            StoreIntegrityError::InvalidSymbol {
                id: 1,
                detail: "bad",
            },
            "invalid symbol 1: bad",
        ),
        (
            StoreIntegrityError::NonContiguousEpisodeVector {
                expected: 1,
                found: 2,
            },
            "expected episode vector 1, found 2",
        ),
        (
            StoreIntegrityError::InvalidEpisodeVector {
                sequence: 1,
                detail: "bad",
            },
            "invalid episode vector 1: bad",
        ),
    ] {
        assert_eq!(error.to_string(), expected);
    }
}

#[test]
fn index_errors_have_exact_texts() {
    let expected = EmbeddingProfile::new([7; 32], 3).unwrap();
    let found = EmbeddingProfile::new([8; 32], 4).unwrap();
    assert_eq!(
        IndexError::ProfileMismatch { expected, found }.to_string(),
        format!(
            "embedding profile mismatch: expected dimension 3 and fingerprint {:02x?}, \
             found dimension 4 and fingerprint {:02x?}",
            [7_u8; 32], [8_u8; 32]
        )
    );
    for (error, text) in [
        (
            IndexError::Io("denied".to_owned()),
            "semantic index I/O failed: denied",
        ),
        (
            IndexError::Database("locked".to_owned()),
            "semantic index SQLite operation failed: locked",
        ),
        (
            IndexError::MemoryStore(StoreError::RevisionExhausted),
            "memory store operation failed: SQLite memory snapshot revision is exhausted",
        ),
        (
            IndexError::InvalidIndex(IndexIntegrityError::MemoryMismatch),
            "invalid semantic cue index: semantic index belongs to a different logical memory",
        ),
        (
            IndexError::InvalidIndex(IndexIntegrityError::InvalidCue {
                cue_id: 1,
                detail: "bad",
            }),
            "invalid semantic cue index: invalid semantic cue 1: bad",
        ),
        (
            IndexError::InvalidIndex(IndexIntegrityError::InvalidPosting {
                sequence: 2,
                cue_id: 1,
                detail: "bad",
            }),
            "invalid semantic cue index: invalid semantic posting 1->2: bad",
        ),
        (
            IndexError::Embedder("stopped".to_owned()),
            "cue embedding failed: stopped",
        ),
        (
            IndexError::EmbeddingBatchLength {
                expected: 2,
                found: 1,
            },
            "cue embedder returned 1 vectors for a batch of 2 cues",
        ),
        (
            IndexError::ConcurrentModification {
                expected_episode_count: 1,
                actual_episode_count: 2,
            },
            "semantic index coverage changed from 1 to 2 episodes",
        ),
        (
            IndexError::CueIdExhausted,
            "semantic cue identifier space is exhausted",
        ),
        (
            IndexError::EpisodeCountExhausted,
            "memory episode count exceeds the semantic index range",
        ),
    ] {
        assert_eq!(error.to_string(), text);
    }
}
