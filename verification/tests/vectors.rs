//! Persisted vectors and semantic recall over them.

use nao_m_e::memory::ranking::{BoundedHits, RecallHit};
use nao_m_e::model::{Activation, AtomId, MemoryId};
use nao_m_e::semantic::model::Embedding;
use nao_m_e::semantic::profile::EMBEDDING_DIMENSIONS;
use nao_m_e::semantic_index;
use nao_m_e::sqlite::error::{StoreError, StoreIntegrityError};
use nao_m_e::sqlite::row::Value;
use nao_m_e::sqlite::semantic_recall::{
    cosine_ppm, normalize_query, rank_episode_vectors, squared_norm, verify_snapshot,
};
use nao_m_e::sqlite::vectors::{
    closes_prefix, encode_components, encode_vector, full_audit, validate_vector,
    vector_components, verify_tail, SemanticState, VectorRow, SEMANTIC_VECTOR_BYTES,
};

fn embedding(components: &[i16]) -> Embedding {
    let mut values = vec![0; EMBEDDING_DIMENSIONS];
    values[..components.len()].copy_from_slice(components);
    Embedding::new(values).expect("fixture embedding is canonical")
}

fn encoded(components: &[i16]) -> Vec<u8> {
    embedding(components)
        .values()
        .iter()
        .flat_map(|component| component.to_le_bytes())
        .collect()
}

fn row(sequence: u64, vector: Vec<u8>) -> VectorRow {
    VectorRow {
        sequence: Value::Blob(sequence.to_be_bytes().to_vec()),
        vector: Value::Blob(vector),
    }
}

fn fixture_rows() -> Vec<VectorRow> {
    [
        &[1, 0][..],
        &[4, 3][..],
        &[3, 4][..],
        &[0, 1][..],
        &[-1, 0][..],
        &[1, 0][..],
    ]
    .iter()
    .enumerate()
    .map(|(sequence, components)| row(sequence as u64, encoded(components)))
    .collect()
}

fn memory_id() -> MemoryId {
    MemoryId::new(1).unwrap()
}

fn hit(memory_id: MemoryId, sequence: u64, activation_ppm: u32) -> RecallHit {
    RecallHit {
        atom_id: AtomId::from_parts(memory_id, sequence),
        activation: Activation::from_ppm(activation_ppm).unwrap(),
    }
}

fn recall(
    rows: &[VectorRow],
    count: usize,
    limit: usize,
) -> Result<Vec<(u64, u32)>, StoreError> {
    let hits = rank_episode_vectors(memory_id(), &embedding(&[1, 0]), count, limit, rows)?;
    Ok(hits
        .iter()
        .map(|hit| {
            assert_eq!(hit.atom_id.memory_id(), memory_id());
            (hit.atom_id.sequence(), hit.activation.as_ppm())
        })
        .collect())
}

#[test]
fn vectors_use_canonical_little_endian_i16() {
    let values = [-32_768, -1, 1, 32_767];
    let bytes = encode_components(&values);
    assert_eq!(bytes, [0x00, 0x80, 0xff, 0xff, 0x01, 0x00, 0xff, 0x7f]);
    assert!(semantic_index::format::validate_vector(&bytes, 4));
    assert!(!semantic_index::format::validate_vector(&bytes, 3));
    assert!(!semantic_index::format::validate_vector(&[0, 0, 0, 0], 2));
}

#[test]
fn persisted_vector_codec_is_little_endian_and_roundtrips_extremes() {
    let mut values = vec![0_i16; EMBEDDING_DIMENSIONS];
    values[..5].copy_from_slice(&[-32_767, -1, 0, 1, i16::MAX]);
    let embedding = Embedding::new(values).unwrap();

    let mut encoded = encode_vector(&embedding);

    assert_eq!(
        &encoded[..10],
        &[0x01, 0x80, 0xff, 0xff, 0x00, 0x00, 0x01, 0x00, 0xff, 0x7f]
    );
    validate_vector(0, &encoded).unwrap();
    assert_eq!(
        vector_components(&encoded).into_iter().take(5).collect::<Vec<_>>(),
        [-32_767, -1, 0, 1, i16::MAX]
    );

    encoded[..2].copy_from_slice(&i16::MIN.to_le_bytes());
    assert!(validate_vector(0, &encoded).is_err());
}

#[test]
fn cosine_projection_is_exact_and_nonpositive_scores_are_excluded() {
    let query = embedding(&[1, 0]);
    let query_norm = squared_norm(query.values());
    assert_eq!(query_norm, 1);
    for (candidate, expected) in [
        (&[1, 0][..], 1_000_000),
        (&[4, 3][..], 800_000),
        (&[3, 4][..], 600_000),
        (&[0, 1][..], 0),
        (&[-1, 0][..], 0),
    ] {
        assert_eq!(
            cosine_ppm(0, query.values(), query_norm, &encoded(candidate)).unwrap(),
            expected
        );
    }
}

#[test]
fn cosine_divides_by_the_integer_root_and_stays_within_the_scale() {
    let query = embedding(&[1_000, 1_000]);
    let norm = squared_norm(query.values());
    assert_eq!(norm, 2_000_000);
    assert_eq!(cosine_ppm(0, query.values(), norm, &encoded(&[1_000, 0])), Ok(707_107));
    assert_eq!(cosine_ppm(0, query.values(), norm, &encoded(&[7, 7])), Ok(1_000_000));
    let short = embedding(&[1, 1]);
    assert_eq!(cosine_ppm(0, short.values(), 2, &encoded(&[1, 0])), Ok(1_000_000));
    let wide = Embedding::new(vec![32_767; EMBEDDING_DIMENSIONS]).unwrap();
    let wide_norm = squared_norm(wide.values());
    assert_eq!(wide_norm, 384 * 32_767 * 32_767);
    assert_eq!(
        cosine_ppm(0, wide.values(), wide_norm, &encode_vector(&wide)),
        Ok(1_000_000)
    );
}

#[test]
fn squared_norm_is_exact_for_signed_components() {
    assert_eq!(squared_norm(&[-3, 0, 4]), 25);
}

#[test]
fn semantic_ranking_ties_and_limits_are_exact() {
    let rows = fixture_rows();
    let hits = recall(&rows, 6, 99).unwrap();
    assert_eq!(
        hits,
        [(0, 1_000_000), (5, 1_000_000), (1, 800_000), (2, 600_000)]
    );
    for limit in [1, 2, 3, 4, 10] {
        assert_eq!(recall(&rows, 6, limit).unwrap(), hits[..hits.len().min(limit)]);
    }
    assert_eq!(normalize_query("  Focused\tQUERY  ").unwrap(), "focused query");
}

#[test]
fn bounded_heap_replaces_the_cutoff_and_retains_smaller_atom_ids_on_ties() {
    let memory_id = MemoryId::new(1).unwrap();
    let mut scores = BoundedHits::new(memory_id, 2);
    scores.push(hit(memory_id, 0, 900_000));
    scores.push(hit(memory_id, 1, 500_000));
    scores.push(hit(memory_id, 2, 800_000));
    assert_eq!(
        scores
            .finish()
            .iter()
            .map(|hit| (hit.atom_id.sequence(), hit.activation.as_ppm()))
            .collect::<Vec<_>>(),
        [(0, 900_000), (2, 800_000)]
    );

    let mut ties = BoundedHits::new(memory_id, 2);
    ties.push(hit(memory_id, 9, 500_000));
    ties.push(hit(memory_id, 8, 500_000));
    ties.push(hit(memory_id, 7, 500_000));
    ties.push(hit(memory_id, 10, 500_000));
    assert_eq!(
        ties.finish()
            .iter()
            .map(|hit| hit.atom_id.sequence())
            .collect::<Vec<_>>(),
        [7, 8]
    );
}

#[test]
fn queries_without_content_are_refused() {
    assert!(matches!(
        normalize_query(" \t\n "),
        Err(StoreError::InvalidSemanticQuery { .. })
    ));
    assert_eq!(normalize_query("valid").unwrap(), "valid");
}

#[test]
fn a_changed_snapshot_is_not_ranked() {
    let other = MemoryId::new(2).unwrap();
    assert_eq!(verify_snapshot(memory_id(), 1, memory_id(), 1), Ok(()));
    assert_eq!(
        verify_snapshot(memory_id(), 2, memory_id(), 1),
        Err(StoreError::ConcurrentModification {
            expected_revision: 1,
            actual_revision: 2,
        })
    );
    assert!(verify_snapshot(other, 1, memory_id(), 1).is_err());
}

#[test]
fn corrupt_or_noncontiguous_vectors_fail_closed_without_recall_mutation() {
    let mut zero = fixture_rows();
    zero[0].vector = Value::Blob(vec![0; SEMANTIC_VECTOR_BYTES]);
    assert!(matches!(
        recall(&zero, 6, 10),
        Err(StoreError::InvalidStore(
            StoreIntegrityError::InvalidEpisodeVector { sequence: 0, .. }
        ))
    ));
    let mut gap = fixture_rows();
    gap.remove(1);
    assert_eq!(
        recall(&gap, 6, 10),
        Err(StoreError::InvalidStore(
            StoreIntegrityError::NonContiguousEpisodeVector {
                expected: 1,
                found: 2
            }
        ))
    );
}

#[test]
fn malformed_late_candidates_fail_closed_after_the_heap_cutoff_is_full() {
    let mut minimum = vec![0_u8; SEMANTIC_VECTOR_BYTES];
    minimum[..2].copy_from_slice(&i16::MIN.to_le_bytes());
    for (vector, detail) in [
        (vec![0_u8; SEMANTIC_VECTOR_BYTES - 1], "vector has the wrong byte width"),
        (vec![0_u8; SEMANTIC_VECTOR_BYTES], "vector is all zero"),
        (minimum, "vector contains a component outside the profile range"),
    ] {
        let mut rows = fixture_rows();
        rows[5].vector = Value::Blob(vector);
        assert_eq!(
            recall(&rows, 6, 1),
            Err(StoreError::InvalidStore(StoreIntegrityError::InvalidEpisodeVector {
                sequence: 5,
                detail,
            }))
        );
    }
}

#[test]
fn vector_for_a_pending_episode_cannot_join_the_committed_view() {
    let mut rows = fixture_rows();
    rows.push(row(6, encoded(&[1, 0])));
    assert!(matches!(
        recall(&rows, 6, 10),
        Err(StoreError::InvalidStore(
            StoreIntegrityError::InvalidEpisodeVector { sequence: 6, .. }
        ))
    ));
}

#[test]
fn the_audit_reads_every_vector() {
    assert_eq!(full_audit(&fixture_rows(), 6), Ok(()));
    assert!(full_audit(&fixture_rows(), 5).is_err());
    assert!(full_audit(&fixture_rows(), 7).is_err());
    let mut rows = fixture_rows();
    rows[3].vector = Value::Null;
    assert_eq!(
        full_audit(&rows, 6),
        Err(StoreError::InvalidStore(StoreIntegrityError::InvalidEncoding {
            table: "episode_vectors",
            column: "vector",
        }))
    );
}

#[test]
fn the_last_vector_closes_the_prefix() {
    assert!(closes_prefix(None, 0));
    assert!(closes_prefix(Some(2), 3));
    assert!(!closes_prefix(Some(2), 2));
    assert!(!closes_prefix(None, 1));
    assert_eq!(verify_tail(None, 0), Ok(()));
    assert_eq!(verify_tail(Some(&[0, 0, 0, 0, 0, 0, 0, 2]), 3), Ok(()));
    assert!(verify_tail(Some(&[0, 0, 0, 0, 0, 0, 0, 2]), 4).is_err());
    assert!(verify_tail(None, 1).is_err());
}

#[test]
fn staged_vectors_follow_the_persisted_episodes() {
    let mut state = SemanticState::new();
    state.extend(vec![embedding(&[1]), embedding(&[2, 3])]);
    assert_eq!(state.pending_len(), 2);
    let rows = state.pending_vectors(4).unwrap();
    assert_eq!(rows[0], (4, encoded(&[1])));
    assert_eq!(rows[1], (5, encoded(&[2, 3])));
    state.mark_saved();
    assert_eq!(state.pending_len(), 0);
}
