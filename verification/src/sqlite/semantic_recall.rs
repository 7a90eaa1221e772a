//! Ranking of persisted episode vectors against a query vector.

use vstd::prelude::*;

use crate::memory::ranking::{
    distinct_sequences, is_ranking, law_ranking_prefix, scores, BoundedHits, RecallHit,
};
use crate::model::{Activation, AtomId, MemoryId};
use crate::parameters::SCALE;
use crate::semantic::model::{canonical_components, Embedding};
use crate::sqlite::error::{invalid_metadata, StoreError, StoreIntegrityError};
use crate::sqlite::normalize::{normalize_symbol, normalized};
use crate::sqlite::row::{bad_encoding, u64_in, Value};
use crate::sqlite::symbols::bad_metadata;
use crate::sqlite::vectors::{
    bad_vector, components, read_components, read_sequence, read_vector, vector_fault, VectorRow,
};

verus! {

const OUTSIDE_PREFIX: &'static str = "vector lies outside the committed episode prefix";

const COUNT_DIFFERS: &'static str = "episode-vector count differs from the committed episode prefix";

const OTHER_MEMORY: &'static str = "persisted memory ID differs from the owned memory";

/// `u128::isqrt` gives the square root rounded down.
pub assume_specification[ u128::isqrt ](value: u128) -> (root: u128)
    ensures
        is_root(value as nat, root as nat),
;

/// The number is the square root rounded down.
pub open spec fn is_root(value: nat, root: nat) -> bool {
    root * root <= value && value < (root + 1) * (root + 1)
}

/// The square root rounded down.
pub open spec fn floor_root(value: nat) -> nat {
    choose|root: nat| is_root(value, root)
}

/// A number has one square root rounded down.
pub proof fn lemma_root_unique(value: nat, first: nat, second: nat)
    requires
        is_root(value, first),
        is_root(value, second),
    ensures
        first == second,
{
    if first < second {
        assert((first + 1) * (first + 1) <= second * second) by (nonlinear_arith)
            requires
                first + 1 <= second,
        ;
    } else if second < first {
        assert((second + 1) * (second + 1) <= first * first) by (nonlinear_arith)
            requires
                second + 1 <= first,
        ;
    }
}

/// Every number has a square root rounded down, and a positive one a positive root.
pub proof fn lemma_root_exists(value: nat)
    ensures
        is_root(value, floor_root(value)),
        value >= 1 ==> floor_root(value) >= 1,
    decreases value,
{
    assert((0nat + 1) * (0nat + 1) == 1 && 0nat * 0nat == 0) by (nonlinear_arith);
    if value == 0 {
        assert(is_root(0, 0));
    } else {
        lemma_root_exists((value - 1) as nat);
        let root = floor_root((value - 1) as nat);
        if value < (root + 1) * (root + 1) {
            assert(is_root(value, root));
        } else {
            assert((root + 1) * (root + 1) < (root + 2) * (root + 2)) by (nonlinear_arith);
            assert(is_root(value, root + 1));
        }
    }
}

/// The sum of the products of the first `end` components.
pub open spec fn dot_product(first: Seq<i16>, second: Seq<i16>, end: nat) -> int
    decreases end,
{
    if end == 0 {
        0
    } else {
        dot_product(first, second, (end - 1) as nat) + first[end - 1] * second[end - 1]
    }
}

/// The sum of the squares of the components.
pub open spec fn norm(values: Seq<i16>) -> int {
    dot_product(values, values, values.len())
}

/// The cosine of two vectors in parts per million, at least zero and at most one.
pub open spec fn cosine(query: Seq<i16>, candidate: Seq<i16>) -> nat {
    let dot = dot_product(query, candidate, query.len());
    if dot <= 0 {
        0
    } else {
        let score = dot * SCALE / floor_root((norm(query) * norm(candidate)) as nat) as int;
        if score < SCALE {
            score as nat
        } else {
            SCALE as nat
        }
    }
}

proof fn lemma_square_bounds(value: i16)
    ensures
        0 <= value * value <= 0x4000_0000,
        value != 0 ==> value * value >= 1,
{
    assert(0 <= value * value <= 0x4000_0000) by (nonlinear_arith)
        requires
            -0x8000 <= value <= 0x7fff,
    ;
    if value != 0 {
        assert(value * value >= 1) by (nonlinear_arith)
            requires
                value != 0,
        ;
    }
}

proof fn lemma_product_bounds(first: i16, second: i16)
    ensures
        -0x4000_0000 <= first * second <= 0x4000_0000,
{
    assert(-0x4000_0000 <= first * second <= 0x4000_0000) by (nonlinear_arith)
        requires
            -0x8000 <= first <= 0x7fff,
            -0x8000 <= second <= 0x7fff,
    ;
}

proof fn lemma_norm_bounds(values: Seq<i16>, end: nat)
    requires
        end <= values.len(),
    ensures
        0 <= dot_product(values, values, end) <= end * 0x4000_0000,
        forall|i: int|
            0 <= i < end && (#[trigger] values[i]) != 0 ==> dot_product(values, values, end) >= 1,
    decreases end,
{
    if end > 0 {
        lemma_norm_bounds(values, (end - 1) as nat);
        lemma_square_bounds(values[end - 1]);
        assert forall|i: int| 0 <= i < end && (#[trigger] values[i]) != 0 implies dot_product(
            values,
            values,
            end,
        ) >= 1 by {
            if i < end - 1 {
                assert(dot_product(values, values, (end - 1) as nat) >= 1);
            }
        }
    }
}

/// A vector with a component that is not zero has a positive norm.
pub proof fn lemma_positive_norm(values: Seq<i16>)
    requires
        canonical_components(values),
    ensures
        norm(values) >= 1,
{
    lemma_norm_bounds(values, values.len());
    let i = choose|i: int| 0 <= i < values.len() && (#[trigger] values[i]) != 0;
    assert(values[i] != 0);
}

proof fn lemma_norm_monotone(values: Seq<i16>, small: nat, large: nat)
    requires
        small <= large,
    ensures
        dot_product(values, values, small) <= dot_product(values, values, large),
    decreases large,
{
    if small < large {
        lemma_norm_monotone(values, small, (large - 1) as nat);
        lemma_square_bounds(values[large - 1]);
    }
}

proof fn lemma_dot_bounds(first: Seq<i16>, second: Seq<i16>, end: nat)
    ensures
        -(end * 0x4000_0000) <= dot_product(first, second, end) <= end * 0x4000_0000,
    decreases end,
{
    if end > 0 {
        lemma_dot_bounds(first, second, (end - 1) as nat);
        lemma_product_bounds(first[end - 1], second[end - 1]);
    }
}

proof fn lemma_dot_symmetric(first: Seq<i16>, second: Seq<i16>, end: nat)
    ensures
        dot_product(first, second, end) == dot_product(second, first, end),
    decreases end,
{
    if end > 0 {
        lemma_dot_symmetric(first, second, (end - 1) as nat);
        assert(first[end - 1] * second[end - 1] == second[end - 1] * first[end - 1])
            by (nonlinear_arith);
    }
}

/// Similarity is between zero and one million, does not depend on which
/// vector is the query, and is one million for a vector and itself.
pub proof fn law_cosine_is_a_bounded_symmetric_similarity(first: Seq<i16>, second: Seq<i16>)
    requires
        canonical_components(first),
        canonical_components(second),
    ensures
        cosine(first, second) <= SCALE,
        cosine(first, second) == cosine(second, first),
        cosine(first, first) == SCALE,
{
    lemma_dot_symmetric(first, second, first.len());
    let a = norm(first);
    let b = norm(second);
    assert(a * b == b * a) by (nonlinear_arith);
    lemma_norm_bounds(first, first.len());
    let i = choose|i: int| 0 <= i < first.len() && (#[trigger] first[i]) != 0;
    assert(a >= 1);
    let whole = a as nat;
    assert(is_root((a * a) as nat, whole)) by {
        assert(a * a < (a + 1) * (a + 1)) by (nonlinear_arith)
            requires
                a >= 1,
        ;
        assert(a * a >= 0) by (nonlinear_arith);
    }
    lemma_root_unique((a * a) as nat, whole, floor_root((a * a) as nat));
    assert(a * SCALE / a == SCALE) by (nonlinear_arith)
        requires
            a >= 1,
    ;
    if dot_product(first, second, first.len()) > 0 {
        lemma_norm_bounds(second, second.len());
        let j = choose|j: int| 0 <= j < second.len() && (#[trigger] second[j]) != 0;
        assert(b >= 1);
        assert(a * b >= 1) by (nonlinear_arith)
            requires
                a >= 1,
                b >= 1,
        ;
        let root = floor_root((a * b) as nat);
        lemma_root_exists((a * b) as nat);
        let dot = dot_product(first, second, first.len());
        assert(dot * SCALE / root as int >= 0) by (nonlinear_arith)
            requires
                dot > 0,
                root >= 1,
        ;
    }
}

/// Returns the sum of the squares of the components.
pub fn squared_norm(values: &[i16]) -> (sum: u64)
    requires
        norm(values@) <= u64::MAX,
    ensures
        sum == norm(values@),
{
    let mut sum: u64 = 0;
    let mut index: usize = 0;
    while index < values.len()
        invariant
            index <= values@.len(),
            norm(values@) <= u64::MAX,
            sum == dot_product(values@, values@, index as nat),
        decreases values.len() - index,
    {
        let value: i64 = values[index] as i64;
        proof {
            lemma_square_bounds(values@[index as int]);
            lemma_norm_monotone(values@, (index + 1) as nat, values@.len());
        }
        sum = sum + (value * value) as u64;
        index += 1;
    }
    sum
}

/// Returns the similarity of a query and a persisted vector in parts per million.
pub fn cosine_ppm(sequence: u64, query: &[i16], query_norm: u64, candidate: &[u8]) -> (result:
    Result<u32, StoreError>)
    requires
        canonical_components(query@),
        query_norm == norm(query@),
    ensures
        match (vector_fault(candidate@), result) {
            (None, Ok(score)) => score as nat == cosine(query@, components(candidate@)) && score
                <= SCALE,
            (Some(detail), Err(error)) => error == bad_vector(sequence, detail),
            _ => false,
        },
{
    let values = match read_components(sequence, candidate) {
        Ok(values) => values,
        Err(error) => {
            return Err(error);
        },
    };
    let mut dot: i64 = 0;
    let mut index: usize = 0;
    while index < 384
        invariant
            index <= 384,
            query@.len() == 384,
            values@.len() == 384,
            dot == dot_product(query@, values@, index as nat),
        decreases 384 - index,
    {
        proof {
            lemma_dot_bounds(query@, values@, index as nat);
            lemma_dot_bounds(query@, values@, (index + 1) as nat);
            lemma_product_bounds(query@[index as int], values@[index as int]);
        }
        dot = dot + (query[index] as i64) * (values[index] as i64);
        index += 1;
    }
    if dot <= 0 {
        return Ok(0);
    }
    proof {
        lemma_norm_bounds(values@, values@.len());
        lemma_norm_bounds(query@, query@.len());
        lemma_dot_bounds(query@, values@, 384);
        let i = choose|i: int| 0 <= i < query@.len() && (#[trigger] query@[i]) != 0;
        assert(norm(query@) >= 1);
    }
    let candidate_norm: u64 = squared_norm(values.as_slice());
    let ghost product = norm(query@) * norm(values@);
    proof {
        let j = choose|j: int| 0 <= j < values@.len() && (#[trigger] values@[j]) != 0;
        assert(norm(values@) >= 1);
        let a = norm(query@);
        let b = norm(values@);
        assert(1 <= a * b <= 412_316_860_416 * 412_316_860_416) by (nonlinear_arith)
            requires
                1 <= a <= 412_316_860_416,
                1 <= b <= 412_316_860_416,
        ;
    }
    let denominator: u128 = ((query_norm as u128) * (candidate_norm as u128)).isqrt();
    proof {
        lemma_root_unique(product as nat, denominator as nat, floor_root(product as nat));
        lemma_root_exists(product as nat);
        assert(dot * SCALE <= 412_316_860_416 * 1_000_000);
    }
    let score: u128 = (dot as u128) * (SCALE as u128) / denominator;
    if score < SCALE as u128 {
        Ok(score as u32)
    } else {
        Ok(SCALE)
    }
}

/// A row's vector violates a rule, or the score that it earns.
pub open spec fn scored_row(query: Seq<i16>, row: VectorRow, expected: nat, count: nat) -> Result<
    nat,
    StoreError,
> {
    match u64_in(row.sequence, "episode_vectors", "sequence") {
        Err(error) => Err(error),
        Ok(sequence) => if sequence != expected {
            Err(
                StoreError::InvalidStore(
                    StoreIntegrityError::NonContiguousEpisodeVector {
                        expected: expected as u64,
                        found: sequence,
                    },
                ),
            )
        } else if sequence >= count {
            Err(bad_vector(sequence, "vector lies outside the committed episode prefix"))
        } else {
            match row.vector {
                Value::Blob(bytes) => match vector_fault(bytes@) {
                    Some(detail) => Err(bad_vector(sequence, detail)),
                    None => Ok(cosine(query, components(bytes@))),
                },
                _ => Err(bad_encoding("episode_vectors", "vector")),
            }
        },
    }
}

/// The episodes with a positive score, in sequence order.
pub open spec fn scored_rows(query: Seq<i16>, rows: Seq<VectorRow>, count: nat) -> Result<
    Seq<(u64, nat)>,
    StoreError,
>
    decreases rows.len(),
{
    if rows.len() == 0 {
        Ok(Seq::empty())
    } else {
        match scored_rows(query, rows.drop_last(), count) {
            Err(error) => Err(error),
            Ok(candidates) => match scored_row(
                query,
                rows.last(),
                (rows.len() - 1) as nat,
                count,
            ) {
                Err(error) => Err(error),
                Ok(score) => if score == 0 {
                    Ok(candidates)
                } else {
                    Ok(candidates.push(((rows.len() - 1) as u64, score)))
                },
            },
        }
    }
}

/// The episodes with a positive score, if the rows hold one vector for each
/// committed episode.
pub open spec fn semantic_field(query: Seq<i16>, rows: Seq<VectorRow>, count: nat) -> Result<
    Seq<(u64, nat)>,
    StoreError,
> {
    match scored_rows(query, rows, count) {
        Err(error) => Err(error),
        Ok(candidates) => if rows.len() == count {
            Ok(candidates)
        } else {
            Err(bad_metadata("episode-vector count differs from the committed episode prefix"))
        },
    }
}

proof fn lemma_scoring_stops(query: Seq<i16>, rows: Seq<VectorRow>, count: nat, end: int)
    requires
        0 <= end <= rows.len(),
        scored_rows(query, rows.take(end), count) is Err,
    ensures
        scored_rows(query, rows, count) == scored_rows(query, rows.take(end), count),
    decreases rows.len(),
{
    if end < rows.len() {
        assert(rows.drop_last().take(end) =~= rows.take(end));
        lemma_scoring_stops(query, rows.drop_last(), count, end);
    } else {
        assert(rows.take(end) =~= rows);
    }
}

proof fn lemma_scored_sequences(query: Seq<i16>, rows: Seq<VectorRow>, count: nat)
    requires
        rows.len() <= u64::MAX,
        scored_rows(query, rows, count) is Ok,
    ensures
        forall|i: int|
            0 <= i < scored_rows(query, rows, count)->Ok_0.len() ==> (#[trigger] scored_rows(
                query,
                rows,
                count,
            )->Ok_0[i]).0 < rows.len(),
    decreases rows.len(),
{
    if rows.len() > 0 {
        lemma_scored_sequences(query, rows.drop_last(), count);
    }
}

/// Ranks the episodes by the similarity of their vectors to the query.
///
/// The rows are those of the whole table in sequence order; there must be one
/// for each committed episode. Episodes without positive similarity are left out.
pub fn rank_episode_vectors(
    memory_id: MemoryId,
    query: &Embedding,
    expected_episode_count: usize,
    limit: usize,
    rows: &[VectorRow],
) -> (result: Result<Vec<RecallHit>, StoreError>)
    ensures
        match (semantic_field(query@, rows@, expected_episode_count as nat), result) {
            (Ok(candidates), Ok(hits)) => {
                &&& is_ranking(candidates, limit as nat, scores(hits@))
                &&& forall|i: int|
                    0 <= i < hits@.len() ==> (#[trigger] hits@[i]).atom_id.memory() == memory_id
            },
            (Err(expected), Err(error)) => error == expected,
            _ => false,
        },
{
    let values = query.values();
    proof {
        lemma_norm_bounds(values@, values@.len());
    }
    let query_norm: u64 = squared_norm(values);
    let mut ranking = BoundedHits::new(memory_id, limit);
    let ghost count = expected_episode_count as nat;
    let mut index: usize = 0;
    assert(rows@.take(0) =~= Seq::empty());
    while index < rows.len()
        invariant
            index <= rows@.len(),
            count == expected_episode_count,
            values@ == query@,
            canonical_components(values@),
            query_norm == norm(values@),
            ranking.wf(),
            ranking.memory() == memory_id,
            ranking.bound() == limit,
            scored_rows(query@, rows@.take(index as int), count) == Ok::<
                Seq<(u64, nat)>,
                StoreError,
            >(ranking.candidates()),
        decreases rows.len() - index,
    {
        proof {
            let part = rows@.take(index + 1);
            assert(part.drop_last() =~= rows@.take(index as int));
            assert(part.last() == rows@[index as int]);
            if scored_rows(query@, part, count) is Err {
                lemma_scoring_stops(query@, rows@, count, index + 1);
            }
            lemma_scored_sequences(query@, rows@.take(index as int), count);
        }
        let expected: u64 = index as u64;
        let sequence: u64 = match read_sequence(&rows[index]) {
            Ok(sequence) => sequence,
            Err(error) => {
                return Err(error);
            },
        };
        if sequence != expected {
            return Err(
                StoreError::InvalidStore(
                    StoreIntegrityError::NonContiguousEpisodeVector { expected, found: sequence },
                ),
            );
        }
        if sequence >= expected_episode_count as u64 {
            return Err(
                StoreError::InvalidStore(
                    StoreIntegrityError::InvalidEpisodeVector { sequence, detail: OUTSIDE_PREFIX },
                ),
            );
        }
        let bytes = match read_vector(&rows[index]) {
            Ok(bytes) => bytes,
            Err(error) => {
                return Err(error);
            },
        };
        let score: u32 = match cosine_ppm(sequence, values, query_norm, bytes) {
            Ok(score) => score,
            Err(error) => {
                return Err(error);
            },
        };
        let activation = match Activation::from_ppm(score) {
            Ok(activation) => activation,
            Err(_) => Activation::zero(),
        };
        let atom_id = AtomId::from_parts(memory_id, sequence);
        proof {
            crate::model::lemma_atom_id_parts(memory_id, sequence);
        }
        ranking.push(RecallHit { atom_id, activation });
        index += 1;
    }
    assert(rows@.take(rows@.len() as int) =~= rows@);
    if rows.len() != expected_episode_count {
        return invalid_metadata(COUNT_DIFFERS);
    }
    Ok(ranking.finish())
}

/// Normalizes a free-text query by the rules of symbol texts.
pub fn normalize_query(query: &str) -> (result: Result<String, StoreError>)
    ensures
        match (normalized(query@), result) {
            (Ok(expected), Ok(text)) => text@ == expected,
            (Err(rule), Err(error)) => error == (StoreError::InvalidSemanticQuery {
                detail: rule.rule(),
            }),
            _ => false,
        },
{
    match normalize_symbol(query) {
        Ok(text) => Ok(text),
        Err(error) => Err(StoreError::InvalidSemanticQuery { detail: error.detail() }),
    }
}

/// Requires the database to hold the snapshot that this session works on.
pub fn verify_snapshot(
    actual_memory_id: MemoryId,
    actual_revision: i64,
    memory_id: MemoryId,
    expected_revision: i64,
) -> (result: Result<(), StoreError>)
    ensures
        result == if actual_memory_id@ != memory_id@ {
            Err::<(), StoreError>(bad_metadata("persisted memory ID differs from the owned memory"))
        } else if actual_revision != expected_revision {
            Err(StoreError::ConcurrentModification { expected_revision, actual_revision })
        } else {
            Ok(())
        },
{
    if actual_memory_id.get() != memory_id.get() {
        return invalid_metadata(OTHER_MEMORY);
    }
    if actual_revision != expected_revision {
        return Err(StoreError::ConcurrentModification { expected_revision, actual_revision });
    }
    Ok(())
}

/// Semantic recall ranks each episode at most once, and a smaller limit gives
/// the first hits of a larger one; what it returns depends on the query and the
/// vectors alone.
pub proof fn law_semantic_limit_selects_a_prefix(
    query: Seq<i16>,
    rows: Seq<VectorRow>,
    count: nat,
    small: nat,
    large: nat,
    fewer: Seq<(u64, nat)>,
    more: Seq<(u64, nat)>,
)
    requires
        count <= u64::MAX,
        semantic_field(query, rows, count) is Ok,
        small <= large,
        is_ranking(semantic_field(query, rows, count)->Ok_0, small, fewer),
        is_ranking(semantic_field(query, rows, count)->Ok_0, large, more),
    ensures
        distinct_sequences(semantic_field(query, rows, count)->Ok_0),
        fewer == more.take(fewer.len() as int),
        small == large ==> fewer == more,
{
    lemma_scored_distinct(query, rows, count);
    law_ranking_prefix(semantic_field(query, rows, count)->Ok_0, small, large, fewer, more);
}

proof fn lemma_scored_distinct(query: Seq<i16>, rows: Seq<VectorRow>, count: nat)
    requires
        rows.len() <= u64::MAX,
        scored_rows(query, rows, count) is Ok,
    ensures
        distinct_sequences(scored_rows(query, rows, count)->Ok_0),
    decreases rows.len(),
{
    if rows.len() > 0 {
        lemma_scored_distinct(query, rows.drop_last(), count);
        lemma_scored_sequences(query, rows.drop_last(), count);
    }
}

/// Only episodes whose vector points toward the query are recalled: the score
/// of a candidate is the cosine of its own vector, and it is positive.
pub proof fn law_semantic_hits_are_positive_cosines(query: Seq<i16>, rows: Seq<VectorRow>, count: nat)
    requires
        count <= u64::MAX,
        semantic_field(query, rows, count) is Ok,
    ensures
        forall|i: int|
            0 <= i < semantic_field(query, rows, count)->Ok_0.len() ==> {
                let hit = #[trigger] semantic_field(query, rows, count)->Ok_0[i];
                &&& hit.0 < count
                &&& hit.1 > 0
                &&& scored_row(query, rows[hit.0 as int], hit.0 as nat, count) == Ok::<
                    nat,
                    StoreError,
                >(hit.1)
            },
{
    lemma_scores_of_rows(query, rows, count);
}

proof fn lemma_scores_of_rows(query: Seq<i16>, rows: Seq<VectorRow>, count: nat)
    requires
        rows.len() <= u64::MAX,
        scored_rows(query, rows, count) is Ok,
    ensures
        forall|i: int|
            0 <= i < scored_rows(query, rows, count)->Ok_0.len() ==> {
                let hit = #[trigger] scored_rows(query, rows, count)->Ok_0[i];
                &&& hit.0 < rows.len()
                &&& hit.1 > 0
                &&& scored_row(query, rows[hit.0 as int], hit.0 as nat, count) == Ok::<
                    nat,
                    StoreError,
                >(hit.1)
            },
    decreases rows.len(),
{
    if rows.len() > 0 {
        lemma_scores_of_rows(query, rows.drop_last(), count);
    }
}

} // verus!
