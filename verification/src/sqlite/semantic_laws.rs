//! What a similarity is, and which episodes a semantic recall gives.

use vstd::prelude::*;

use crate::memory::ranking::{is_ranking, scores, RecallHit};
use crate::semantic::model::canonical_components;
use crate::sqlite::error::StoreError;
use crate::sqlite::row::{u64_in, Value};
use crate::sqlite::semantic_recall::{
    cosine, dot_product, floor_root, is_root, law_semantic_hits_are_positive_cosines,
    law_semantic_limit_selects_a_prefix, lemma_root_exists, lemma_root_unique, norm, scored_row,
    scored_rows, semantic_field,
};
use crate::sqlite::vectors::{components, vector_fault, VectorRow};

verus! {

/// Setting one component changes a product by the change of that component
/// times the component that it meets.
pub proof fn law_dot_product_is_linear_in_each_component(
    first: Seq<i16>,
    second: Seq<i16>,
    end: nat,
    place: int,
    value: i16,
)
    requires
        end <= first.len(),
        end <= second.len(),
        0 <= place < first.len(),
    ensures
        dot_product(first.update(place, value), second, end) == dot_product(first, second, end)
            + if place < end {
            (value - first[place]) * second[place]
        } else {
            0
        },
        dot_product(second, first.update(place, value), end) == dot_product(second, first, end)
            + if place < end {
            second[place] * (value - first[place])
        } else {
            0
        },
    decreases end,
{
    if end > 0 {
        let last = end - 1;
        law_dot_product_is_linear_in_each_component(first, second, last as nat, place, value);
        if place == last {
            let a = first[place] as int;
            let b = second[place] as int;
            let v = value as int;
            assert(v * b == a * b + (v - a) * b) by (nonlinear_arith);
            assert(b * v == b * a + b * (v - a)) by (nonlinear_arith);
        }
    }
}

/// A vector of zeros meets every vector in zero.
pub proof fn law_zeros_have_no_product(first: Seq<i16>, second: Seq<i16>, end: nat)
    requires
        forall|i: int| 0 <= i < end ==> (#[trigger] first[i]) == 0,
    ensures
        dot_product(first, second, end) == 0,
        dot_product(second, first, end) == 0,
    decreases end,
{
    if end > 0 {
        law_zeros_have_no_product(first, second, (end - 1) as nat);
        let a = first[end - 1] as int;
        let b = second[end - 1] as int;
        assert(a == 0);
        assert(a * b == 0 && b * a == 0) by (nonlinear_arith)
            requires
                a == 0,
        ;
    }
}

/// The norm of a vector is its product with itself, each component counted.
pub proof fn law_norm_is_the_product_with_itself(values: Seq<i16>, place: int, value: i16)
    requires
        0 <= place < values.len(),
    ensures
        norm(values) == dot_product(values, values, values.len()),
        norm(values.update(place, value)) == norm(values) - values[place] * values[place] + value
            * value,
{
    let changed = values.update(place, value);
    law_dot_product_is_linear_in_each_component(values, values, values.len(), place, value);
    law_dot_product_is_linear_in_each_component(values, changed, values.len(), place, value);
    let a = values[place] as int;
    let v = value as int;
    assert((v - a) * v == v * v - a * v) by (nonlinear_arith);
    assert(a * (v - a) == a * v - a * a) by (nonlinear_arith);
}

/// The similarity of two vectors is their product over the root of the product
/// of their norms, in parts per million rounded down and at most one million;
/// it is zero exactly if that share is not at least one part.
pub proof fn law_cosine_is_the_rounded_share(query: Seq<i16>, candidate: Seq<i16>, root: nat)
    requires
        canonical_components(query),
        canonical_components(candidate),
        root * root <= norm(query) * norm(candidate) < (root + 1) * (root + 1),
    ensures
        ({
            let dot = dot_product(query, candidate, query.len());
            let score = cosine(query, candidate);
            &&& root >= 1
            &&& dot <= 0 ==> score == 0
            &&& dot > 0 && dot * 1_000_000 < 1_000_000 * root ==> score * root <= dot * 1_000_000
                < (score + 1) * root
            &&& dot > 0 && dot * 1_000_000 >= 1_000_000 * root ==> score == 1_000_000
            &&& score == 0 <==> dot * 1_000_000 < root
        }),
{
    let dot = dot_product(query, candidate, query.len());
    let score = cosine(query, candidate);
    let product = norm(query) * norm(candidate);
    crate::sqlite::semantic_recall::lemma_positive_norm(query);
    crate::sqlite::semantic_recall::lemma_positive_norm(candidate);
    let a = norm(query);
    let b = norm(candidate);
    assert(a * b >= 1) by (nonlinear_arith)
        requires
            a >= 1,
            b >= 1,
    ;
    lemma_root_exists(product as nat);
    assert(is_root(product as nat, root));
    lemma_root_unique(product as nat, root, floor_root(product as nat));
    if dot > 0 {
        let scaled = dot * 1_000_000;
        let share = scaled / root as int;
        assert(share * root <= scaled < (share + 1) * root && share >= 0) by (nonlinear_arith)
            requires
                scaled > 0,
                root >= 1,
                share == scaled / root as int,
        ;
        if share < 1_000_000 {
            assert(score == share);
            assert(scaled < 1_000_000 * root) by (nonlinear_arith)
                requires
                    scaled < (share + 1) * root,
                    share + 1 <= 1_000_000,
                    root >= 1,
            ;
            if share == 0 {
                assert(scaled < root) by (nonlinear_arith)
                    requires
                        scaled < (share + 1) * root,
                        share == 0,
                ;
            } else {
                assert(scaled >= root) by (nonlinear_arith)
                    requires
                        share * root <= scaled,
                        share >= 1,
                        root >= 1,
                ;
            }
        } else {
            assert(score == 1_000_000);
            assert(scaled >= 1_000_000 * root) by (nonlinear_arith)
                requires
                    share * root <= scaled,
                    share >= 1_000_000,
                    root >= 1,
            ;
        }
    }
}

/// Of two vectors with the same norm, the one with the greater product with the
/// query is never less similar to it.
pub proof fn law_cosine_grows_with_the_product(
    query: Seq<i16>,
    nearer: Seq<i16>,
    farther: Seq<i16>,
)
    requires
        canonical_components(query),
        canonical_components(nearer),
        canonical_components(farther),
        norm(nearer) == norm(farther),
        dot_product(query, farther, query.len()) <= dot_product(query, nearer, query.len()),
    ensures
        cosine(query, farther) <= cosine(query, nearer) <= 1_000_000,
{
    let product = norm(query) * norm(nearer);
    crate::sqlite::semantic_recall::lemma_positive_norm(query);
    crate::sqlite::semantic_recall::lemma_positive_norm(nearer);
    let a = norm(query);
    let b = norm(nearer);
    assert(a * b >= 1) by (nonlinear_arith)
        requires
            a >= 1,
            b >= 1,
    ;
    lemma_root_exists(product as nat);
    let root = floor_root(product as nat);
    law_cosine_is_the_rounded_share(query, nearer, root);
    law_cosine_is_the_rounded_share(query, farther, root);
    let low = cosine(query, farther);
    let high = cosine(query, nearer);
    let less = dot_product(query, farther, query.len()) * 1_000_000;
    let more = dot_product(query, nearer, query.len()) * 1_000_000;
    if less > 0 && more < 1_000_000 * root {
        assert(low < high + 1) by (nonlinear_arith)
            requires
                low * root <= less,
                less <= more,
                more < (high + 1) * root,
                root >= 1,
        ;
        assert(high < 1_000_000) by (nonlinear_arith)
            requires
                high * root <= more,
                more < 1_000_000 * root,
                root >= 1,
        ;
    } else if less > 0 && less < 1_000_000 * root {
        assert(low < 1_000_000) by (nonlinear_arith)
            requires
                low * root <= less,
                less < 1_000_000 * root,
                root >= 1,
        ;
    } else if more > 0 && more < 1_000_000 * root {
        assert(high < 1_000_000) by (nonlinear_arith)
            requires
                high * root <= more,
                more < 1_000_000 * root,
                root >= 1,
        ;
    }
}

/// A scan succeeds exactly if there is one row for each committed episode, row
/// by row under its own sequence number and with a valid vector.
pub proof fn law_scan_needs_one_valid_vector_per_episode(
    query: Seq<i16>,
    rows: Seq<VectorRow>,
    count: nat,
)
    requires
        count <= u64::MAX,
        rows.len() <= u64::MAX,
    ensures
        semantic_field(query, rows, count) is Ok <==> {
            &&& rows.len() == count
            &&& forall|i: int| 0 <= i < rows.len() ==> holds_vector_of(#[trigger] rows[i], i)
        },
{
    lemma_scan_of_valid_rows(query, rows, count);
}

/// The row holds a valid vector under the sequence number.
pub open spec fn holds_vector_of(row: VectorRow, sequence: int) -> bool {
    &&& u64_in(row.sequence, "episode_vectors", "sequence") == Ok::<u64, StoreError>(
        sequence as u64,
    )
    &&& row.vector matches Value::Blob(bytes) && vector_fault(bytes@) is None
}

proof fn lemma_scan_of_valid_rows(query: Seq<i16>, rows: Seq<VectorRow>, count: nat)
    requires
        count <= u64::MAX,
        rows.len() <= u64::MAX,
    ensures
        scored_rows(query, rows, count) is Ok <==> {
            &&& rows.len() <= count
            &&& forall|i: int| 0 <= i < rows.len() ==> holds_vector_of(#[trigger] rows[i], i)
        },
    decreases rows.len(),
{
    if rows.len() > 0 {
        let rest = rows.drop_last();
        lemma_scan_of_valid_rows(query, rest, count);
        let last = rows.len() - 1;
        assert(rows.last() == rows[last]);
        if forall|i: int| 0 <= i < rows.len() ==> holds_vector_of(#[trigger] rows[i], i) {
            assert forall|i: int| 0 <= i < rest.len() implies holds_vector_of(
                #[trigger] rest[i],
                i,
            ) by {
                assert(rest[i] == rows[i]);
            }
            assert(holds_vector_of(rows[last], last));
        }
        if scored_rows(query, rows, count) is Ok {
            assert forall|i: int| 0 <= i < rows.len() implies holds_vector_of(
                #[trigger] rows[i],
                i,
            ) by {
                if i < last {
                    assert(holds_vector_of(rest[i], i));
                }
            }
        }
    }
}

/// The vector of a row.
pub open spec fn row_components(row: VectorRow) -> Seq<i16> {
    match row.vector {
        Value::Blob(bytes) => components(bytes@),
        _ => Seq::empty(),
    }
}

/// Every row whose vector is similar to the query at all is a candidate, with
/// its own similarity, and nothing else is.
pub proof fn law_candidates_are_the_similar_rows(query: Seq<i16>, rows: Seq<VectorRow>, count: nat)
    requires
        count <= u64::MAX,
        semantic_field(query, rows, count) is Ok,
    ensures
        forall|i: int|
            #![trigger rows[i]]
            0 <= i < rows.len() && cosine(query, row_components(rows[i])) > 0 ==> semantic_field(
                query,
                rows,
                count,
            )->Ok_0.contains((i as u64, cosine(query, row_components(rows[i])))),
        forall|k: int|
            0 <= k < semantic_field(query, rows, count)->Ok_0.len() ==> {
                let entry = #[trigger] semantic_field(query, rows, count)->Ok_0[k];
                &&& entry.0 < rows.len()
                &&& entry.1 == cosine(query, row_components(rows[entry.0 as int]))
                &&& entry.1 > 0
            },
{
    lemma_similar_rows(query, rows, count);
    law_semantic_hits_are_positive_cosines(query, rows, count);
    let field = semantic_field(query, rows, count)->Ok_0;
    assert forall|k: int| 0 <= k < field.len() implies {
        let entry = #[trigger] field[k];
        &&& entry.0 < rows.len()
        &&& entry.1 == cosine(query, row_components(rows[entry.0 as int]))
        &&& entry.1 > 0
    } by {
        let entry = field[k];
        assert(scored_row(query, rows[entry.0 as int], entry.0 as nat, count) == Ok::<
            nat,
            StoreError,
        >(entry.1));
    }
}

proof fn lemma_similar_rows(query: Seq<i16>, rows: Seq<VectorRow>, count: nat)
    requires
        count <= u64::MAX,
        rows.len() <= count,
        scored_rows(query, rows, count) is Ok,
    ensures
        forall|i: int|
            #![trigger rows[i]]
            0 <= i < rows.len() && cosine(query, row_components(rows[i])) > 0 ==> scored_rows(
                query,
                rows,
                count,
            )->Ok_0.contains((i as u64, cosine(query, row_components(rows[i])))),
    decreases rows.len(),
{
    if rows.len() > 0 {
        let rest = rows.drop_last();
        lemma_similar_rows(query, rest, count);
        let before = scored_rows(query, rest, count)->Ok_0;
        let after = scored_rows(query, rows, count)->Ok_0;
        assert forall|i: int|
            #![trigger rows[i]]
            0 <= i < rows.len() && cosine(query, row_components(rows[i])) > 0 implies after.contains(
            (i as u64, cosine(query, row_components(rows[i]))),
        ) by {
            let entry = (i as u64, cosine(query, row_components(rows[i])));
            if i < rest.len() {
                assert(rest[i] == rows[i]);
                assert(before.contains(entry));
                let k = before.index_of(entry);
                assert(after[k] == entry);
            } else {
                assert(rows.last() == rows[i]);
                assert(after.last() == entry);
            }
        }
    }
}

/// A semantic recall gives the episodes whose vectors are similar to the query,
/// each once and with its similarity, the most similar first and equally
/// similar ones in sequence order; it leaves out only what the limit leaves no
/// room for.
pub proof fn law_semantic_recall_gives_the_most_similar(
    query: Seq<i16>,
    rows: Seq<VectorRow>,
    count: nat,
    limit: nat,
    hits: Seq<RecallHit>,
)
    requires
        count <= u64::MAX,
        semantic_field(query, rows, count) is Ok,
        is_ranking(semantic_field(query, rows, count)->Ok_0, limit, scores(hits)),
    ensures
        hits.len() <= limit,
        forall|i: int|
            0 <= i < hits.len() ==> {
                let hit = #[trigger] hits[i];
                &&& hit.atom_id.position() < rows.len()
                &&& hit.activation@ == cosine(
                    query,
                    row_components(rows[hit.atom_id.position() as int]),
                )
                &&& hit.activation@ > 0
            },
        forall|i: int, j: int|
            #![trigger hits[i], hits[j]]
            0 <= i < j < hits.len() ==> hits[i].activation@ > hits[j].activation@ || (
            hits[i].activation@ == hits[j].activation@ && hits[i].atom_id.position()
                < hits[j].atom_id.position()),
        forall|row: int|
            #![trigger rows[row]]
            0 <= row < rows.len() && cosine(query, row_components(rows[row])) > 0 ==> {
                ||| exists|i: int|
                    0 <= i < hits.len() && (#[trigger] hits[i]).atom_id.position() == row
                ||| hits.len() == limit && forall|i: int|
                    0 <= i < hits.len() ==> crate::memory::recall_laws::better(
                        (#[trigger] hits[i]).activation@ as int,
                        hits[i].atom_id.position() as int,
                        cosine(query, row_components(rows[row])) as int,
                        row,
                    )
            },
{
    let field = semantic_field(query, rows, count)->Ok_0;
    let ranked = scores(hits);
    law_candidates_are_the_similar_rows(query, rows, count);
    law_semantic_limit_selects_a_prefix(query, rows, count, limit, limit, ranked, ranked);
    assert forall|i: int| 0 <= i < hits.len() implies {
        let hit = #[trigger] hits[i];
        &&& hit.atom_id.position() < rows.len()
        &&& hit.activation@ == cosine(query, row_components(rows[hit.atom_id.position() as int]))
        &&& hit.activation@ > 0
    } by {
        assert(ranked[i] == hits[i]@);
        assert(field.contains(ranked[i]));
        let k = field.index_of(ranked[i]);
        assert(field[k] == ranked[i]);
    }
    assert forall|i: int, j: int|
        #![trigger hits[i], hits[j]]
        0 <= i < j < hits.len() implies hits[i].activation@ > hits[j].activation@ || (
    hits[i].activation@ == hits[j].activation@ && hits[i].atom_id.position()
        < hits[j].atom_id.position()) by {
        assert(ranked[i] == hits[i]@ && ranked[j] == hits[j]@);
    }
    assert forall|row: int|
        #![trigger rows[row]]
        0 <= row < rows.len() && cosine(query, row_components(rows[row])) > 0 implies {
        ||| exists|i: int| 0 <= i < hits.len() && (#[trigger] hits[i]).atom_id.position() == row
        ||| hits.len() == limit && forall|i: int|
            0 <= i < hits.len() ==> crate::memory::recall_laws::better(
                (#[trigger] hits[i]).activation@ as int,
                hits[i].atom_id.position() as int,
                cosine(query, row_components(rows[row])) as int,
                row,
            )
    } by {
        let entry = (row as u64, cosine(query, row_components(rows[row])));
        assert(field.contains(entry));
        let k = field.index_of(entry);
        assert(field[k] == entry);
        if ranked.contains(entry) {
            let i = ranked.index_of(entry);
            assert(hits[i]@ == entry);
        } else {
            if hits.len() != limit {
                crate::memory::recall_laws::lemma_whole_field(field, ranked);
                assert(false);
            }
            assert forall|i: int| 0 <= i < hits.len() implies crate::memory::recall_laws::better(
                (#[trigger] hits[i]).activation@ as int,
                hits[i].atom_id.position() as int,
                cosine(query, row_components(rows[row])) as int,
                row,
            ) by {
                assert(ranked[i] == hits[i]@);
            }
        }
    }
}

/// A persisted vector holds two bytes for each component, the lower one first,
/// and the highest bit of the second byte is the sign.
pub proof fn law_components_are_little_endian(bytes: Seq<u8>, place: int)
    requires
        0 <= place,
        2 * place + 1 < bytes.len(),
    ensures
        components(bytes).len() == bytes.len() / 2,
        components(bytes)[place] + (if bytes[2 * place + 1] >= 128 {
            0x1_0000int
        } else {
            0
        }) == bytes[2 * place] + 256 * bytes[2 * place + 1],
{
}

/// An embedding has 384 components between -32767 and 32767, one of them not zero.
pub proof fn law_canonical_components(values: Seq<i16>)
    ensures
        canonical_components(values) <==> {
            &&& values.len() == 384
            &&& forall|i: int| 0 <= i < values.len() ==> -32_767 <= (#[trigger] values[i]) <= 32_767
            &&& exists|i: int| 0 <= i < values.len() && (#[trigger] values[i]) != 0
        },
{
}

} // verus!
