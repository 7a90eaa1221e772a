//! The catalog of bound key/value cues.

use std::collections::BTreeMap;

use vstd::prelude::*;

use crate::semantic_index::error::{invalid_index, IndexError, IndexIntegrityError};
use crate::semantic_index::format::{
    bad_column, holds_vector, number_of, read_u64, validate_vector,
};
use crate::semantic_index::model::EmbeddingProfile;
use crate::sqlite::row::Value;

verus! {

const CUE_TABLE: &'static str = "semantic_cues";

const NOT_CONTIGUOUS: &'static str = "cue identifiers are not a contiguous zero-based prefix";

const BAD_VECTOR: &'static str = "vector length, encoding, or non-zero invariant is invalid";

const REPEATED_PAIR: &'static str = "bound key/value cue appears more than once";

/// A key and a value identifier.
pub type Pair = (u64, u64);

/// No pair occurs twice.
pub open spec fn distinct_pairs(pairs: Seq<Pair>) -> bool {
    forall|i: int, j: int|
        #![trigger pairs[i], pairs[j]]
        0 <= i < j < pairs.len() ==> pairs[i] != pairs[j]
}

/// The pair is listed.
pub open spec fn lists_pair(pairs: Seq<Pair>, pair: Pair) -> bool {
    exists|i: int| 0 <= i < pairs.len() && #[trigger] pairs[i] == pair
}

/// The place of a listed pair.
pub open spec fn place_of(pairs: Seq<Pair>, pair: Pair) -> int {
    choose|i: int| 0 <= i < pairs.len() && #[trigger] pairs[i] == pair
}

/// A listed pair has one place.
pub proof fn lemma_place(pairs: Seq<Pair>, index: int)
    requires
        distinct_pairs(pairs),
        0 <= index < pairs.len(),
    ensures
        lists_pair(pairs, pairs[index]),
        place_of(pairs, pairs[index]) == index,
{
    assert(pairs[index] == pairs[index]);
    let place = place_of(pairs, pairs[index]);
    assert(0 <= place < pairs.len() && pairs[place] == pairs[index]);
    if place < index {
        assert(pairs[place] != pairs[index]);
    } else if index < place {
        assert(pairs[index] != pairs[place]);
    }
}

/// Cue identifiers by bound pair; identifiers count up from zero.
pub struct CueCatalog {
    ids: BTreeMap<(u64, u64), u64>,
    pairs: Ghost<Seq<Pair>>,
}

impl View for CueCatalog {
    type V = Seq<Pair>;

    closed spec fn view(&self) -> Seq<Pair> {
        self.pairs@
    }
}

impl CueCatalog {
    /// The map gives each listed pair its place.
    #[verifier::type_invariant]
    spec fn numbered(self) -> bool {
        &&& distinct_pairs(self.pairs@)
        &&& self.ids@.len() == self.pairs@.len()
        &&& self.ids@.dom().finite()
        &&& forall|pair: Pair| #[trigger]
            self.ids@.contains_key(pair) <==> lists_pair(self.pairs@, pair)
        &&& forall|i: int|
            0 <= i < self.pairs@.len() ==> self.ids@[#[trigger] self.pairs@[i]] == i
    }

    /// Creates a catalog without cues.
    pub fn new() -> (catalog: CueCatalog)
        ensures
            catalog@ == Seq::<Pair>::empty(),
    {
        let ids: BTreeMap<(u64, u64), u64> = BTreeMap::new();
        CueCatalog { ids, pairs: Ghost(Seq::empty()) }
    }

    /// Returns the number of cues.
    pub fn len(&self) -> (length: usize)
        ensures
            length == self@.len(),
            distinct_pairs(self@),
    {
        proof {
            use_type_invariant(self);
        }
        self.ids.len()
    }

    /// Returns the identifier of a pair.
    pub fn find(&self, pair: Pair) -> (found: Option<u64>)
        ensures
            found is Some <==> lists_pair(self@, pair),
            found matches Some(id) ==> id == place_of(self@, pair) && id < self@.len(),
            distinct_pairs(self@),
    {
        proof {
            use_type_invariant(self);
        }
        match self.ids.get(&pair) {
            Some(id) => {
                proof {
                    let place = place_of(self@, pair);
                    assert(0 <= place < self@.len() && self@[place] == pair);
                }
                Some(*id)
            },
            None => None,
        }
    }

    /// Gives a new pair the next identifier.
    pub fn insert(&mut self, pair: Pair) -> (id: u64)
        requires
            !lists_pair(old(self)@, pair),
        ensures
            final(self)@ == old(self)@.push(pair),
            id == old(self)@.len(),
    {
        proof {
            use_type_invariant(&*self);
        }
        let mut taken = CueCatalog::new();
        std::mem::swap(self, &mut taken);
        let CueCatalog { mut ids, pairs } = taken;
        let ghost before = ids@;
        let ghost listed = pairs@;
        let id: u64 = ids.len() as u64;
        ids.insert(pair, id);
        let ghost all = listed.push(pair);
        proof {
            assert(!before.contains_key(pair));
            assert forall|other: Pair| #[trigger] ids@.contains_key(other) <==> lists_pair(
                all,
                other,
            ) by {
                if before.contains_key(other) {
                    assert(lists_pair(listed, other));
                    let i = choose|i: int| 0 <= i < listed.len() && #[trigger] listed[i] == other;
                    assert(all[i] == other);
                }
                if other == pair {
                    assert(all[listed.len() as int] == pair);
                }
                if lists_pair(all, other) && other != pair {
                    let i = choose|i: int| 0 <= i < all.len() && #[trigger] all[i] == other;
                    assert(listed[i] == other);
                }
            }
            assert forall|i: int, j: int|
                #![trigger all[i], all[j]]
                0 <= i < j < all.len() implies all[i] != all[j] by {
                if j == listed.len() {
                    assert(listed[i] == all[i]);
                } else {
                    assert(listed[i] != listed[j]);
                }
            }
            assert forall|i: int| 0 <= i < all.len() implies ids@[#[trigger] all[i]] == i by {
                if i < listed.len() {
                    assert(all[i] == listed[i]);
                    assert(listed[i] != pair);
                }
            }
        }
        *self = CueCatalog { ids, pairs: Ghost(all) };
        id
    }
}

/// One row of the cue table, in the order of its columns.
#[derive(Clone, Debug, PartialEq, Eq)]
pub struct CueRow {
    /// Cue identifier.
    pub cue_id: Value,
    /// Attribute key.
    pub key_id: Value,
    /// Attribute value.
    pub value_id: Value,
    /// Embedding components.
    pub vector: Value,
}

/// The cue violates a rule.
pub open spec fn bad_cue(cue_id: u64, detail: &'static str) -> IndexError {
    IndexError::InvalidIndex(IndexIntegrityError::InvalidCue { cue_id, detail })
}

/// The pair that a row holds behind the listed ones.
pub open spec fn cue_in(row: CueRow, listed: Seq<Pair>, dimensions: u16) -> Result<
    Pair,
    IndexError,
> {
    match number_of(row.cue_id, "semantic_cues", "cue_id") {
        Err(error) => Err(error),
        Ok(cue_id) => if cue_id != listed.len() {
            Err(bad_cue(cue_id, "cue identifiers are not a contiguous zero-based prefix"))
        } else {
            match number_of(row.key_id, "semantic_cues", "key_id") {
                Err(error) => Err(error),
                Ok(key) => match number_of(row.value_id, "semantic_cues", "value_id") {
                    Err(error) => Err(error),
                    Ok(value) => match row.vector {
                        Value::Blob(bytes) => if !holds_vector(bytes@, dimensions) {
                            Err(
                                bad_cue(
                                    cue_id,
                                    "vector length, encoding, or non-zero invariant is invalid",
                                ),
                            )
                        } else if lists_pair(listed, (key, value)) {
                            Err(bad_cue(cue_id, "bound key/value cue appears more than once"))
                        } else {
                            Ok((key, value))
                        },
                        _ => Err(bad_column("semantic_cues", "vector")),
                    },
                },
            }
        },
    }
}

/// The pairs of the rows in identifier order.
pub open spec fn cues_in(rows: Seq<CueRow>, dimensions: u16) -> Result<Seq<Pair>, IndexError>
    decreases rows.len(),
{
    if rows.len() == 0 {
        Ok(Seq::empty())
    } else {
        match cues_in(rows.drop_last(), dimensions) {
            Err(error) => Err(error),
            Ok(listed) => match cue_in(rows.last(), listed, dimensions) {
                Err(error) => Err(error),
                Ok(pair) => Ok(listed.push(pair)),
            },
        }
    }
}

proof fn lemma_cues_stop(rows: Seq<CueRow>, dimensions: u16, end: int)
    requires
        0 <= end <= rows.len(),
        cues_in(rows.take(end), dimensions) is Err,
    ensures
        cues_in(rows, dimensions) == cues_in(rows.take(end), dimensions),
    decreases rows.len(),
{
    if end < rows.len() {
        assert(rows.drop_last().take(end) =~= rows.take(end));
        lemma_cues_stop(rows.drop_last(), dimensions, end);
    } else {
        assert(rows.take(end) =~= rows);
    }
}

fn invalid_cue<T>(cue_id: u64, detail: &'static str) -> (result: Result<T, IndexError>)
    ensures
        result == Err::<T, IndexError>(bad_cue(cue_id, detail)),
{
    invalid_index(IndexIntegrityError::InvalidCue { cue_id, detail })
}

fn read_cue(row: &CueRow, catalog: &CueCatalog, dimensions: u16) -> (result: Result<
    Pair,
    IndexError,
>)
    ensures
        result == cue_in(*row, catalog@, dimensions),
        result matches Ok(pair) ==> !lists_pair(catalog@, pair),
{
    let cue_id: u64 = match read_u64(&row.cue_id, CUE_TABLE, "cue_id") {
        Ok(cue_id) => cue_id,
        Err(error) => {
            return Err(error);
        },
    };
    if cue_id != catalog.len() as u64 {
        return invalid_cue(cue_id, NOT_CONTIGUOUS);
    }
    let key: u64 = match read_u64(&row.key_id, CUE_TABLE, "key_id") {
        Ok(key) => key,
        Err(error) => {
            return Err(error);
        },
    };
    let value: u64 = match read_u64(&row.value_id, CUE_TABLE, "value_id") {
        Ok(value) => value,
        Err(error) => {
            return Err(error);
        },
    };
    match &row.vector {
        Value::Blob(bytes) => {
            if !validate_vector(bytes.as_slice(), dimensions) {
                return invalid_cue(cue_id, BAD_VECTOR);
            }
        },
        _ => {
            return invalid_index(
                IndexIntegrityError::InvalidEncoding { table: CUE_TABLE, column: "vector" },
            );
        },
    }
    if catalog.find((key, value)).is_some() {
        return invalid_cue(cue_id, REPEATED_PAIR);
    }
    Ok((key, value))
}

/// Reads the cue table in identifier order.
pub fn read_cues(rows: &[CueRow], profile: EmbeddingProfile) -> (result: Result<
    CueCatalog,
    IndexError,
>)
    ensures
        match (cues_in(rows@, profile@.1), result) {
            (Ok(pairs), Ok(catalog)) => catalog@ == pairs,
            (Err(expected), Err(error)) => error == expected,
            _ => false,
        },
{
    let dimensions: u16 = profile.dimensions();
    let mut catalog = CueCatalog::new();
    let mut index: usize = 0;
    assert(rows@.take(0) =~= Seq::empty());
    while index < rows.len()
        invariant
            index <= rows@.len(),
            dimensions == profile@.1,
            cues_in(rows@.take(index as int), dimensions) == Ok::<Seq<Pair>, IndexError>(
                catalog@,
            ),
        decreases rows.len() - index,
    {
        proof {
            let part = rows@.take(index + 1);
            assert(part.drop_last() =~= rows@.take(index as int));
            assert(part.last() == rows@[index as int]);
            if cues_in(part, dimensions) is Err {
                lemma_cues_stop(rows@, dimensions, index + 1);
            }
        }
        match read_cue(&rows[index], &catalog, dimensions) {
            Ok(pair) => {
                catalog.insert(pair);
            },
            Err(error) => {
                return Err(error);
            },
        }
        index += 1;
    }
    assert(rows@.take(rows@.len() as int) =~= rows@);
    Ok(catalog)
}

} // verus!
