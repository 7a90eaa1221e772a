//! Which objects a schema defines.

use vstd::prelude::*;

use crate::sqlite::format::{
    definitions, filled, format_listing, listed_objects, object_contents, SchemaObject,
};
use crate::text::{pieces, squeezed};

verus! {

/// The definitions of a schema are its parts between semicolons, squeezed, in
/// their order, and without the empty ones.
pub proof fn law_definitions_are_the_filled_parts(schema: Seq<char>)
    ensures
        definitions(schema) == pieces(schema, ';').map_values(
            |part: Seq<char>| squeezed(part),
        ).filter(|part: Seq<char>| part.len() > 0),
{
    lemma_filled(pieces(schema, ';'));
}

proof fn lemma_filled(all: Seq<Seq<char>>)
    ensures
        filled(all) == all.map_values(|part: Seq<char>| squeezed(part)).filter(
            |part: Seq<char>| part.len() > 0,
        ),
    decreases all.len(),
{
    reveal(Seq::filter);
    let show = |part: Seq<char>| squeezed(part);
    let parts = all.map_values(show);
    if all.len() > 0 {
        lemma_filled(all.drop_last());
        assert(all.drop_last().map_values(show) =~= parts.drop_last());
        assert(parts.last() == squeezed(all.last()));
    }
}

/// Each definition belongs to the object that is listed at its place.
pub proof fn law_objects_have_their_definitions(
    listing: Seq<(&'static str, &'static str, &'static str)>,
    texts: Seq<Seq<char>>,
    place: int,
)
    requires
        0 <= place < listing.len(),
        listing.len() == texts.len(),
    ensures
        listed_objects(listing, texts).len() == listing.len(),
        listed_objects(listing, texts)[place].object_type == listing[place].0@,
        listed_objects(listing, texts)[place].name == listing[place].1@,
        listed_objects(listing, texts)[place].table_name == listing[place].2@,
        listed_objects(listing, texts)[place].normalized_sql == Some(texts[place]),
{
}

/// A store has tables of metadata, symbols, episodes, vectors and feedback, and
/// an index of symbols, in the order of their definitions.
pub proof fn law_stores_have_five_tables_and_an_index()
    ensures
        format_listing() == seq![
            ("table", "memory_meta", "memory_meta"),
            ("table", "symbols", "symbols"),
            ("index", "symbols_value_unique", "symbols"),
            ("table", "episodes", "episodes"),
            ("table", "episode_vectors", "episode_vectors"),
            ("table", "feedback_edges", "feedback_edges"),
        ],
{
}

/// Two schemas are the same exactly if their objects agree one by one in kind,
/// name, table and definition.
pub proof fn law_schemas_are_told_by_their_objects(
    first: Seq<SchemaObject>,
    second: Seq<SchemaObject>,
)
    requires
        object_contents(first) == object_contents(second),
    ensures
        first.len() == second.len(),
        forall|i: int|
            0 <= i < first.len() ==> {
                &&& (#[trigger] first[i]).object_type@ == second[i].object_type@
                &&& first[i].name@ == second[i].name@
                &&& first[i].table_name@ == second[i].table_name@
                &&& first[i].normalized_sql is Some <==> second[i].normalized_sql is Some
                &&& first[i].normalized_sql matches Some(sql) ==> sql@
                    == second[i].normalized_sql->0@
            },
{
    assert(object_contents(first).len() == first.len());
    assert(object_contents(second).len() == second.len());
    assert forall|i: int| 0 <= i < first.len() implies (#[trigger] first[i])@ == second[i]@ by {
        assert(object_contents(first)[i] == first[i]@);
        assert(object_contents(second)[i] == second[i]@);
    }
}

} // verus!
