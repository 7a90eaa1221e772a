//! How the texts of drafts are listed, and what their identifiers become.

use vstd::prelude::*;

use crate::attribute::EpisodeDraft;
use crate::cli::attributes::{
    attribute_texts, drafts_episode, flat_attributes, flat_drafts, next_attributes, next_episodes,
    resolved_episodes, shapes_draft, AttributeText, EpisodeShape, TextEpisodeDraft,
};
use crate::model::TimestampMs;

verus! {

/// A key and then its values.
pub open spec fn key_and_values<T>(attribute: (T, Seq<T>)) -> Seq<T> {
    seq![attribute.0] + attribute.1
}

/// The attributes one after the other, each as its key and then its values.
pub open spec fn in_line<T>(attributes: Seq<(T, Seq<T>)>) -> Seq<T> {
    attributes.map_values(|attribute: (T, Seq<T>)| key_and_values(attribute)).flatten()
}

proof fn lemma_in_line_push<T>(attributes: Seq<(T, Seq<T>)>, attribute: (T, Seq<T>))
    ensures
        in_line(Seq::<(T, Seq<T>)>::empty()) == Seq::<T>::empty(),
        in_line(attributes.push(attribute)) == in_line(attributes) + key_and_values(attribute),
{
    let line = |attribute: (T, Seq<T>)| key_and_values(attribute);
    let none = Seq::<(T, Seq<T>)>::empty().map_values(line);
    none.lemma_flatten_and_flatten_alt_are_equivalent();
    let lists = attributes.push(attribute).map_values(line);
    lists.lemma_flatten_and_flatten_alt_are_equivalent();
    attributes.map_values(line).lemma_flatten_and_flatten_alt_are_equivalent();
    assert(lists.drop_last() =~= attributes.map_values(line));
}

/// The listed texts of an episode are its attributes in order, each as its key
/// and then its values.
pub proof fn law_attributes_are_listed_in_order(attributes: Seq<AttributeText>)
    ensures
        flat_attributes(attributes) == in_line(attributes),
    decreases attributes.len(),
{
    if attributes.len() == 0 {
        lemma_in_line_push(attributes, (Seq::<char>::empty(), Seq::empty()));
        assert(attributes =~= Seq::empty());
    } else {
        law_attributes_are_listed_in_order(attributes.drop_last());
        lemma_in_line_push(attributes.drop_last(), attributes.last());
        assert(attributes.drop_last().push(attributes.last()) =~= attributes);
        assert(flat_attributes(attributes) =~= in_line(attributes.drop_last()) + key_and_values(
            attributes.last(),
        ));
    }
}

/// The listed texts of drafts are those of each draft, draft by draft.
pub proof fn law_drafts_are_listed_in_order(drafts: Seq<TextEpisodeDraft>)
    ensures
        flat_drafts(drafts) == drafts.map_values(
            |draft: TextEpisodeDraft| in_line(attribute_texts(draft.attributes@)),
        ).flatten(),
    decreases drafts.len(),
{
    let line = |draft: TextEpisodeDraft| in_line(attribute_texts(draft.attributes@));
    let lists = drafts.map_values(line);
    lists.lemma_flatten_and_flatten_alt_are_equivalent();
    if drafts.len() > 0 {
        law_drafts_are_listed_in_order(drafts.drop_last());
        law_attributes_are_listed_in_order(attribute_texts(drafts.last().attributes@));
        assert(drafts.drop_last().map_values(line) =~= lists.drop_last());
        lists.drop_last().lemma_flatten_and_flatten_alt_are_equivalent();
    }
}

/// A draft keeps the timestamp that was given, and takes the default only where
/// none was; each of its attributes keeps its number of values.
pub proof fn law_given_timestamps_are_kept(
    shape: EpisodeShape,
    draft: TextEpisodeDraft,
    default: TimestampMs,
)
    requires
        shapes_draft(shape, draft, default),
    ensures
        draft.timestamp matches Some(timestamp) ==> shape.timestamp == timestamp,
        draft.timestamp is None ==> shape.timestamp == default,
        shape.value_counts@.len() == draft.attributes@.len(),
        forall|i: int|
            0 <= i < draft.attributes@.len() ==> (#[trigger] shape.value_counts@[i])
                == draft.attributes@[i].values@.len(),
{
}

/// A resolved draft has the timestamp of its shape, and binds a value to a key
/// exactly if one of the resolved attributes does.
pub proof fn law_resolved_drafts_bind_their_attributes(
    draft: EpisodeDraft,
    shape: EpisodeShape,
    attributes: Seq<(u64, Seq<u64>)>,
    key: u64,
    value: u64,
)
    requires
        drafts_episode(draft, shape, attributes),
    ensures
        draft.content().timestamp == shape.timestamp,
        draft.content().pairs.contains((key, value)) <==> exists|i: int|
            0 <= i < attributes.len() && (#[trigger] attributes[i]).0 == key
                && attributes[i].1.contains(value),
{
}

/// The attributes are the identifiers from a position to the reached one.
spec fn takes(ids: Seq<u64>, position: nat, found: (Seq<(u64, Seq<u64>)>, nat)) -> bool {
    &&& position <= found.1 <= ids.len()
    &&& in_line(found.0) == ids.subrange(position as int, found.1 as int)
}

proof fn lemma_attributes_take(ids: Seq<u64>, position: nat, counts: Seq<usize>)
    requires
        position <= ids.len(),
        next_attributes(ids, position, counts) is Ok,
    ensures
        takes(ids, position, next_attributes(ids, position, counts)->Ok_0),
        have_counts(next_attributes(ids, position, counts)->Ok_0.0, counts),
    decreases counts.len(),
{
    if counts.len() == 0 {
        lemma_in_line_push(Seq::<(u64, Seq<u64>)>::empty(), (0u64, Seq::empty()));
        assert(ids.subrange(position as int, position as int) =~= Seq::empty());
        assert(takes(ids, position, (Seq::empty(), position)));
    } else {
        let rest = counts.drop_last();
        lemma_attributes_take(ids, position, rest);
        let (before, middle) = next_attributes(ids, position, rest)->Ok_0;
        let (attributes, reached) = next_attributes(ids, position, counts)->Ok_0;
        assert(attributes.len() == counts.len());
        assert(counts[counts.len() - 1] == counts.last());
        assert(attributes.last() == attributes[attributes.len() - 1]);
        lemma_in_line_push(before, attributes.last());
        assert(attributes =~= before.push(attributes.last()));
        assert(key_and_values(attributes.last()) =~= ids.subrange(middle as int, reached as int));
        assert(ids.subrange(position as int, reached as int) =~= ids.subrange(
            position as int,
            middle as int,
        ) + ids.subrange(middle as int, reached as int));
        assert(in_line(attributes) == ids.subrange(position as int, reached as int));
        assert(have_counts(before, rest));
        assert(takes(ids, position, (attributes, reached)));
        assert forall|i: int| 0 <= i < attributes.len() implies (#[trigger] attributes[i]).1.len()
            == counts[i] && counts[i] > 0 by {
            if i < rest.len() {
                assert(attributes[i] == before[i]);
                assert(rest[i] == counts[i]);
            }
        }
    }
}

proof fn lemma_episodes_take(ids: Seq<u64>, shapes: Seq<EpisodeShape>)
    requires
        next_episodes(ids, shapes) is Ok,
    ensures
        ({
            let (episodes, reached) = next_episodes(ids, shapes)->Ok_0;
            &&& reached <= ids.len()
            &&& episodes.len() == shapes.len()
            &&& episodes.map_values(
                |attributes: Seq<(u64, Seq<u64>)>| in_line(attributes),
            ).flatten() == ids.take(reached as int)
            &&& forall|i: int|
                0 <= i < episodes.len() ==> fills_shape(#[trigger] episodes[i], shapes[i])
        }),
    decreases shapes.len(),
{
    let line = |attributes: Seq<(u64, Seq<u64>)>| in_line(attributes);
    let (episodes, reached) = next_episodes(ids, shapes)->Ok_0;
    let lists = episodes.map_values(line);
    lists.lemma_flatten_and_flatten_alt_are_equivalent();
    if shapes.len() == 0 {
        assert(ids.take(0) =~= Seq::empty());
    } else {
        let rest = shapes.drop_last();
        lemma_episodes_take(ids, rest);
        let (before, middle) = next_episodes(ids, rest)->Ok_0;
        lemma_attributes_take(ids, middle, shapes.last().value_counts@);
        assert(lists.drop_last() =~= before.map_values(line));
        lists.drop_last().lemma_flatten_and_flatten_alt_are_equivalent();
        assert(lists.last() == in_line(episodes.last()));
        assert(ids.take(reached as int) =~= ids.take(middle as int) + ids.subrange(
            middle as int,
            reached as int,
        ));
        assert forall|i: int| 0 <= i < episodes.len() implies fills_shape(
            #[trigger] episodes[i],
            shapes[i],
        ) by {
            if i < rest.len() {
                assert(episodes[i] == before[i]);
                assert(rest[i] == shapes[i]);
            }
        }
    }
}

/// There is an attribute for each count of values, with as many values and at
/// least one.
pub open spec fn have_counts(attributes: Seq<(u64, Seq<u64>)>, counts: Seq<usize>) -> bool {
    &&& attributes.len() == counts.len()
    &&& forall|i: int|
        0 <= i < attributes.len() ==> (#[trigger] attributes[i]).1.len() == counts[i] && counts[i]
            > 0
}

/// The attributes have the counts of the shape, and there is at least one.
pub open spec fn fills_shape(attributes: Seq<(u64, Seq<u64>)>, shape: EpisodeShape) -> bool {
    attributes.len() > 0 && have_counts(attributes, shape.value_counts@)
}

/// Resolving uses up the identifiers: the episodes, one after the other and each
/// as its keys with their values, are the identifiers in their order, cut as the
/// shapes say.
pub proof fn law_resolving_uses_every_identifier(ids: Seq<u64>, shapes: Seq<EpisodeShape>)
    requires
        resolved_episodes(ids, shapes) is Ok,
    ensures
        ({
            let episodes = resolved_episodes(ids, shapes)->Ok_0;
            &&& episodes.len() == shapes.len()
            &&& episodes.map_values(
                |attributes: Seq<(u64, Seq<u64>)>| in_line(attributes),
            ).flatten() == ids
            &&& forall|i: int|
                0 <= i < episodes.len() ==> fills_shape(#[trigger] episodes[i], shapes[i])
        }),
{
    lemma_episodes_take(ids, shapes);
    assert(ids.take(ids.len() as int) =~= ids);
}

} // verus!
