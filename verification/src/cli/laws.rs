//! What flattening drafts and resolving their symbols give together.

use vstd::prelude::*;

use crate::cli::attributes::{
    attribute_texts, flat_attributes, flat_drafts, next_attributes, next_episodes,
    resolved_episodes, shapes_draft, AttributeText, EpisodeShape, TextEpisodeDraft,
};
use crate::model::TimestampMs;

verus! {

/// The texts from a position on are those that the identifiers name.
pub open spec fn names_texts(
    names: Map<u64, Seq<char>>,
    ids: Seq<u64>,
    position: nat,
    texts: Seq<Seq<char>>,
) -> bool {
    &&& position + texts.len() <= ids.len()
    &&& forall|k: int|
        0 <= k < texts.len() ==> names[#[trigger] ids[position + k]] == texts[k]
}

/// The texts that identifiers name.
pub open spec fn named(names: Map<u64, Seq<char>>, ids: Seq<u64>) -> Seq<Seq<char>> {
    ids.map_values(|id: u64| names[id])
}

/// Attributes by the texts that their identifiers name.
pub open spec fn named_attributes(
    names: Map<u64, Seq<char>>,
    attributes: Seq<(u64, Seq<u64>)>,
) -> Seq<AttributeText> {
    attributes.map_values(
        |attribute: (u64, Seq<u64>)| (names[attribute.0], named(names, attribute.1)),
    )
}

/// Every attribute has a value.
pub open spec fn all_valued(attributes: Seq<AttributeText>) -> bool {
    forall|i: int| 0 <= i < attributes.len() ==> (#[trigger] attributes[i]).1.len() > 0
}

/// The counts are those of the attributes' values.
pub open spec fn counts_values(counts: Seq<usize>, attributes: Seq<AttributeText>) -> bool {
    &&& counts.len() == attributes.len()
    &&& forall|i: int|
        0 <= i < counts.len() ==> (#[trigger] counts[i]) == attributes[i].1.len()
}

proof fn lemma_attributes_resolve(
    names: Map<u64, Seq<char>>,
    ids: Seq<u64>,
    position: nat,
    counts: Seq<usize>,
    attributes: Seq<AttributeText>,
)
    requires
        counts_values(counts, attributes),
        all_valued(attributes),
        names_texts(names, ids, position, flat_attributes(attributes)),
    ensures
        next_attributes(ids, position, counts) is Ok,
        next_attributes(ids, position, counts)->Ok_0.1 == position + flat_attributes(
            attributes,
        ).len(),
        named_attributes(names, next_attributes(ids, position, counts)->Ok_0.0) == attributes,
    decreases attributes.len(),
{
    if attributes.len() == 0 {
        assert(named_attributes(names, Seq::empty()) =~= attributes);
    } else {
        let rest = attributes.drop_last();
        let last = attributes.last();
        let texts = flat_attributes(attributes);
        let before = flat_attributes(rest);
        assert(texts =~= before.push(last.0) + last.1);
        assert(counts_values(counts.drop_last(), rest)) by {
            assert forall|i: int| 0 <= i < rest.len() implies (#[trigger] counts.drop_last()[i])
                == rest[i].1.len() by {
                assert(counts[i] == attributes[i].1.len());
            }
        }
        assert(all_valued(rest)) by {
            assert forall|i: int| 0 <= i < rest.len() implies (#[trigger] rest[i]).1.len() > 0 by {
                assert(attributes[i].1.len() > 0);
            }
        }
        assert forall|k: int| 0 <= k < before.len() implies names[#[trigger] ids[position + k]]
            == before[k] by {
            assert(texts[k] == before[k]);
        }
        lemma_attributes_resolve(names, ids, position, counts.drop_last(), rest);
        let reached = position + before.len();
        let count = counts.last() as nat;
        assert(counts[counts.len() - 1] == attributes[attributes.len() - 1].1.len());
        assert(attributes[attributes.len() - 1].1.len() > 0);
        let values = ids.subrange((reached + 1) as int, (reached + 1 + count) as int);
        assert(names[ids[position + before.len() as int]] == texts[before.len() as int]);
        assert(named(names, values) =~= last.1) by {
            assert forall|k: int| 0 <= k < last.1.len() implies named(names, values)[k]
                == last.1[k] by {
                assert(names[ids[position + (before.len() + 1 + k)]] == texts[before.len() + 1
                    + k]);
            }
        }
        let earlier = next_attributes(ids, position, counts.drop_last())->Ok_0.0;
        let found = next_attributes(ids, position, counts)->Ok_0.0;
        assert(found == earlier.push((ids[reached as int], values)));
        assert(named_attributes(names, earlier).len() == earlier.len());
        assert(named_attributes(names, found) =~= named_attributes(names, earlier).push(last));
        assert(attributes =~= rest.push(last));
    }
}

/// Every draft has an attribute, and every attribute a value.
pub open spec fn all_complete(drafts: Seq<TextEpisodeDraft>) -> bool {
    forall|i: int|
        0 <= i < drafts.len() ==> (#[trigger] drafts[i]).attributes@.len() > 0 && all_valued(
            attribute_texts(drafts[i].attributes@),
        )
}

/// Each shape is that of its draft.
pub open spec fn all_shaped(
    shapes: Seq<EpisodeShape>,
    drafts: Seq<TextEpisodeDraft>,
    default: TimestampMs,
) -> bool {
    &&& shapes.len() == drafts.len()
    &&& forall|i: int|
        0 <= i < drafts.len() ==> shapes_draft(#[trigger] shapes[i], drafts[i], default)
}

proof fn lemma_drafts_resolve(
    names: Map<u64, Seq<char>>,
    ids: Seq<u64>,
    shapes: Seq<EpisodeShape>,
    drafts: Seq<TextEpisodeDraft>,
    default: TimestampMs,
)
    requires
        all_complete(drafts),
        all_shaped(shapes, drafts, default),
        names_texts(names, ids, 0, flat_drafts(drafts)),
    ensures
        next_episodes(ids, shapes) is Ok,
        next_episodes(ids, shapes)->Ok_0.1 == flat_drafts(drafts).len(),
        next_episodes(ids, shapes)->Ok_0.0.len() == drafts.len(),
        forall|i: int|
            0 <= i < drafts.len() ==> named_attributes(
                names,
                #[trigger] next_episodes(ids, shapes)->Ok_0.0[i],
            ) == attribute_texts(drafts[i].attributes@),
    decreases drafts.len(),
{
    if drafts.len() > 0 {
        let rest = drafts.drop_last();
        let earlier = shapes.drop_last();
        let last = attribute_texts(drafts.last().attributes@);
        let texts = flat_drafts(drafts);
        let before = flat_drafts(rest);
        assert(texts =~= before + flat_attributes(last));
        assert(all_complete(rest)) by {
            assert forall|i: int| 0 <= i < rest.len() implies (#[trigger] rest[i]).attributes@.len()
                > 0 && all_valued(attribute_texts(rest[i].attributes@)) by {
                assert(drafts[i].attributes@.len() > 0);
            }
        }
        assert(all_shaped(earlier, rest, default)) by {
            assert forall|i: int| 0 <= i < rest.len() implies shapes_draft(
                #[trigger] earlier[i],
                rest[i],
                default,
            ) by {
                assert(shapes_draft(shapes[i], drafts[i], default));
            }
        }
        assert forall|k: int| 0 <= k < before.len() implies names[#[trigger] ids[0 + k]]
            == before[k] by {
            assert(texts[k] == before[k]);
        }
        lemma_drafts_resolve(names, ids, earlier, rest, default);
        let shape = shapes.last();
        assert(shapes_draft(shapes[shapes.len() - 1], drafts[drafts.len() - 1], default));
        assert(drafts[drafts.len() - 1].attributes@.len() > 0);
        assert(counts_values(shape.value_counts@, last)) by {
            assert forall|i: int| 0 <= i < last.len() implies (#[trigger] shape.value_counts@[i])
                == last[i].1.len() by {
                assert(last[i] == drafts.last().attributes@[i]@);
            }
        }
        assert(names_texts(names, ids, before.len(), flat_attributes(last))) by {
            assert forall|k: int| 0 <= k < flat_attributes(last).len() implies names[
            #[trigger] ids[before.len() + k]] == flat_attributes(last)[k] by {
                assert(names[ids[0 + (before.len() + k)]] == texts[before.len() + k]);
            }
        }
        lemma_attributes_resolve(names, ids, before.len(), shape.value_counts@, last);
        let added = next_attributes(ids, before.len(), shape.value_counts@)->Ok_0.0;
        assert(named_attributes(names, added).len() == added.len());
        let episodes = next_episodes(ids, shapes)->Ok_0.0;
        assert(episodes == next_episodes(ids, earlier)->Ok_0.0.push(added));
        assert forall|i: int| 0 <= i < drafts.len() implies named_attributes(
            names,
            #[trigger] episodes[i],
        ) == attribute_texts(drafts[i].attributes@) by {
            if i < rest.len() {
                assert(episodes[i] == next_episodes(ids, earlier)->Ok_0.0[i]);
            }
        }
    }
}

/// Resolving the identifiers of flattened drafts gives each draft its own
/// attributes back: where the identifiers name the flattened texts, the
/// resolved attributes name the texts of the drafts.
pub proof fn law_flattened_drafts_are_resolved(
    names: Map<u64, Seq<char>>,
    ids: Seq<u64>,
    shapes: Seq<EpisodeShape>,
    drafts: Seq<TextEpisodeDraft>,
    default: TimestampMs,
)
    requires
        all_complete(drafts),
        all_shaped(shapes, drafts, default),
        ids.len() == flat_drafts(drafts).len(),
        named(names, ids) == flat_drafts(drafts),
    ensures
        match resolved_episodes(ids, shapes) {
            Ok(episodes) => episodes.len() == drafts.len() && forall|i: int|
                0 <= i < drafts.len() ==> named_attributes(names, #[trigger] episodes[i])
                    == attribute_texts(drafts[i].attributes@),
            Err(_) => false,
        },
{
    assert(names_texts(names, ids, 0, flat_drafts(drafts))) by {
        assert forall|k: int| 0 <= k < ids.len() implies names[#[trigger] ids[0 + k]]
            == flat_drafts(drafts)[k] by {
            assert(named(names, ids)[k] == flat_drafts(drafts)[k]);
        }
    }
    lemma_drafts_resolve(names, ids, shapes, drafts, default);
}

} // verus!
