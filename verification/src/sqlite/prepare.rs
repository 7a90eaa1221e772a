//! Texts of the episodes that still need a vector.

use vstd::prelude::*;

use crate::attribute::{groups, numbers, Attribute, EpisodeAtom};
use crate::model::SymbolId;
use crate::order::{increasing, sort_distinct_numbers};
use crate::sqlite::error::StoreError;

verus! {

/// The symbols of attributes, each key before its values.
pub open spec fn symbols_of(all: Seq<(u64, Seq<u64>)>) -> Seq<u64>
    decreases all.len(),
{
    if all.len() == 0 {
        Seq::empty()
    } else {
        symbols_of(all.drop_last()).push(all.last().0) + all.last().1
    }
}

/// The symbols of episodes.
pub open spec fn symbols_in(atoms: Seq<EpisodeAtom>) -> Seq<u64>
    decreases atoms.len(),
{
    if atoms.len() == 0 {
        Seq::empty()
    } else {
        symbols_in(atoms.drop_last()) + symbols_of(atoms.last().groups())
    }
}

/// Appends the symbols of attributes, each key before its values.
pub fn push_symbols(attributes: &[Attribute], symbols: &mut Vec<u64>)
    ensures
        final(symbols)@ == old(symbols)@ + symbols_of(groups(attributes@)),
{
    let ghost all = groups(attributes@);
    let ghost start = symbols@;
    let mut index: usize = 0;
    proof {
        assert(all.take(0) =~= Seq::empty());
        assert(start + symbols_of(all.take(0)) =~= start);
    }
    while index < attributes.len()
        invariant
            index <= attributes@.len(),
            all == groups(attributes@),
            symbols@ == start + symbols_of(all.take(index as int)),
        decreases attributes.len() - index,
    {
        let attribute = &attributes[index];
        let ghost before = symbols_of(all.take(index as int));
        symbols.push(attribute.key().get());
        let values = attribute.values();
        let ghost listed = numbers(values@);
        let mut place: usize = 0;
        proof {
            assert(symbols@ =~= start + (before.push(attribute@.0) + listed.take(0)));
        }
        while place < values.len()
            invariant
                place <= values@.len(),
                listed == numbers(values@),
                symbols@ == start + (before.push(attribute@.0) + listed.take(place as int)),
            decreases values.len() - place,
        {
            symbols.push(values[place].get());
            proof {
                assert(listed.take(place + 1) =~= listed.take(place as int).push(
                    listed[place as int],
                ));
                assert(symbols@ =~= start + (before.push(attribute@.0) + listed.take(place + 1)));
            }
            place += 1;
        }
        proof {
            let part = all.take(index + 1);
            assert(part.drop_last() =~= all.take(index as int));
            assert(part.last() == attribute@);
            assert(listed.take(place as int) =~= listed);
        }
        index += 1;
    }
    assert(all.take(all.len() as int) =~= all);
}

/// Lists the symbols of the episodes behind the first `start` ones, each once
/// and in ascending order.
pub fn list_symbols(atoms: &[EpisodeAtom], start: usize) -> (ids: Vec<SymbolId>)
    requires
        start <= atoms@.len(),
    ensures
        increasing(numbers(ids@)),
        forall|id: u64| #[trigger]
            numbers(ids@).contains(id) <==> symbols_in(atoms@.skip(start as int)).contains(id),
{
    let ghost fresh = atoms@.skip(start as int);
    let mut symbols: Vec<u64> = Vec::new();
    let mut index: usize = start;
    assert(fresh.take(0) =~= Seq::empty());
    while index < atoms.len()
        invariant
            start <= index <= atoms@.len(),
            fresh == atoms@.skip(start as int),
            symbols@ == symbols_in(fresh.take(index - start)),
        decreases atoms.len() - index,
    {
        push_symbols(atoms[index].attributes(), &mut symbols);
        proof {
            let part = fresh.take(index + 1 - start);
            assert(part.drop_last() =~= fresh.take(index - start));
            assert(part.last() == atoms@[index as int]);
        }
        index += 1;
    }
    assert(fresh.take(index - start) =~= fresh);
    let sorted = sort_distinct_numbers(symbols.as_slice());
    let mut ids: Vec<SymbolId> = Vec::new();
    let mut place: usize = 0;
    while place < sorted.len()
        invariant
            place <= sorted@.len(),
            numbers(ids@) =~= sorted@.take(place as int),
        decreases sorted.len() - place,
    {
        let ghost before = ids@;
        ids.push(SymbolId::new(sorted[place]));
        proof {
            assert(numbers(ids@) =~= numbers(before).push(sorted@[place as int]));
            assert(sorted@.take(place + 1) =~= sorted@.take(place as int).push(
                sorted@[place as int],
            ));
        }
        place += 1;
    }
    assert(sorted@.take(place as int) =~= sorted@);
    ids
}

/// The texts of the identifiers, by number.
pub open spec fn texts_by_id(ids: Seq<u64>, texts: Seq<Seq<char>>) -> Map<u64, Seq<char>>
    decreases ids.len(),
{
    if ids.len() == 0 {
        Map::empty()
    } else {
        texts_by_id(ids.drop_last(), texts).insert(ids.last(), texts[ids.len() - 1])
    }
}

/// The text pairs of attributes, in the order of keys and values, or the
/// first symbol without a text.
pub open spec fn text_pairs(all: Seq<(u64, Seq<u64>)>, texts: Map<u64, Seq<char>>) -> Result<
    Seq<(Seq<char>, Seq<char>)>,
    u64,
>
    decreases all.len(),
{
    if all.len() == 0 {
        Ok(Seq::empty())
    } else {
        match text_pairs(all.drop_last(), texts) {
            Err(id) => Err(id),
            Ok(before) => if !texts.contains_key(all.last().0) {
                Err(all.last().0)
            } else {
                value_pairs(before, texts[all.last().0], all.last().1, texts)
            },
        }
    }
}

/// The pairs with those of one key and its values added.
pub open spec fn value_pairs(
    before: Seq<(Seq<char>, Seq<char>)>,
    key: Seq<char>,
    values: Seq<u64>,
    texts: Map<u64, Seq<char>>,
) -> Result<Seq<(Seq<char>, Seq<char>)>, u64>
    decreases values.len(),
{
    if values.len() == 0 {
        Ok(before)
    } else {
        match value_pairs(before, key, values.drop_last(), texts) {
            Err(id) => Err(id),
            Ok(pairs) => if texts.contains_key(values.last()) {
                Ok(pairs.push((key, texts[values.last()])))
            } else {
                Err(values.last())
            },
        }
    }
}

/// The text pairs of owned texts.
pub open spec fn owned_pairs(pairs: Seq<(String, String)>) -> Seq<(Seq<char>, Seq<char>)> {
    pairs.map_values(|pair: (String, String)| (pair.0@, pair.1@))
}

proof fn lemma_texts_by_id(ids: Seq<u64>, texts: Seq<Seq<char>>, id: u64)
    ensures
        texts_by_id(ids, texts).contains_key(id) <==> ids.contains(id),
        increasing(ids) ==> forall|i: int|
            0 <= i < ids.len() ==> texts_by_id(ids, texts)[#[trigger] ids[i]] == texts[i],
    decreases ids.len(),
{
    if ids.len() > 0 {
        let rest = ids.drop_last();
        lemma_texts_by_id(rest, texts, id);
        if ids.contains(id) && id != ids.last() {
            let i = ids.index_of(id);
            assert(rest[i] == id);
        }
        if rest.contains(id) {
            let i = rest.index_of(id);
            assert(ids[i] == id);
        }
        assert(ids[ids.len() - 1] == ids.last());
        if increasing(ids) {
            assert(increasing(rest)) by {
                assert forall|i: int, j: int|
                    #![trigger rest[i], rest[j]]
                    0 <= i < j < rest.len() implies rest[i] < rest[j] by {
                    assert(ids[i] < ids[j]);
                }
            }
            assert forall|i: int| 0 <= i < ids.len() implies texts_by_id(
                ids,
                texts,
            )[#[trigger] ids[i]] == texts[i] by {
                if i < rest.len() {
                    assert(rest[i] == ids[i]);
                    assert(ids[i] < ids[ids.len() - 1]);
                }
            }
        }
    }
}

/// Finds the text of a symbol by binary search.
pub fn symbol_text<'a>(id: SymbolId, ids: &[SymbolId], values: &'a [String]) -> (result: Result<
    &'a str,
    StoreError,
>)
    requires
        increasing(numbers(ids@)),
        ids@.len() == values@.len(),
    ensures
        match result {
            Ok(text) => texts_by_id(
                numbers(ids@),
                crate::text_table::contents(values@),
            ).contains_key(id.0) && text@ == texts_by_id(
                numbers(ids@),
                crate::text_table::contents(values@),
            )[id.0],
            Err(error) => !texts_by_id(
                numbers(ids@),
                crate::text_table::contents(values@),
            ).contains_key(id.0) && error == (StoreError::UnknownSymbolId { id: id.0 }),
        },
{
    let ghost all = numbers(ids@);
    let ghost texts = crate::text_table::contents(values@);
    let mut low: usize = 0;
    let mut high: usize = ids.len();
    proof {
        lemma_texts_by_id(all, texts, id.0);
    }
    while low < high
        invariant
            low <= high <= ids@.len(),
            all == numbers(ids@),
            increasing(all),
            texts == crate::text_table::contents(values@),
            ids@.len() == values@.len(),
            texts_by_id(all, texts).contains_key(id.0) <==> all.contains(id.0),
            forall|i: int| 0 <= i < all.len() ==> texts_by_id(all, texts)[#[trigger] all[i]] == texts[i],
            forall|i: int| 0 <= i < low ==> (#[trigger] all[i]) < id.0,
            forall|i: int| high <= i < all.len() ==> (#[trigger] all[i]) > id.0,
        decreases high - low,
    {
        let middle: usize = low + (high - low) / 2;
        let found: u64 = ids[middle].get();
        assert(all[middle as int] == found);
        if found == id.get() {
            assert(all.contains(id.0));
            return Ok(values[middle].as_str());
        }
        if found < id.get() {
            proof {
                assert forall|i: int| 0 <= i < middle + 1 implies (#[trigger] all[i]) < id.0 by {
                    if i < middle {
                        assert(all[i] < all[middle as int]);
                    }
                }
            }
            low = middle + 1;
        } else {
            proof {
                assert forall|i: int| middle <= i < all.len() implies (#[trigger] all[i])
                    > id.0 by {
                    if i > middle {
                        assert(all[middle as int] < all[i]);
                    }
                }
            }
            high = middle;
        }
    }
    proof {
        if all.contains(id.0) {
            let i = all.index_of(id.0);
            assert(all[i] == id.0);
        }
    }
    Err(StoreError::UnknownSymbolId { id: id.get() })
}

proof fn lemma_value_pairs_stop(
    before: Seq<(Seq<char>, Seq<char>)>,
    key: Seq<char>,
    values: Seq<u64>,
    texts: Map<u64, Seq<char>>,
    end: int,
)
    requires
        0 <= end <= values.len(),
        value_pairs(before, key, values.take(end), texts) is Err,
    ensures
        value_pairs(before, key, values, texts) == value_pairs(
            before,
            key,
            values.take(end),
            texts,
        ),
    decreases values.len(),
{
    if end < values.len() {
        assert(values.drop_last().take(end) =~= values.take(end));
        lemma_value_pairs_stop(before, key, values.drop_last(), texts, end);
    } else {
        assert(values.take(end) =~= values);
    }
}

proof fn lemma_text_pairs_stop(
    all: Seq<(u64, Seq<u64>)>,
    texts: Map<u64, Seq<char>>,
    end: int,
)
    requires
        0 <= end <= all.len(),
        text_pairs(all.take(end), texts) is Err,
    ensures
        text_pairs(all, texts) == text_pairs(all.take(end), texts),
    decreases all.len(),
{
    if end < all.len() {
        assert(all.drop_last().take(end) =~= all.take(end));
        lemma_text_pairs_stop(all.drop_last(), texts, end);
    } else {
        assert(all.take(end) =~= all);
    }
}

/// Lists the text pairs of an episode's attributes.
pub fn episode_pairs(attributes: &[Attribute], ids: &[SymbolId], values: &[String]) -> (result:
    Result<Vec<(String, String)>, StoreError>)
    requires
        increasing(numbers(ids@)),
        ids@.len() == values@.len(),
    ensures
        match (
            text_pairs(
                groups(attributes@),
                texts_by_id(numbers(ids@), crate::text_table::contents(values@)),
            ),
            result,
        ) {
            (Ok(expected), Ok(pairs)) => owned_pairs(pairs@) == expected,
            (Err(id), Err(error)) => error == (StoreError::UnknownSymbolId { id }),
            _ => false,
        },
{
    let ghost all = groups(attributes@);
    let ghost texts = texts_by_id(numbers(ids@), crate::text_table::contents(values@));
    let mut pairs: Vec<(String, String)> = Vec::new();
    let mut index: usize = 0;
    proof {
        assert(all.take(0) =~= Seq::empty());
        assert(owned_pairs(pairs@) =~= Seq::empty());
    }
    while index < attributes.len()
        invariant
            index <= attributes@.len(),
            increasing(numbers(ids@)),
            ids@.len() == values@.len(),
            all == groups(attributes@),
            texts == texts_by_id(numbers(ids@), crate::text_table::contents(values@)),
            text_pairs(all.take(index as int), texts) == Ok::<Seq<(Seq<char>, Seq<char>)>, u64>(
                owned_pairs(pairs@),
            ),
        decreases attributes.len() - index,
    {
        let attribute = &attributes[index];
        let ghost part = all.take(index + 1);
        let ghost before = owned_pairs(pairs@);
        proof {
            assert(part.drop_last() =~= all.take(index as int));
            assert(part.last() == attribute@);
            if text_pairs(part, texts) is Err {
                lemma_text_pairs_stop(all, texts, index + 1);
            }
        }
        let key: &str = match symbol_text(attribute.key(), ids, values) {
            Ok(key) => key,
            Err(error) => {
                return Err(error);
            },
        };
        let listed = attribute.values();
        let ghost found = numbers(listed@);
        let mut place: usize = 0;
        assert(found.take(0) =~= Seq::empty());
        while place < listed.len()
            invariant
                place <= listed@.len(),
                increasing(numbers(ids@)),
                ids@.len() == values@.len(),
                all == groups(attributes@),
                texts == texts_by_id(numbers(ids@), crate::text_table::contents(values@)),
                found == numbers(listed@),
                found == attribute@.1,
                part.len() > 0,
                part.last() == attribute@,
                text_pairs(part.drop_last(), texts) == Ok::<Seq<(Seq<char>, Seq<char>)>, u64>(
                    before,
                ),
                text_pairs(part, texts) is Err ==> text_pairs(all, texts) == text_pairs(
                    part,
                    texts,
                ),
                texts.contains_key(attribute@.0),
                key@ == texts[attribute@.0],
                value_pairs(before, key@, found.take(place as int), texts) == Ok::<
                    Seq<(Seq<char>, Seq<char>)>,
                    u64,
                >(owned_pairs(pairs@)),
            decreases listed.len() - place,
        {
            proof {
                let some = found.take(place + 1);
                assert(some.drop_last() =~= found.take(place as int));
                assert(some.last() == listed@[place as int].0);
                if value_pairs(before, key@, some, texts) is Err {
                    lemma_value_pairs_stop(before, key@, found, texts, place + 1);
                }
            }
            let value: &str = match symbol_text(listed[place], ids, values) {
                Ok(value) => value,
                Err(error) => {
                    return Err(error);
                },
            };
            let ghost held = owned_pairs(pairs@);
            pairs.push((key.to_owned(), value.to_owned()));
            proof {
                assert(owned_pairs(pairs@) =~= held.push((key@, value@)));
            }
            place += 1;
        }
        assert(found.take(place as int) =~= found);
        index += 1;
    }
    assert(all.take(all.len() as int) =~= all);
    Ok(pairs)
}

} // verus!
