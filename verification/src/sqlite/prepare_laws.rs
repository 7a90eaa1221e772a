//! Which texts of an episode are embedded.

use vstd::prelude::*;

use crate::attribute::EpisodeAtom;
use crate::sqlite::prepare::{symbols_in, symbols_of, text_pairs, texts_by_id, value_pairs};
use crate::sqlite::store::episode_texts;
use crate::sqlite::symbol_checks::appended_since;

verus! {

/// Every key and every value of the groups has a text.
pub open spec fn all_have_texts(all: Seq<(u64, Seq<u64>)>, texts: Map<u64, Seq<char>>) -> bool {
    forall|i: int|
        0 <= i < all.len() ==> texts.contains_key((#[trigger] all[i]).0) && have_texts(
            all[i].1,
            texts,
        )
}

/// Every symbol has a text.
pub open spec fn have_texts(ids: Seq<u64>, texts: Map<u64, Seq<char>>) -> bool {
    forall|j: int| 0 <= j < ids.len() ==> texts.contains_key(#[trigger] ids[j])
}

/// The text of a key with each text of its values.
pub open spec fn texts_of_group(
    group: (u64, Seq<u64>),
    texts: Map<u64, Seq<char>>,
) -> Seq<(Seq<char>, Seq<char>)> {
    group.1.map_values(|value: u64| (texts[group.0], texts[value]))
}

proof fn lemma_value_texts(
    before: Seq<(Seq<char>, Seq<char>)>,
    key: Seq<char>,
    values: Seq<u64>,
    texts: Map<u64, Seq<char>>,
)
    ensures
        value_pairs(before, key, values, texts) is Ok <==> have_texts(values, texts),
        value_pairs(before, key, values, texts) matches Ok(pairs) ==> pairs == before
            + values.map_values(|value: u64| (key, texts[value])),
        value_pairs(before, key, values, texts) matches Err(id) ==> !texts.contains_key(id)
            && values.contains(id),
    decreases values.len(),
{
    let pair = |value: u64| (key, texts[value]);
    if values.len() == 0 {
        assert(before + values.map_values(pair) =~= before);
    } else {
        let rest = values.drop_last();
        lemma_value_texts(before, key, rest, texts);
        assert(values[values.len() - 1] == values.last());
        assert forall|j: int| 0 <= j < rest.len() implies #[trigger] rest[j] == values[j] by {}
        if have_texts(values, texts) {
            assert forall|j: int| 0 <= j < rest.len() implies texts.contains_key(
                #[trigger] rest[j],
            ) by {
                assert(texts.contains_key(values[j]));
            }
        }
        match value_pairs(before, key, values, texts) {
            Ok(pairs) => {
                assert forall|j: int| 0 <= j < values.len() implies texts.contains_key(
                    #[trigger] values[j],
                ) by {
                    if j < rest.len() {
                        assert(texts.contains_key(rest[j]));
                    }
                }
                assert(pairs =~= before + values.map_values(pair));
            },
            Err(id) => {
                if rest.contains(id) {
                    assert(values[rest.index_of(id)] == id);
                }
                assert(values.contains(id));
                let j = values.index_of(id);
                assert(!texts.contains_key(values[j]));
            },
        }
    }
}

/// The text pairs of an episode are all of its bound pairs, group by group: each
/// key with each of its values, by their texts. They are given exactly if every
/// symbol has a text, and else one without a text is named.
pub proof fn law_text_pairs_are_all_bound_pairs(
    all: Seq<(u64, Seq<u64>)>,
    texts: Map<u64, Seq<char>>,
)
    ensures
        text_pairs(all, texts) is Ok <==> all_have_texts(all, texts),
        text_pairs(all, texts) matches Ok(pairs) ==> pairs == all.map_values(
            |group: (u64, Seq<u64>)| texts_of_group(group, texts),
        ).flatten(),
        text_pairs(all, texts) matches Err(id) ==> !texts.contains_key(id) && exists|i: int|
            0 <= i < all.len() && ((#[trigger] all[i]).0 == id || all[i].1.contains(id)),
    decreases all.len(),
{
    let line = |group: (u64, Seq<u64>)| texts_of_group(group, texts);
    let lists = all.map_values(line);
    lists.lemma_flatten_and_flatten_alt_are_equivalent();
    if all.len() > 0 {
        let rest = all.drop_last();
        let last = all.last();
        assert(all[all.len() - 1] == last);
        law_text_pairs_are_all_bound_pairs(rest, texts);
        assert forall|i: int| 0 <= i < rest.len() implies #[trigger] rest[i] == all[i] by {}
        assert(rest.map_values(line) =~= lists.drop_last());
        rest.map_values(line).lemma_flatten_and_flatten_alt_are_equivalent();
        if all_have_texts(all, texts) {
            assert forall|i: int| 0 <= i < rest.len() implies texts.contains_key(
                (#[trigger] rest[i]).0,
            ) && have_texts(rest[i].1, texts) by {
                assert(texts.contains_key(all[i].0));
            }
        }
        match text_pairs(rest, texts) {
            Ok(before) => {
                if texts.contains_key(last.0) {
                    lemma_value_texts(before, texts[last.0], last.1, texts);
                    assert(last.1.map_values(|value: u64| (texts[last.0], texts[value]))
                        =~= texts_of_group(last, texts));
                    assert(lists.last() == texts_of_group(last, texts));
                }
            },
            Err(id) => {
                let i = choose|i: int|
                    0 <= i < rest.len() && ((#[trigger] rest[i]).0 == id || rest[i].1.contains(id));
                assert(all[i] == rest[i]);
            },
        }
        if text_pairs(all, texts) is Ok {
            assert forall|i: int| 0 <= i < all.len() implies texts.contains_key(
                (#[trigger] all[i]).0,
            ) && have_texts(all[i].1, texts) by {
                if i < rest.len() {
                    assert(texts.contains_key(rest[i].0));
                }
            }
        } else {
            let id = text_pairs(all, texts)->Err_0;
            if text_pairs(rest, texts) is Ok {
                assert(all[all.len() - 1].0 == id || all[all.len() - 1].1.contains(id));
            }
        }
    }
}

/// Each key of an episode is embedded with each of its values.
pub proof fn law_every_bound_pair_is_embedded(
    all: Seq<(u64, Seq<u64>)>,
    texts: Map<u64, Seq<char>>,
    group: int,
    place: int,
)
    requires
        text_pairs(all, texts) is Ok,
        0 <= group < all.len(),
        0 <= place < all[group].1.len(),
    ensures
        text_pairs(all, texts)->Ok_0.contains((texts[all[group].0], texts[all[group].1[place]])),
    decreases all.len(),
{
    let rest = all.drop_last();
    let last = all.last();
    let pair = (texts[all[group].0], texts[all[group].1[place]]);
    let pairs = text_pairs(all, texts)->Ok_0;
    let before = text_pairs(rest, texts)->Ok_0;
    lemma_value_texts(before, texts[last.0], last.1, texts);
    if group < rest.len() {
        assert(rest[group] == all[group]);
        law_every_bound_pair_is_embedded(rest, texts, group, place);
        let k = before.index_of(pair);
        assert(pairs[k] == pair);
    } else {
        assert(pairs[before.len() + place] == pair);
    }
}

/// The texts of several episodes are the texts of each one, in order.
pub proof fn law_episodes_are_embedded_one_by_one(
    atoms: Seq<EpisodeAtom>,
    texts: Map<u64, Seq<char>>,
)
    ensures
        episode_texts(atoms, texts) is Ok <==> forall|i: int|
            0 <= i < atoms.len() ==> all_have_texts((#[trigger] atoms[i]).groups(), texts),
        episode_texts(atoms, texts) matches Ok(lists) ==> {
            &&& lists.len() == atoms.len()
            &&& forall|i: int|
                0 <= i < atoms.len() ==> lists[i] == (#[trigger] atoms[i]).groups().map_values(
                    |group: (u64, Seq<u64>)| texts_of_group(group, texts),
                ).flatten()
        },
    decreases atoms.len(),
{
    if atoms.len() > 0 {
        let rest = atoms.drop_last();
        let last = atoms.last();
        assert(atoms[atoms.len() - 1] == last);
        law_episodes_are_embedded_one_by_one(rest, texts);
        law_text_pairs_are_all_bound_pairs(last.groups(), texts);
        assert forall|i: int| 0 <= i < rest.len() implies #[trigger] rest[i] == atoms[i] by {}
        if forall|i: int|
            0 <= i < atoms.len() ==> all_have_texts((#[trigger] atoms[i]).groups(), texts) {
            assert forall|i: int| 0 <= i < rest.len() implies all_have_texts(
                (#[trigger] rest[i]).groups(),
                texts,
            ) by {
                assert(all_have_texts(atoms[i].groups(), texts));
            }
        }
        if episode_texts(atoms, texts) is Ok {
            let before = episode_texts(rest, texts)->Ok_0;
            let lists = episode_texts(atoms, texts)->Ok_0;
            assert forall|i: int| 0 <= i < atoms.len() implies all_have_texts(
                (#[trigger] atoms[i]).groups(),
                texts,
            ) by {
                if i < rest.len() {
                    assert(all_have_texts(rest[i].groups(), texts));
                }
            }
            assert forall|i: int| 0 <= i < atoms.len() implies lists[i] == (
            #[trigger] atoms[i]).groups().map_values(
                |group: (u64, Seq<u64>)| texts_of_group(group, texts),
            ).flatten() by {
                if i < rest.len() {
                    assert(rest[i] == atoms[i]);
                    assert(lists[i] == before[i]);
                }
            }
        }
    }
}

/// The symbols that an episode needs are its keys and its values.
pub proof fn law_symbols_are_keys_and_values(all: Seq<(u64, Seq<u64>)>, id: u64)
    ensures
        symbols_of(all).contains(id) <==> exists|i: int|
            0 <= i < all.len() && ((#[trigger] all[i]).0 == id || all[i].1.contains(id)),
    decreases all.len(),
{
    if all.len() > 0 {
        let rest = all.drop_last();
        let last = all.last();
        law_symbols_are_keys_and_values(rest, id);
        let before = symbols_of(rest);
        let after = symbols_of(all);
        assert(all[all.len() - 1] == last);
        assert(after[before.len() as int] == last.0);
        if before.contains(id) {
            assert(after[before.index_of(id)] == id);
            let i = choose|i: int|
                0 <= i < rest.len() && ((#[trigger] rest[i]).0 == id || rest[i].1.contains(id));
            assert(all[i] == rest[i]);
        }
        if last.1.contains(id) {
            assert(after[before.len() + 1 + last.1.index_of(id)] == id);
        }
        if after.contains(id) {
            let k = after.index_of(id);
            if k < before.len() {
                assert(before[k] == id);
            } else if k > before.len() {
                assert(last.1[k - before.len() - 1] == id);
            }
        }
        if exists|i: int|
            0 <= i < all.len() && ((#[trigger] all[i]).0 == id || all[i].1.contains(id)) {
            let i = choose|i: int|
                0 <= i < all.len() && ((#[trigger] all[i]).0 == id || all[i].1.contains(id));
            if i < rest.len() {
                assert(rest[i] == all[i]);
                assert(before.contains(id));
                assert(after[before.index_of(id)] == id);
            }
        }
    }
}

/// The symbols that episodes need are those of each of them.
pub proof fn law_symbols_of_all_episodes(atoms: Seq<EpisodeAtom>, id: u64)
    ensures
        symbols_in(atoms).contains(id) <==> exists|i: int|
            0 <= i < atoms.len() && symbols_of((#[trigger] atoms[i]).groups()).contains(id),
    decreases atoms.len(),
{
    if atoms.len() > 0 {
        let rest = atoms.drop_last();
        let last = symbols_of(atoms.last().groups());
        law_symbols_of_all_episodes(rest, id);
        let before = symbols_in(rest);
        let after = symbols_in(atoms);
        assert(atoms[atoms.len() - 1] == atoms.last());
        if before.contains(id) {
            assert(after[before.index_of(id)] == id);
            let i = choose|i: int|
                0 <= i < rest.len() && symbols_of((#[trigger] rest[i]).groups()).contains(id);
            assert(atoms[i] == rest[i]);
        }
        if last.contains(id) {
            assert(after[before.len() + last.index_of(id)] == id);
        }
        if after.contains(id) {
            let k = after.index_of(id);
            if k < before.len() {
                assert(before[k] == id);
            } else {
                assert(last[k - before.len()] == id);
            }
        }
        if exists|i: int|
            0 <= i < atoms.len() && symbols_of((#[trigger] atoms[i]).groups()).contains(id) {
            let i = choose|i: int|
                0 <= i < atoms.len() && symbols_of((#[trigger] atoms[i]).groups()).contains(id);
            if i < rest.len() {
                assert(rest[i] == atoms[i]);
            }
        }
    }
}

/// Texts are found under the identifiers that they were given for.
pub proof fn law_texts_belong_to_their_identifiers(
    ids: Seq<u64>,
    texts: Seq<Seq<char>>,
    place: int,
)
    requires
        ids.no_duplicates(),
        0 <= place < ids.len(),
    ensures
        texts_by_id(ids, texts).contains_key(ids[place]),
        texts_by_id(ids, texts)[ids[place]] == texts[place],
        forall|id: u64| #[trigger] texts_by_id(ids, texts).contains_key(id) ==> ids.contains(id),
    decreases ids.len(),
{
    lemma_text_keys(ids, texts);
    let rest = ids.drop_last();
    if place < rest.len() {
        assert(rest[place] == ids[place]);
        assert(rest.no_duplicates()) by {
            assert forall|i: int, j: int| 0 <= i < rest.len() && 0 <= j < rest.len() && i != j implies
                rest[i] != rest[j] by {
                assert(ids[i] != ids[j]);
            }
        }
        law_texts_belong_to_their_identifiers(rest, texts, place);
        assert(ids[ids.len() - 1] != ids[place]);
    }
}

proof fn lemma_text_keys(ids: Seq<u64>, texts: Seq<Seq<char>>)
    ensures
        forall|id: u64| #[trigger] texts_by_id(ids, texts).contains_key(id) ==> ids.contains(id),
    decreases ids.len(),
{
    if ids.len() > 0 {
        lemma_text_keys(ids.drop_last(), texts);
        assert forall|id: u64| #[trigger] texts_by_id(ids, texts).contains_key(id) implies ids.contains(
            id,
        ) by {
            if id == ids.last() {
                assert(ids[ids.len() - 1] == id);
            } else {
                let rest = ids.drop_last();
                assert(texts_by_id(rest, texts).contains_key(id));
                assert(rest.contains(id));
                assert(ids[rest.index_of(id)] == id);
            }
        }
    }
}

/// The episodes that still need a vector are all of those behind the first ones.
pub proof fn law_every_later_episode_is_embedded(atoms: Seq<EpisodeAtom>, start: nat, place: int)
    requires
        start <= atoms.len(),
        start <= place < atoms.len(),
    ensures
        appended_since(atoms, start).len() == atoms.len() - start,
        appended_since(atoms, start)[place - start] == atoms[place],
{
}

} // verus!
