//! What the texts that the model reads are made of.

use vstd::prelude::*;
use vstd::utf8::encode_utf8;

use crate::bytes::byte_word;
use crate::order::{lexically_less, lexically_less_at, strictly_ascending};
use crate::semantic::model::{
    attribute_lines, is_ordering, ordered_pairs, pair_word, pair_words, passage, query_projection,
};
use crate::text::text_word;

verus! {

/// The bytes of the first text come before those of the second: the first
/// difference decides, and a proper prefix comes first.
pub open spec fn text_before(first: Seq<char>, second: Seq<char>) -> bool {
    exists|place: int|
        #![trigger encode_utf8(second)[place]]
        {
            &&& 0 <= place < encode_utf8(second).len()
            &&& place <= encode_utf8(first).len()
            &&& forall|i: int|
                0 <= i < place ==> encode_utf8(first)[i] == #[trigger] encode_utf8(second)[i]
            &&& place < encode_utf8(first).len() ==> encode_utf8(first)[place] < encode_utf8(
                second,
            )[place]
        }
}

/// The key decides which pair comes first, and the value where the keys are equal.
pub open spec fn pair_before(
    first: (Seq<char>, Seq<char>),
    second: (Seq<char>, Seq<char>),
) -> bool {
    text_before(first.0, second.0) || (first.0 == second.0 && text_before(first.1, second.1))
}

/// The line of a pair, with the character that ends it.
pub open spec fn ended_line(pair: (Seq<char>, Seq<char>)) -> Seq<char> {
    pair.0 + ": "@ + pair.1 + seq!['\n']
}

proof fn lemma_first_difference(first: Seq<int>, second: Seq<int>, place: int)
    requires
        0 <= place <= first.len(),
        place <= second.len(),
        forall|i: int| 0 <= i < place ==> first[i] == second[i],
    ensures
        first == second || lexically_less(first, second) || lexically_less(second, first),
    decreases first.len() - place,
{
    if place == first.len() && place == second.len() {
        assert(first =~= second);
    } else if place == first.len() {
        assert(lexically_less_at(first, second, place));
    } else if place == second.len() {
        assert(lexically_less_at(second, first, place));
    } else if first[place] < second[place] {
        assert(lexically_less_at(first, second, place));
    } else if second[place] < first[place] {
        assert(lexically_less_at(second, first, place));
    } else {
        lemma_first_difference(first, second, place + 1);
    }
}

proof fn lemma_insert_pair(
    list: Seq<(Seq<char>, Seq<char>)>,
    pair: (Seq<char>, Seq<char>),
) -> (longer: Seq<(Seq<char>, Seq<char>)>)
    requires
        strictly_ascending(pair_words(list)),
        !list.contains(pair),
    ensures
        strictly_ascending(pair_words(longer)),
        forall|other: (Seq<char>, Seq<char>)| #[trigger]
            longer.contains(other) <==> list.contains(other) || other == pair,
    decreases list.len(),
{
    if list.len() == 0 {
        let longer = seq![pair];
        assert(longer[0] == pair);
        longer
    } else {
        let last = list.last();
        assert(list[list.len() - 1] == last);
        let words = pair_words(list);
        lemma_first_difference(pair_word(last), pair_word(pair), 0);
        if pair_word(last) == pair_word(pair) {
            crate::semantic::model::lemma_pair_word_injective(last, pair);
        }
        if lexically_less(pair_word(last), pair_word(pair)) {
            let longer = list.push(pair);
            assert forall|i: int, j: int|
                #![trigger pair_words(longer)[i], pair_words(longer)[j]]
                0 <= i < j < longer.len() implies lexically_less(
                pair_words(longer)[i],
                pair_words(longer)[j],
            ) by {
                if j < list.len() {
                    assert(lexically_less(words[i], words[j]));
                } else if i < list.len() - 1 {
                    assert(lexically_less(words[i], words[list.len() - 1]));
                    crate::order::lemma_lexical_transitive(
                        words[i],
                        pair_word(last),
                        pair_word(pair),
                    );
                }
            }
            assert forall|other: (Seq<char>, Seq<char>)| #[trigger]
                longer.contains(other) <==> list.contains(other) || other == pair by {
                if list.contains(other) {
                    assert(longer[list.index_of(other)] == other);
                }
                assert(longer[list.len() as int] == pair);
                if longer.contains(other) {
                    let k = longer.index_of(other);
                    if k < list.len() {
                        assert(list[k] == other);
                    }
                }
            }
            longer
        } else {
            let rest = list.drop_last();
            assert forall|i: int, j: int|
                #![trigger pair_words(rest)[i], pair_words(rest)[j]]
                0 <= i < j < rest.len() implies lexically_less(
                pair_words(rest)[i],
                pair_words(rest)[j],
            ) by {
                assert(lexically_less(words[i], words[j]));
            }
            assert(!rest.contains(pair)) by {
                if rest.contains(pair) {
                    assert(list[rest.index_of(pair)] == pair);
                }
            }
            let shorter = lemma_insert_pair(rest, pair);
            let longer = shorter.push(last);
            assert forall|i: int, j: int|
                #![trigger pair_words(longer)[i], pair_words(longer)[j]]
                0 <= i < j < longer.len() implies lexically_less(
                pair_words(longer)[i],
                pair_words(longer)[j],
            ) by {
                if j < shorter.len() {
                    assert(lexically_less(pair_words(shorter)[i], pair_words(shorter)[j]));
                } else {
                    assert(shorter.contains(shorter[i]));
                    if shorter[i] != pair {
                        let k = rest.index_of(shorter[i]);
                        assert(rest[k] == shorter[i]);
                        assert(lexically_less(words[k], words[list.len() - 1]));
                    }
                }
            }
            assert forall|other: (Seq<char>, Seq<char>)| #[trigger]
                longer.contains(other) <==> list.contains(other) || other == pair by {
                assert(longer[shorter.len() as int] == last);
                if shorter.contains(other) {
                    assert(longer[shorter.index_of(other)] == other);
                    if rest.contains(other) {
                        assert(list[rest.index_of(other)] == other);
                    }
                }
                if list.contains(other) && other != last {
                    assert(rest[list.index_of(other)] == other);
                    assert(rest.contains(other));
                    assert(shorter.contains(other));
                }
                if other == pair {
                    assert(shorter.contains(other));
                }
                if longer.contains(other) {
                    let k = longer.index_of(other);
                    if k < shorter.len() {
                        assert(shorter[k] == other);
                        assert(shorter.contains(other));
                    }
                }
            }
            longer
        }
    }
}

proof fn lemma_pairs_have_an_order(pairs: Seq<(Seq<char>, Seq<char>)>) -> (ordered: Seq<
    (Seq<char>, Seq<char>),
>)
    ensures
        is_ordering(ordered, pairs.to_set()),
    decreases pairs.len(),
{
    if pairs.len() == 0 {
        let ordered = Seq::empty();
        assert(ordered.to_set() =~= pairs.to_set());
        ordered
    } else {
        let rest = pairs.drop_last();
        let before = lemma_pairs_have_an_order(rest);
        let last = pairs.last();
        assert(pairs[pairs.len() - 1] == last);
        assert forall|other: (Seq<char>, Seq<char>)| #[trigger]
            pairs.contains(other) <==> rest.contains(other) || other == last by {
            if rest.contains(other) {
                assert(pairs[rest.index_of(other)] == other);
            }
            if pairs.contains(other) && other != last {
                assert(rest[pairs.index_of(other)] == other);
            }
        }
        assert forall|other: (Seq<char>, Seq<char>)| #[trigger]
            before.contains(other) <==> rest.contains(other) by {
            assert(before.to_set().contains(other) <==> rest.to_set().contains(other));
        }
        if before.contains(last) {
            assert(before.to_set() =~= pairs.to_set());
            before
        } else {
            let ordered = lemma_insert_pair(before, last);
            assert(ordered.to_set() =~= pairs.to_set());
            ordered
        }
    }
}

proof fn lemma_word_order(first: (Seq<char>, Seq<char>), second: (Seq<char>, Seq<char>))
    requires
        lexically_less(pair_word(first), pair_word(second)),
    ensures
        pair_before(first, second),
{
    let whole_a = pair_word(first);
    let whole_b = pair_word(second);
    let place = choose|place: int| lexically_less_at(whole_a, whole_b, place);
    let a = text_word(first.0);
    let b = text_word(second.0);
    let c = text_word(first.1);
    let d = text_word(second.1);
    assert(whole_a.len() == a.len() + 1 + c.len());
    assert(whole_b.len() == b.len() + 1 + d.len());
    assert forall|i: int| 0 <= i < a.len() implies whole_a[i] == a[i] && 0 <= #[trigger] a[i] by {}
    assert forall|i: int| 0 <= i < b.len() implies whole_b[i] == b[i] && 0 <= #[trigger] b[i] by {}
    assert(whole_a[a.len() as int] == -1);
    assert(whole_b[b.len() as int] == -1);
    if first.0 == second.0 {
        let shift = a.len() + 1;
        assert(place >= shift) by {
            if place < a.len() {
                assert(whole_a[place] == whole_b[place]);
            }
        }
        let inner = place - shift;
        assert(d.len() > inner);
        assert forall|i: int| 0 <= i < inner implies encode_utf8(first.1)[i]
            == #[trigger] encode_utf8(second.1)[i] by {
            assert(whole_a[shift + i] == whole_b[shift + i]);
            assert(whole_a[shift + i] == c[i] && whole_b[shift + i] == d[i]);
        }
        if inner < c.len() {
            assert(whole_a[place] == c[inner]);
        }
        assert(whole_b[place] == d[inner]);
        let byte = encode_utf8(second.1)[inner];
        assert(text_before(first.1, second.1));
    } else {
        if place > b.len() || place > a.len() {
            if a.len() < b.len() {
                assert(whole_a[a.len() as int] == whole_b[a.len() as int]);
                assert(whole_b[a.len() as int] == b[a.len() as int]);
            } else if b.len() < a.len() {
                assert(whole_a[b.len() as int] == whole_b[b.len() as int]);
                assert(whole_a[b.len() as int] == a[b.len() as int]);
            }
            assert forall|i: int| 0 <= i < a.len() implies a[i] == b[i] by {
                assert(whole_a[i] == whole_b[i]);
            }
            assert(a =~= b);
            crate::text::lemma_text_word_injective(first.0, second.0);
        }
        assert(place < b.len()) by {
            if place == b.len() {
                assert(whole_b[place] == -1);
                if place < a.len() {
                    assert(whole_a[place] == a[place]);
                }
            }
        }
        assert forall|i: int| 0 <= i < place implies encode_utf8(first.0)[i]
            == #[trigger] encode_utf8(second.0)[i] by {
            assert(whole_a[i] == whole_b[i]);
            assert(whole_a[i] == a[i] && whole_b[i] == b[i]);
        }
        let byte = encode_utf8(second.0)[place];
        assert(text_before(first.0, second.0));
    }
}

proof fn lemma_lines_are_flat(list: Seq<(Seq<char>, Seq<char>)>)
    ensures
        list.len() > 0 ==> attribute_lines(list).push('\n') == list.map_values(
            |pair: (Seq<char>, Seq<char>)| ended_line(pair),
        ).flatten(),
    decreases list.len(),
{
    let line = |pair: (Seq<char>, Seq<char>)| ended_line(pair);
    let lines = list.map_values(line);
    lines.lemma_flatten_and_flatten_alt_are_equivalent();
    if list.len() > 0 {
        let rest = list.drop_last();
        lemma_lines_are_flat(rest);
        assert(rest.map_values(line) =~= lines.drop_last());
        rest.map_values(line).lemma_flatten_and_flatten_alt_are_equivalent();
        assert(lines.last() == ended_line(list.last()));
        let own = list.last().0 + ": "@ + list.last().1;
        assert(own.push('\n') =~= ended_line(list.last()));
        if list.len() == 1 {
            assert(lines.drop_last() =~= Seq::empty());
            assert(lines.flatten_alt() =~= ended_line(list.last()));
        } else {
            assert((attribute_lines(rest).push('\n') + own).push('\n') =~= attribute_lines(
                rest,
            ).push('\n') + ended_line(list.last()));
        }
    }
}

/// A passage is its prefix and one line for each attribute pair: the key, a
/// colon and a space, and the value. Every pair has its line, no pair has two,
/// and the lines stand in the order of the keys and then of the values.
pub proof fn law_passage_lists_every_pair_once_in_order(
    pairs: Seq<(Seq<char>, Seq<char>)>,
) -> (list: Seq<(Seq<char>, Seq<char>)>)
    ensures
        list.no_duplicates(),
        forall|pair: (Seq<char>, Seq<char>)| #[trigger]
            list.contains(pair) <==> pairs.contains(pair),
        forall|i: int, j: int|
            #![trigger list[i], list[j]]
            0 <= i < j < list.len() ==> pair_before(list[i], list[j]),
        pairs.len() > 0 ==> passage(pairs) + seq!['\n'] == "passage: "@ + list.map_values(
            |pair: (Seq<char>, Seq<char>)| ended_line(pair),
        ).flatten(),
{
    let ordered = lemma_pairs_have_an_order(pairs);
    let list = ordered_pairs(pairs.to_set());
    assert(is_ordering(list, pairs.to_set()));
    let words = pair_words(list);
    assert forall|i: int, j: int|
        #![trigger list[i], list[j]]
        0 <= i < j < list.len() implies pair_before(list[i], list[j]) && list[i] != list[j] by {
        assert(lexically_less(words[i], words[j]));
        crate::order::lemma_lexical_asymmetric(words[i], words[j]);
        lemma_word_order(list[i], list[j]);
    }
    assert forall|pair: (Seq<char>, Seq<char>)| #[trigger]
        list.contains(pair) <==> pairs.contains(pair) by {
        assert(list.to_set().contains(pair) <==> pairs.to_set().contains(pair));
    }
    if pairs.len() > 0 {
        assert(pairs.contains(pairs[0]));
        assert(list.contains(pairs[0]));
        lemma_lines_are_flat(list);
        assert(passage(pairs) + seq!['\n'] =~= "passage: "@ + attribute_lines(list).push('\n'));
    }
    list
}

/// The text holds the line from the place on, and the line is a whole one.
pub open spec fn stands_at(text: Seq<char>, line: Seq<char>, place: int) -> bool {
    &&& 0 <= place <= place + line.len() <= text.len()
    &&& text.subrange(place, place + line.len()) == line
    &&& place == 0 || text[place - 1] == '\n'
    &&& place + line.len() == text.len() || text[place + line.len()] == '\n'
}

proof fn lemma_line_stands(list: Seq<(Seq<char>, Seq<char>)>, index: int) -> (place: int)
    requires
        0 <= index < list.len(),
    ensures
        stands_at(attribute_lines(list), list[index].0 + ": "@ + list[index].1, place),
    decreases list.len(),
{
    let line = list[index].0 + ": "@ + list[index].1;
    let text = attribute_lines(list);
    let rest = list.drop_last();
    if index < rest.len() {
        assert(rest[index] == list[index]);
        let place = lemma_line_stands(rest, index);
        let before = attribute_lines(rest);
        assert(text.subrange(0, before.len() as int) =~= before);
        assert(text[before.len() as int] == '\n');
        assert(text.subrange(place, place + line.len()) =~= before.subrange(
            place,
            place + line.len(),
        ));
        place
    } else if list.len() == 1 {
        assert(text.subrange(0, line.len() as int) =~= line);
        0
    } else {
        let place = attribute_lines(rest).len() as int + 1;
        assert(text.subrange(place, place + line.len()) =~= line);
        place
    }
}

/// Every attribute pair stands in the passage as a whole line behind the prefix.
pub proof fn law_every_pair_is_a_line_of_the_passage(
    pairs: Seq<(Seq<char>, Seq<char>)>,
    pair: (Seq<char>, Seq<char>),
) -> (place: int)
    requires
        pairs.contains(pair),
    ensures
        passage(pairs).take(9) == "passage: "@,
        stands_at(passage(pairs).skip(9), pair.0 + ": "@ + pair.1, place),
{
    reveal_strlit("passage: ");
    let ordered = lemma_pairs_have_an_order(pairs);
    let list = ordered_pairs(pairs.to_set());
    assert(is_ordering(list, pairs.to_set()));
    assert(pairs.to_set().contains(pair));
    assert(list.to_set().contains(pair));
    let index = list.index_of(pair);
    assert(list[index] == pair);
    let place = lemma_line_stands(list, index);
    assert(passage(pairs).take(9) =~= "passage: "@);
    assert(passage(pairs).skip(9) =~= attribute_lines(list));
    place
}

/// A query is read behind its own prefix, and nothing of it is left out.
pub proof fn law_query_is_read_whole(query: Seq<char>)
    ensures
        query_projection(query).len() == 7 + query.len(),
        query_projection(query).take(7) == "query: "@,
        query_projection(query).skip(7) == query,
{
    reveal_strlit("query: ");
    assert(query_projection(query).take(7) =~= "query: "@);
    assert(query_projection(query).skip(7) =~= query);
}

} // verus!
