//! Texts that are encoded and the embeddings that they become.

use vstd::prelude::*;
use vstd::string::*;

use crate::order::{
    lemma_ascending_unique, lexically_less_at, sort_distinct, strictly_ascending, words, Lexical,
    Relation,
};
use crate::semantic::profile::{
    e5_small_profile, EmbeddingProfile, EMBEDDING_DIMENSIONS, PROFILE_FINGERPRINT,
};
use crate::text::{lemma_text_word_injective, text_relation, text_word};

verus! {

/// Borrowed normalized free-text query for semantic retrieval.
#[derive(Clone, Copy, Debug, PartialEq, Eq, Hash)]
pub struct QueryText<'a> {
    value: &'a str,
}

/// The retrieval prefix and a query.
pub open spec fn query_projection(query: Seq<char>) -> Seq<char> {
    "query: "@ + query
}

impl<'a> QueryText<'a> {
    /// The query.
    pub closed spec fn text(self) -> Seq<char> {
        self.value@
    }

    /// Creates one borrowed normalized query.
    pub fn new(value: &'a str) -> (query: QueryText<'a>)
        ensures
            query.text() == value@,
    {
        QueryText { value }
    }

    /// Returns the normalized query text.
    pub fn value(self) -> (value: &'a str)
        ensures
            value@ == self.text(),
    {
        self.value
    }

    /// Returns the text that the model reads.
    pub fn project(self) -> (projected: String)
        ensures
            projected@ == query_projection(self.text()),
    {
        let mut projected = "query: ".to_owned();
        projected.append(self.value);
        projected
    }
}

/// The contents of attribute pairs.
pub open spec fn pair_contents(pairs: Seq<(&str, &str)>) -> Seq<(Seq<char>, Seq<char>)> {
    pairs.map_values(|pair: (&str, &str)| (pair.0@, pair.1@))
}

/// The word that orders pairs: the key, then the value.
pub open spec fn pair_word(pair: (Seq<char>, Seq<char>)) -> Seq<int> {
    text_word(pair.0).push(-1) + text_word(pair.1)
}

/// The words of a sequence of pairs.
pub open spec fn pair_words(pairs: Seq<(Seq<char>, Seq<char>)>) -> Seq<Seq<int>> {
    pairs.map_values(|pair: (Seq<char>, Seq<char>)| pair_word(pair))
}

/// The list holds the pairs of the set, each once, in ascending order.
pub open spec fn is_ordering(
    ordered: Seq<(Seq<char>, Seq<char>)>,
    pairs: Set<(Seq<char>, Seq<char>)>,
) -> bool {
    strictly_ascending(pair_words(ordered)) && ordered.to_set() == pairs
}

/// The pairs of the set, each once, in ascending order.
pub open spec fn ordered_pairs(pairs: Set<(Seq<char>, Seq<char>)>) -> Seq<
    (Seq<char>, Seq<char>),
> {
    choose|ordered: Seq<(Seq<char>, Seq<char>)>| is_ordering(ordered, pairs)
}

/// One line per pair: the key, a colon and the value.
pub open spec fn attribute_lines(pairs: Seq<(Seq<char>, Seq<char>)>) -> Seq<char>
    decreases pairs.len(),
{
    if pairs.len() == 0 {
        Seq::empty()
    } else {
        let line = pairs.last().0 + ": "@ + pairs.last().1;
        if pairs.len() == 1 {
            line
        } else {
            attribute_lines(pairs.drop_last()).push('\n') + line
        }
    }
}

/// The passage prefix and the ordered attribute lines.
pub open spec fn passage(pairs: Seq<(Seq<char>, Seq<char>)>) -> Seq<char> {
    "passage: "@ + attribute_lines(ordered_pairs(pairs.to_set()))
}

/// Pairs with the same word are equal.
pub proof fn lemma_pair_word_injective(first: (Seq<char>, Seq<char>), second: (Seq<char>, Seq<char>))
    requires
        pair_word(first) == pair_word(second),
    ensures
        first == second,
{
    let a = text_word(first.0);
    let b = text_word(second.0);
    let whole_a = pair_word(first);
    let whole_b = pair_word(second);
    if a.len() < b.len() {
        assert(whole_a[a.len() as int] == -1);
        assert(whole_b[a.len() as int] == b[a.len() as int]);
    } else if b.len() < a.len() {
        assert(whole_b[b.len() as int] == -1);
        assert(whole_a[b.len() as int] == a[b.len() as int]);
    }
    assert forall|i: int| 0 <= i < a.len() implies a[i] == b[i] by {
        assert(whole_a[i] == a[i]);
        assert(whole_b[i] == b[i]);
    }
    assert(a =~= b);
    lemma_text_word_injective(first.0, second.0);
    let c = text_word(first.1);
    let d = text_word(second.1);
    assert(whole_a.len() == a.len() + 1 + c.len());
    assert(whole_b.len() == b.len() + 1 + d.len());
    assert forall|i: int| 0 <= i < c.len() implies c[i] == d[i] by {
        assert(whole_a[a.len() + 1 + i] == c[i]);
        assert(whole_b[a.len() + 1 + i] == d[i]);
    }
    assert(c =~= d);
    lemma_text_word_injective(first.1, second.1);
}

proof fn lemma_ordering_unique(
    first: Seq<(Seq<char>, Seq<char>)>,
    second: Seq<(Seq<char>, Seq<char>)>,
    pairs: Set<(Seq<char>, Seq<char>)>,
)
    requires
        is_ordering(first, pairs),
        is_ordering(second, pairs),
    ensures
        first == second,
{
    let a = pair_words(first);
    let b = pair_words(second);
    assert forall|word: Seq<int>| a.contains(word) <==> b.contains(word) by {
        if a.contains(word) {
            let i = a.index_of(word);
            assert(first.contains(first[i]));
            assert(first.to_set().contains(first[i]));
            assert(second.contains(first[i]));
            let j = second.index_of(first[i]);
            assert(b[j] == word);
        }
        if b.contains(word) {
            let i = b.index_of(word);
            assert(second.contains(second[i]));
            assert(second.to_set().contains(second[i]));
            assert(first.contains(second[i]));
            let j = first.index_of(second[i]);
            assert(a[j] == word);
        }
    }
    lemma_ascending_unique(a, b);
    assert forall|i: int| 0 <= i < first.len() implies first[i] == second[i] by {
        assert(a[i] == b[i]);
        lemma_pair_word_injective(first[i], second[i]);
    }
    assert(first.len() == a.len());
    assert(second.len() == b.len());
    assert(first =~= second);
}

/// A passage depends on the set of attribute pairs alone: neither their order
/// nor repetitions change it.
pub proof fn law_passage_ignores_order_and_repetition(
    first: Seq<(Seq<char>, Seq<char>)>,
    second: Seq<(Seq<char>, Seq<char>)>,
)
    requires
        forall|pair: (Seq<char>, Seq<char>)| #[trigger]
            first.contains(pair) <==> second.contains(pair),
    ensures
        passage(first) == passage(second),
{
    assert(first.to_set() =~= second.to_set());
}

/// One attribute pair that is ordered by its key and then by its value.
struct BoundPair {
    key: String,
    value: String,
}

impl BoundPair {
    spec fn content(&self) -> (Seq<char>, Seq<char>) {
        (self.key@, self.value@)
    }
}

proof fn lemma_key_decides(first: (Seq<char>, Seq<char>), second: (Seq<char>, Seq<char>))
    requires
        crate::order::lexically_less(text_word(first.0), text_word(second.0)),
    ensures
        crate::order::lexically_less(pair_word(first), pair_word(second)),
{
    let a = text_word(first.0);
    let b = text_word(second.0);
    let position = choose|position: int| lexically_less_at(a, b, position);
    let whole_a = pair_word(first);
    let whole_b = pair_word(second);
    assert forall|i: int| 0 <= i < position implies whole_a[i] == whole_b[i] by {
        assert(whole_a[i] == a[i]);
        assert(whole_b[i] == b[i]);
    }
    assert(whole_b[position] == b[position]);
    if position < a.len() {
        assert(whole_a[position] == a[position]);
    } else {
        assert(whole_a[position] == -1);
    }
    assert(lexically_less_at(whole_a, whole_b, position));
}

proof fn lemma_value_decides(first: (Seq<char>, Seq<char>), second: (Seq<char>, Seq<char>))
    requires
        first.0 == second.0,
        crate::order::lexically_less(text_word(first.1), text_word(second.1)),
    ensures
        crate::order::lexically_less(pair_word(first), pair_word(second)),
{
    let a = text_word(first.1);
    let b = text_word(second.1);
    let position = choose|position: int| lexically_less_at(a, b, position);
    let shift = text_word(first.0).len() + 1;
    let whole_a = pair_word(first);
    let whole_b = pair_word(second);
    assert forall|i: int| 0 <= i < shift + position implies whole_a[i] == whole_b[i] by {
        if i >= shift {
            assert(whole_a[i] == a[i - shift]);
            assert(whole_b[i] == b[i - shift]);
        }
    }
    assert(whole_b[shift + position] == b[position]);
    if position < a.len() {
        assert(whole_a[shift + position] == a[position]);
    }
    assert(lexically_less_at(whole_a, whole_b, shift + position));
}

/// The keys order pairs, and the values order pairs with equal keys.
pub proof fn lemma_pair_order(
    first: (Seq<char>, Seq<char>),
    second: (Seq<char>, Seq<char>),
    keys: Relation,
    relation: Relation,
)
    requires
        crate::order::relates(text_word(first.0), text_word(second.0), keys),
        keys == Relation::Equal ==> crate::order::relates(
            text_word(first.1),
            text_word(second.1),
            relation,
        ),
        keys != Relation::Equal ==> relation == keys,
    ensures
        crate::order::relates(pair_word(first), pair_word(second), relation),
{
    match keys {
        Relation::Less => {
            lemma_key_decides(first, second);
        },
        Relation::Greater => {
            lemma_key_decides(second, first);
        },
        Relation::Equal => {
            lemma_text_word_injective(first.0, second.0);
            match relation {
                Relation::Less => {
                    lemma_value_decides(first, second);
                },
                Relation::Greater => {
                    lemma_value_decides(second, first);
                },
                Relation::Equal => {
                    lemma_text_word_injective(first.1, second.1);
                },
            }
        },
    }
}

impl Lexical for BoundPair {
    closed spec fn word(&self) -> Seq<int> {
        pair_word(self.content())
    }

    fn relation(&self, other: &Self) -> (relation: Relation) {
        let keys = text_relation(self.key.as_str(), other.key.as_str());
        let relation = match keys {
            Relation::Equal => text_relation(self.value.as_str(), other.value.as_str()),
            _ => keys,
        };
        proof {
            lemma_pair_order(self.content(), other.content(), keys, relation);
        }
        relation
    }
}

/// Borrowed normalized attributes for one canonical episode passage.
///
/// Attribute pairs are treated as an unordered set. Projection sorts and
/// deduplicates them lexically, so symbol allocation and caller order cannot
/// change the encoded passage.
#[derive(Clone, Copy, Debug)]
pub struct EpisodeText<'a> {
    attributes: &'a [(&'a str, &'a str)],
}

impl<'a> EpisodeText<'a> {
    /// The bound attribute pairs.
    pub closed spec fn pairs(self) -> Seq<(&'a str, &'a str)> {
        self.attributes@
    }

    /// Creates one borrowed non-empty episode attribute set.
    ///
    /// Returns `None` when no bound attribute pair is supplied.
    pub fn new(attributes: &'a [(&'a str, &'a str)]) -> (text: Option<EpisodeText<'a>>)
        ensures
            text is Some <==> attributes@.len() > 0,
            text matches Some(text) ==> text.pairs() == attributes@,
    {
        if attributes.len() == 0 {
            None
        } else {
            Some(EpisodeText { attributes })
        }
    }

    /// Returns the normalized bound attribute pairs.
    pub fn attributes(self) -> (attributes: &'a [(&'a str, &'a str)])
        ensures
            attributes@ == self.pairs(),
    {
        self.attributes
    }

    /// Returns the text that the model reads.
    pub fn project(self) -> (projected: String)
        ensures
            projected@ == passage(pair_contents(self.pairs())),
    {
        let attributes = self.attributes;
        let ghost pairs = pair_contents(attributes@);
        let mut bound: Vec<BoundPair> = Vec::new();
        let mut index: usize = 0;
        while index < attributes.len()
            invariant
                index <= attributes@.len(),
                bound@.len() == index,
                pairs == pair_contents(attributes@),
                forall|i: int| 0 <= i < index ==> (#[trigger] bound@[i]).content() == pairs[i],
            decreases attributes.len() - index,
        {
            let pair = attributes[index];
            bound.push(BoundPair { key: pair.0.to_owned(), value: pair.1.to_owned() });
            index += 1;
        }
        let ghost items = bound@;
        let sorted = sort_distinct(bound);
        let ghost ordered = Seq::new(sorted@.len(), |i: int| sorted@[i].content());
        proof {
            assert(pair_words(ordered) =~= words(sorted@));
            assert forall|pair: (Seq<char>, Seq<char>)| #[trigger]
                ordered.contains(pair) <==> pairs.contains(pair) by {
                let word = pair_word(pair);
                if ordered.contains(pair) {
                    let i = ordered.index_of(pair);
                    assert(items.contains(sorted@[i]));
                    let j = items.index_of(sorted@[i]);
                    assert(pairs[j] == pair);
                }
                if pairs.contains(pair) {
                    let j = pairs.index_of(pair);
                    assert(items[j].content() == pair);
                    assert(words(items)[j] == word);
                    assert(words(items).contains(word));
                    assert(words(sorted@).contains(word));
                    let i = words(sorted@).index_of(word);
                    assert(pair_word(sorted@[i].content()) == word);
                    lemma_pair_word_injective(sorted@[i].content(), pair);
                    assert(ordered[i] == pair);
                }
            }
            assert(ordered.to_set() =~= pairs.to_set());
            assert(is_ordering(ordered, pairs.to_set()));
            lemma_ordering_unique(ordered, ordered_pairs(pairs.to_set()), pairs.to_set());
        }
        let mut projected = "passage: ".to_owned();
        let mut place: usize = 0;
        proof {
            assert(ordered.take(0) =~= Seq::empty());
            assert(projected@ =~= "passage: "@ + attribute_lines(ordered.take(0)));
        }
        while place < sorted.len()
            invariant
                place <= sorted@.len(),
                ordered == Seq::new(sorted@.len(), |i: int| sorted@[i].content()),
                projected@ == "passage: "@ + attribute_lines(ordered.take(place as int)),
            decreases sorted.len() - place,
        {
            let ghost part = ordered.take(place + 1);
            let ghost before = attribute_lines(ordered.take(place as int));
            let ghost start = projected@;
            if place != 0 {
                projected.push('\n');
            }
            projected.append(sorted[place].key.as_str());
            projected.append(": ");
            projected.append(sorted[place].value.as_str());
            proof {
                assert(part.drop_last() =~= ordered.take(place as int));
                assert(part.last() == sorted@[place as int].content());
                let line = part.last().0 + ": "@ + part.last().1;
                if place == 0 {
                    assert(before =~= Seq::empty());
                    assert(projected@ =~= "passage: "@ + line);
                } else {
                    assert(projected@ =~= "passage: "@ + (before.push('\n') + line));
                }
            }
            place += 1;
        }
        assert(ordered.take(ordered.len() as int) =~= ordered);
        projected
    }
}

/// The components make a canonical embedding.
pub open spec fn canonical_components(values: Seq<i16>) -> bool {
    &&& values.len() == EMBEDDING_DIMENSIONS
    &&& forall|i: int| 0 <= i < values.len() ==> (#[trigger] values[i]) != i16::MIN
    &&& exists|i: int| 0 <= i < values.len() && (#[trigger] values[i]) != 0
}

/// One non-zero 384-dimensional embedding in the canonical signed 16-bit
/// representation.
#[derive(Debug, PartialEq, Eq, Hash)]
pub struct Embedding {
    values: Vec<i16>,
}

impl View for Embedding {
    type V = Seq<i16>;

    closed spec fn view(&self) -> Seq<i16> {
        self.values@
    }
}

impl Embedding {
    /// The fixed width, the symmetric range and a component that is not zero.
    #[verifier::type_invariant]
    pub closed spec fn canonical(self) -> bool {
        canonical_components(self.values@)
    }

    /// Constructs an embedding from its ordered signed components.
    ///
    /// Returns `None` unless `values` has exactly 384 components, every
    /// component is in `-32_767..=32_767`, and at least one is non-zero.
    pub fn new(values: Vec<i16>) -> (embedding: Option<Embedding>)
        ensures
            embedding is Some <==> canonical_components(values@),
            embedding matches Some(embedding) ==> embedding@ == values@,
    {
        if values.len() != EMBEDDING_DIMENSIONS {
            return None;
        }
        let mut has_non_zero = false;
        let mut index: usize = 0;
        while index < values.len()
            invariant
                index <= values@.len(),
                forall|i: int| 0 <= i < index ==> (#[trigger] values@[i]) != i16::MIN,
                has_non_zero <==> exists|i: int| 0 <= i < index && (#[trigger] values@[i]) != 0,
            decreases values.len() - index,
        {
            if values[index] == i16::MIN {
                return None;
            }
            if values[index] != 0 {
                has_non_zero = true;
            }
            index += 1;
        }
        if !has_non_zero {
            return None;
        }
        Some(Embedding { values })
    }

    /// Returns the fixed profile of this vector.
    pub fn profile(&self) -> (profile: EmbeddingProfile)
        ensures
            profile.identity() == PROFILE_FINGERPRINT,
    {
        e5_small_profile()
    }

    /// Returns the ordered signed components.
    pub fn values(&self) -> (values: &[i16])
        ensures
            values@ == self@,
            canonical_components(self@),
    {
        proof {
            use_type_invariant(self);
        }
        self.values.as_slice()
    }
}

impl Clone for Embedding {
    fn clone(&self) -> (copy: Self)
        ensures
            copy@ == self@,
    {
        proof {
            use_type_invariant(self);
        }
        let mut values: Vec<i16> = Vec::new();
        let mut index: usize = 0;
        while index < self.values.len()
            invariant
                index <= self.values@.len(),
                values@ =~= self.values@.take(index as int),
            decreases self.values.len() - index,
        {
            values.push(self.values[index]);
            index += 1;
        }
        assert(values@ =~= self.values@);
        Embedding { values }
    }
}

} // verus!
