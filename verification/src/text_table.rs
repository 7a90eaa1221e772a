//! Distinct texts in first-insertion order, found by binary search.

use vstd::prelude::*;

use crate::order::{lemma_lexical_asymmetric, lemma_lexical_transitive, lexically_less, Relation};
use crate::text::{lemma_text_word_injective, text_relation, text_word};

verus! {

/// Distinct texts, numbered in the order in which they were inserted.
#[derive(Debug)]
pub struct TextTable {
    texts: Vec<String>,
    order: Vec<usize>,
}

/// The contents of a sequence of texts.
pub open spec fn contents(texts: Seq<String>) -> Seq<Seq<char>> {
    texts.map_values(|text: String| text@)
}

/// No text occurs twice.
pub open spec fn distinct(texts: Seq<Seq<char>>) -> bool {
    forall|i: int, j: int|
        #![trigger texts[i], texts[j]]
        0 <= i < j < texts.len() ==> texts[i] != texts[j]
}

spec fn placed(order: Seq<usize>, index: int) -> bool {
    exists|place: int| 0 <= place < order.len() && #[trigger] order[place] == index
}

spec fn word_at(texts: Seq<String>, order: Seq<usize>, place: int) -> Seq<int> {
    text_word(texts[order[place] as int]@)
}

impl View for TextTable {
    type V = Seq<Seq<char>>;

    closed spec fn view(&self) -> Seq<Seq<char>> {
        contents(self.texts@)
    }
}

impl TextTable {
    /// The order lists every text once, by ascending word.
    #[verifier::type_invariant]
    spec fn sorted(self) -> bool {
        &&& self.order@.len() == self.texts@.len()
        &&& forall|place: int|
            0 <= place < self.order@.len() ==> (#[trigger] self.order@[place]) < self.texts@.len()
        &&& forall|index: int|
            0 <= index < self.texts@.len() ==> #[trigger] placed(self.order@, index)
        &&& forall|i: int, j: int|
            #![trigger word_at(self.texts@, self.order@, i), word_at(self.texts@, self.order@, j)]
            0 <= i < j < self.order@.len() ==> lexically_less(
                word_at(self.texts@, self.order@, i),
                word_at(self.texts@, self.order@, j),
            )
    }

    /// Creates a table without texts.
    pub fn new() -> (table: TextTable)
        ensures
            table@ == Seq::<Seq<char>>::empty(),
    {
        let table = TextTable { texts: Vec::new(), order: Vec::new() };
        assert(table@ =~= Seq::empty());
        table
    }

    /// Returns the number of texts.
    pub fn len(&self) -> (length: usize)
        ensures
            length == self@.len(),
            distinct(self@),
    {
        proof {
            use_type_invariant(self);
            self.lemma_distinct();
        }
        self.texts.len()
    }

    /// Returns one text.
    pub fn text(&self, index: usize) -> (text: &str)
        requires
            index < self@.len(),
        ensures
            text@ == self@[index as int],
    {
        self.texts[index].as_str()
    }

    /// Returns the texts in insertion order.
    pub fn into_texts(self) -> (texts: Vec<String>)
        ensures
            contents(texts@) == self@,
            distinct(self@),
    {
        proof {
            use_type_invariant(&self);
            self.lemma_distinct();
        }
        self.texts
    }

    /// No text of a table occurs twice.
    proof fn lemma_distinct(&self)
        requires
            self.sorted(),
        ensures
            distinct(self@),
    {
        assert forall|i: int, j: int|
            #![trigger self@[i], self@[j]]
            0 <= i < j < self@.len() implies self@[i] != self@[j] by {
            assert(placed(self.order@, i));
            assert(placed(self.order@, j));
            let a = choose|place: int|
                0 <= place < self.order@.len() && #[trigger] self.order@[place] == i;
            let b = choose|place: int|
                0 <= place < self.order@.len() && #[trigger] self.order@[place] == j;
            let word_a = word_at(self.texts@, self.order@, a);
            let word_b = word_at(self.texts@, self.order@, b);
            if a < b {
                assert(lexically_less(word_a, word_b));
                lemma_lexical_asymmetric(word_a, word_b);
            } else {
                assert(lexically_less(word_b, word_a));
                lemma_lexical_asymmetric(word_b, word_a);
            }
        }
    }

    /// Returns the place of a text in the order, or the place where it belongs.
    fn search(&self, text: &str) -> (found: (usize, bool))
        ensures
            found.0 <= self.order@.len(),
            found.1 ==> found.0 < self.order@.len() && self.texts@[self.order@[found.0 as int]
                as int]@ == text@,
            !found.1 ==> {
                &&& forall|place: int|
                    0 <= place < found.0 ==> lexically_less(
                        #[trigger] word_at(self.texts@, self.order@, place),
                        text_word(text@),
                    )
                &&& forall|place: int|
                    found.0 <= place < self.order@.len() ==> lexically_less(
                        text_word(text@),
                        #[trigger] word_at(self.texts@, self.order@, place),
                    )
            },
    {
        proof {
            use_type_invariant(self);
        }
        let mut low: usize = 0;
        let mut high: usize = self.order.len();
        while low < high
            invariant
                low <= high <= self.order@.len(),
                self.sorted(),
                forall|place: int|
                    0 <= place < low ==> lexically_less(
                        #[trigger] word_at(self.texts@, self.order@, place),
                        text_word(text@),
                    ),
                forall|place: int|
                    high <= place < self.order@.len() ==> lexically_less(
                        text_word(text@),
                        #[trigger] word_at(self.texts@, self.order@, place),
                    ),
            decreases high - low,
        {
            let middle: usize = low + (high - low) / 2;
            let index: usize = self.order[middle];
            let ghost middle_word = word_at(self.texts@, self.order@, middle as int);
            match text_relation(self.texts[index].as_str(), text) {
                Relation::Less => {
                    proof {
                        assert forall|place: int| 0 <= place < middle + 1 implies lexically_less(
                            #[trigger] word_at(self.texts@, self.order@, place),
                            text_word(text@),
                        ) by {
                            if place < middle {
                                lemma_lexical_transitive(
                                    word_at(self.texts@, self.order@, place),
                                    middle_word,
                                    text_word(text@),
                                );
                            }
                        }
                    }
                    low = middle + 1;
                },
                Relation::Equal => {
                    proof {
                        lemma_text_word_injective(self.texts@[index as int]@, text@);
                    }
                    return (middle, true);
                },
                Relation::Greater => {
                    proof {
                        assert forall|place: int|
                            middle <= place < self.order@.len() implies lexically_less(
                            text_word(text@),
                            #[trigger] word_at(self.texts@, self.order@, place),
                        ) by {
                            if place > middle {
                                lemma_lexical_transitive(
                                    text_word(text@),
                                    middle_word,
                                    word_at(self.texts@, self.order@, place),
                                );
                            }
                        }
                    }
                    high = middle;
                },
            }
        }
        (low, false)
    }

    /// Returns the number of a text.
    pub fn find(&self, text: &str) -> (found: Option<usize>)
        ensures
            found matches Some(index) ==> index < self@.len() && self@[index as int] == text@,
            found is None ==> !self@.contains(text@),
    {
        proof {
            use_type_invariant(self);
        }
        let (place, known) = self.search(text);
        if known {
            return Some(self.order[place]);
        }
        proof {
            if self@.contains(text@) {
                let index = choose|index: int| 0 <= index < self@.len() && self@[index] == text@;
                assert(placed(self.order@, index));
                let other = choose|place: int|
                    0 <= place < self.order@.len() && #[trigger] self.order@[place] == index;
                let word = word_at(self.texts@, self.order@, other);
                if other < place {
                    lemma_lexical_asymmetric(word, text_word(text@));
                } else {
                    lemma_lexical_asymmetric(text_word(text@), word);
                }
            }
        }
        None
    }

    /// Numbers a text, as a new one if it is not known.
    pub fn insert(&mut self, text: String) -> (index: usize)
        ensures
            index < final(self)@.len(),
            final(self)@[index as int] == text@,
            old(self)@.contains(text@) ==> final(self)@ == old(self)@,
            !old(self)@.contains(text@) ==> final(self)@ == old(self)@.push(text@) && index
                == old(self)@.len(),
    {
        proof {
            use_type_invariant(&*self);
        }
        let (place, known) = self.search(text.as_str());
        if known {
            let index: usize = self.order[place];
            assert(self@[index as int] == text@);
            return index;
        }
        proof {
            if self@.contains(text@) {
                let index = choose|index: int| 0 <= index < self@.len() && self@[index] == text@;
                assert(placed(self.order@, index));
                let other = choose|place: int|
                    0 <= place < self.order@.len() && #[trigger] self.order@[place] == index;
                let word = word_at(self.texts@, self.order@, other);
                if other < place {
                    lemma_lexical_asymmetric(word, text_word(text@));
                } else {
                    lemma_lexical_asymmetric(text_word(text@), word);
                }
            }
        }
        let ghost old_texts = self.texts@;
        let ghost old_order = self.order@;
        let ghost content = text@;
        let mut taken = TextTable::new();
        std::mem::swap(self, &mut taken);
        let TextTable { mut texts, mut order } = taken;
        let index: usize = texts.len();
        texts.push(text);
        order.insert(place, index);
        proof {
            assert(order@ =~= old_order.insert(place as int, index));
            assert forall|position: int| 0 <= position < order@.len() implies (
            #[trigger] order@[position]) < texts@.len() by {
                if position < place {
                    assert(order@[position] == old_order[position]);
                } else if position > place {
                    assert(order@[position] == old_order[position - 1]);
                }
            }
            assert forall|number: int| 0 <= number < texts@.len() implies #[trigger] placed(
                order@,
                number,
            ) by {
                if number == index {
                    assert(order@[place as int] == number);
                } else {
                    assert(placed(old_order, number));
                    let before = choose|position: int|
                        0 <= position < old_order.len() && #[trigger] old_order[position] == number;
                    if before < place {
                        assert(order@[before] == number);
                    } else {
                        assert(order@[before + 1] == number);
                    }
                }
            }
            assert forall|i: int, j: int|
                #![trigger word_at(texts@, order@, i), word_at(texts@, order@, j)]
                0 <= i < j < order@.len() implies lexically_less(
                word_at(texts@, order@, i),
                word_at(texts@, order@, j),
            ) by {
                let old_i = if i < place {
                    i
                } else {
                    i - 1
                };
                let old_j = if j < place {
                    j
                } else {
                    j - 1
                };
                if i != place {
                    assert(word_at(texts@, order@, i) == word_at(old_texts, old_order, old_i));
                }
                if j != place {
                    assert(word_at(texts@, order@, j) == word_at(old_texts, old_order, old_j));
                }
            }
        }
        *self = TextTable { texts, order };
        assert(self@ =~= old(self)@.push(content));
        index
    }
}

} // verus!
