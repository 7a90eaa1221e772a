//! Lexicographic order and duplicate-free sorting.

use vstd::multiset::Multiset;
use vstd::prelude::*;

use crate::heap::MinHeap;

verus! {

/// `lesser` runs out or holds the smaller entry at the first difference.
pub open spec fn lexically_less_at(lesser: Seq<int>, greater: Seq<int>, position: int) -> bool {
    &&& 0 <= position < greater.len()
    &&& position <= lesser.len()
    &&& forall|i: int| 0 <= i < position ==> lesser[i] == greater[i]
    &&& position < lesser.len() ==> lesser[position] < greater[position]
}

/// Lexicographic order: the first difference decides, and a proper prefix is less.
pub open spec fn lexically_less(lesser: Seq<int>, greater: Seq<int>) -> bool {
    exists|position: int| lexically_less_at(lesser, greater, position)
}

/// Lexicographic order is transitive.
pub proof fn lemma_lexical_transitive(a: Seq<int>, b: Seq<int>, c: Seq<int>)
    requires
        lexically_less(a, b),
        lexically_less(b, c),
    ensures
        lexically_less(a, c),
{
    let i = choose|i: int| lexically_less_at(a, b, i);
    let j = choose|j: int| lexically_less_at(b, c, j);
    let k = if i <= j {
        i
    } else {
        j
    };
    assert(lexically_less_at(a, c, k));
}

/// No sequence precedes itself, and two sequences never precede each other.
pub proof fn lemma_lexical_asymmetric(a: Seq<int>, b: Seq<int>)
    requires
        lexically_less(a, b),
    ensures
        a != b,
        !lexically_less(b, a),
{
    let i = choose|i: int| lexically_less_at(a, b, i);
    if a == b {
        assert(i < a.len());
    }
    if lexically_less(b, a) {
        let j = choose|j: int| lexically_less_at(b, a, j);
        if i < j {
            assert(b[i] == a[i]);
        } else if j < i {
            assert(a[j] == b[j]);
        }
    }
}

/// How one value stands to another.
#[derive(Clone, Copy, Debug, PartialEq, Eq, Structural)]
pub enum Relation {
    /// The first value precedes the second.
    Less,
    /// The values are equal.
    Equal,
    /// The second value precedes the first.
    Greater,
}

/// The relation of two words in lexicographic order.
pub open spec fn relates(first: Seq<int>, second: Seq<int>, relation: Relation) -> bool {
    match relation {
        Relation::Less => lexically_less(first, second),
        Relation::Equal => first == second,
        Relation::Greater => lexically_less(second, first),
    }
}

/// A value that is ordered by a word of integers.
pub trait Lexical: Sized {
    /// The word that orders this value.
    spec fn word(&self) -> Seq<int>;

    /// Places this value before, at or after another.
    fn relation(&self, other: &Self) -> (relation: Relation)
        ensures
            relates(self.word(), other.word(), relation),
    ;
}

/// The words of a sequence of values.
pub open spec fn words<T: Lexical>(values: Seq<T>) -> Seq<Seq<int>> {
    values.map_values(|value: T| value.word())
}

/// Each word precedes every later one.
pub open spec fn strictly_ascending(words: Seq<Seq<int>>) -> bool {
    forall|i: int, j: int|
        #![trigger words[i], words[j]]
        0 <= i < j < words.len() ==> lexically_less(words[i], words[j])
}

/// Two strictly ascending sequences with the same members are the same sequence.
pub proof fn lemma_ascending_unique(first: Seq<Seq<int>>, second: Seq<Seq<int>>)
    requires
        strictly_ascending(first),
        strictly_ascending(second),
        forall|word: Seq<int>| first.contains(word) <==> second.contains(word),
    ensures
        first == second,
    decreases first.len(),
{
    if first.len() == 0 {
        if second.len() > 0 {
            assert(second.contains(second[0]));
            assert(first.contains(second[0]));
        }
        assert(first =~= second);
    } else {
        assert(first.contains(first.last()));
        assert(second.len() > 0);
        assert(second.contains(second.last()));
        let i = second.index_of(first.last());
        let j = first.index_of(second.last());
        if first.last() != second.last() {
            assert(lexically_less(second[i], second.last()));
            assert(lexically_less(first[j], first.last()));
            lemma_lexical_asymmetric(first.last(), second.last());
        }
        assert forall|word: Seq<int>|
            first.drop_last().contains(word) <==> second.drop_last().contains(word) by {
            if first.drop_last().contains(word) {
                let k = first.drop_last().index_of(word);
                assert(first[k] == word);
                assert(first.contains(word));
                let l = second.index_of(word);
                lemma_lexical_asymmetric(first[k], first.last());
                assert(second.drop_last()[l] == word);
            }
            if second.drop_last().contains(word) {
                let k = second.drop_last().index_of(word);
                assert(second[k] == word);
                assert(second.contains(word));
                let l = first.index_of(word);
                lemma_lexical_asymmetric(second[k], second.last());
                assert(first.drop_last()[l] == word);
            }
        }
        lemma_ascending_unique(first.drop_last(), second.drop_last());
        assert(first =~= first.drop_last().push(first.last()));
        assert(second =~= second.drop_last().push(second.last()));
    }
}

/// The position at which `item` stands, or would stand, in an ascending vector.
fn find_position<T: Lexical>(sorted: &Vec<T>, item: &T) -> (found: (usize, bool))
    requires
        strictly_ascending(words(sorted@)),
    ensures
        found.0 <= sorted@.len(),
        forall|i: int|
            0 <= i < found.0 ==> lexically_less(#[trigger] sorted@[i].word(), item.word()),
        found.1 ==> found.0 < sorted@.len() && sorted@[found.0 as int].word() == item.word(),
        !found.1 ==> forall|i: int|
            found.0 <= i < sorted@.len() ==> lexically_less(
                item.word(),
                #[trigger] sorted@[i].word(),
            ),
{
    let ghost all = words(sorted@);
    let mut low: usize = 0;
    let mut high: usize = sorted.len();
    while low < high
        invariant
            low <= high <= sorted@.len(),
            all == words(sorted@),
            strictly_ascending(all),
            forall|i: int| 0 <= i < low ==> lexically_less(#[trigger] sorted@[i].word(), item.word()),
            forall|i: int|
                high <= i < sorted@.len() ==> lexically_less(
                    item.word(),
                    #[trigger] sorted@[i].word(),
                ),
        decreases high - low,
    {
        let middle: usize = low + (high - low) / 2;
        let relation = sorted[middle].relation(item);
        match relation {
            Relation::Less => {
                proof {
                    assert forall|i: int| 0 <= i < middle + 1 implies lexically_less(
                        #[trigger] sorted@[i].word(),
                        item.word(),
                    ) by {
                        if i < middle {
                            assert(lexically_less(all[i], all[middle as int]));
                            lemma_lexical_transitive(all[i], all[middle as int], item.word());
                        }
                    }
                }
                low = middle + 1;
            },
            Relation::Equal => {
                proof {
                    assert forall|i: int| 0 <= i < middle implies lexically_less(
                        #[trigger] sorted@[i].word(),
                        item.word(),
                    ) by {
                        assert(lexically_less(all[i], all[middle as int]));
                    }
                }
                return (middle, true);
            },
            Relation::Greater => {
                proof {
                    assert forall|i: int| middle <= i < sorted@.len() implies lexically_less(
                        item.word(),
                        #[trigger] sorted@[i].word(),
                    ) by {
                        if i > middle {
                            assert(lexically_less(all[middle as int], all[i]));
                            lemma_lexical_transitive(item.word(), all[middle as int], all[i]);
                        }
                    }
                }
                high = middle;
            },
        }
    }
    (low, false)
}

/// Sorts values and keeps one of each.
pub fn sort_distinct<T: Lexical>(items: Vec<T>) -> (sorted: Vec<T>)
    ensures
        strictly_ascending(words(sorted@)),
        forall|word: Seq<int>| words(sorted@).contains(word) <==> words(items@).contains(word),
        forall|i: int| 0 <= i < sorted@.len() ==> items@.contains(#[trigger] sorted@[i]),
        sorted@.len() <= items@.len(),
{
    let mut items = items;
    let ghost whole = items@;
    let mut sorted: Vec<T> = Vec::new();
    while items.len() > 0
        invariant
            items@.len() <= whole.len(),
            items@ =~= whole.take(items@.len() as int),
            sorted@.len() + items@.len() <= whole.len(),
            strictly_ascending(words(sorted@)),
            forall|word: Seq<int>|
                words(sorted@).contains(word) <==> words(whole.skip(items@.len() as int)).contains(
                    word,
                ),
            forall|i: int| 0 <= i < sorted@.len() ==> whole.contains(#[trigger] sorted@[i]),
        decreases items@.len(),
    {
        let item: T = items.pop().unwrap();
        let (position, known) = find_position(&sorted, &item);
        let ghost before = sorted@;
        let ghost word = item.word();
        let ghost rest = whole.skip(items@.len() as int);
        let ghost later = whole.skip(items@.len() as int + 1);
        proof {
            assert(item == whole[items@.len() as int]);
            assert(rest =~= seq![item] + later);
            assert(words(rest) =~= seq![word] + words(later));
            assert forall|other: Seq<int>|
                words(rest).contains(other) <==> other == word || words(later).contains(other) by {
                if words(rest).contains(other) {
                    let k = words(rest).index_of(other);
                    if k > 0 {
                        assert(words(later)[k - 1] == other);
                    }
                }
                if words(later).contains(other) {
                    let k = words(later).index_of(other);
                    assert(words(rest)[k + 1] == other);
                }
                assert(words(rest)[0] == word);
            }
        }
        if known {
            assert(words(before)[position as int] == word);
        } else {
            sorted.insert(position, item);
            proof {
                let after = sorted@;
                assert(after =~= before.insert(position as int, item));
                assert(words(after) =~= words(before).insert(position as int, word));
                assert forall|other: Seq<int>|
                    words(after).contains(other) <==> other == word || words(before).contains(
                        other,
                    ) by {
                    if words(after).contains(other) {
                        let k = words(after).index_of(other);
                        if k < position {
                            assert(words(before)[k] == other);
                        } else if k > position {
                            assert(words(before)[k - 1] == other);
                        }
                    }
                    if words(before).contains(other) {
                        let k = words(before).index_of(other);
                        if k < position {
                            assert(words(after)[k] == other);
                        } else {
                            assert(words(after)[k + 1] == other);
                        }
                    }
                    assert(words(after)[position as int] == word);
                }
                assert forall|i: int, j: int|
                    #![trigger words(after)[i], words(after)[j]]
                    0 <= i < j < words(after).len() implies lexically_less(
                    words(after)[i],
                    words(after)[j],
                ) by {
                    let old_i = if i < position { i } else { i - 1 };
                    let old_j = if j < position { j } else { j - 1 };
                    if i == position {
                        assert(lexically_less(word, before[old_j].word()));
                    } else if j == position {
                        assert(lexically_less(before[old_i].word(), word));
                    } else {
                        assert(lexically_less(words(before)[old_i], words(before)[old_j]));
                    }
                }
                assert(whole.contains(whole[items@.len() as int]));
                assert forall|i: int| 0 <= i < after.len() implies whole.contains(
                    #[trigger] after[i],
                ) by {
                    if i < position {
                        assert(after[i] == before[i]);
                    } else if i > position {
                        assert(after[i] == before[i - 1]);
                    }
                }
            }
        }
        assert(items@ =~= whole.take(items@.len() as int));
    }
    assert(whole.skip(0) =~= whole);
    sorted
}

/// Each number is smaller than every later one.
pub open spec fn increasing(values: Seq<u64>) -> bool {
    forall|i: int, j: int|
        #![trigger values[i], values[j]]
        0 <= i < j < values.len() ==> values[i] < values[j]
}

/// Each key is smaller than every later one.
pub open spec fn increasing_keys(keys: Seq<u128>) -> bool {
    forall|i: int, j: int|
        #![trigger keys[i], keys[j]]
        0 <= i < j < keys.len() ==> keys[i] < keys[j]
}

/// Two increasing sequences with the same members are the same sequence.
pub proof fn lemma_increasing_unique(first: Seq<u64>, second: Seq<u64>)
    requires
        increasing(first),
        increasing(second),
        forall|value: u64| first.contains(value) <==> second.contains(value),
    ensures
        first == second,
    decreases first.len(),
{
    if first.len() == 0 {
        if second.len() > 0 {
            assert(second.contains(second[0]));
            assert(first.contains(second[0]));
        }
        assert(first =~= second);
    } else {
        assert(first.contains(first.last()));
        assert(second.len() > 0);
        assert(second.contains(second.last()));
        let i = second.index_of(first.last());
        let j = first.index_of(second.last());
        assert(second[i] <= second.last());
        assert(first[j] <= first.last());
        assert forall|value: u64|
            first.drop_last().contains(value) <==> second.drop_last().contains(value) by {
            if first.drop_last().contains(value) {
                let k = first.drop_last().index_of(value);
                assert(first[k] == value && first.contains(value));
                let l = second.index_of(value);
                assert(second.drop_last()[l] == value);
            }
            if second.drop_last().contains(value) {
                let k = second.drop_last().index_of(value);
                assert(second[k] == value && second.contains(value));
                let l = first.index_of(value);
                assert(first.drop_last()[l] == value);
            }
        }
        lemma_increasing_unique(first.drop_last(), second.drop_last());
        assert(first =~= first.drop_last().push(first.last()));
        assert(second =~= second.drop_last().push(second.last()));
    }
}

spec fn held(keys: Multiset<u128>, key: u128) -> bool {
    keys.count(key) > 0
}

/// The key occurs in the sequence.
pub open spec fn listed(keys: Seq<u128>, key: u128) -> bool {
    keys.contains(key)
}

/// Appending a key lists it besides what was listed.
pub proof fn lemma_listed_push(keys: Seq<u128>, key: u128)
    ensures
        forall|other: u128| #[trigger]
            listed(keys.push(key), other) <==> other == key || listed(keys, other),
{
    assert forall|other: u128| #[trigger]
        listed(keys.push(key), other) <==> other == key || listed(keys, other) by {
        let after = keys.push(key);
        assert(after[keys.len() as int] == key);
        if keys.contains(other) {
            let k = keys.index_of(other);
            assert(after[k] == other);
        }
        if after.contains(other) && other != key {
            let k = after.index_of(other);
            assert(keys[k] == other);
        }
    }
}

/// Sorts keys and keeps one of each.
pub fn sort_distinct_keys(keys: &[u128]) -> (sorted: Vec<u128>)
    ensures
        increasing_keys(sorted@),
        forall|key: u128| #[trigger] listed(sorted@, key) <==> listed(keys@, key),
        sorted@.len() <= keys@.len(),
{
    broadcast use vstd::multiset::group_multiset_axioms;

    let ghost whole = keys@;
    let mut heap = MinHeap::new();
    let mut index: usize = 0;
    while index < keys.len()
        invariant
            whole == keys@,
            index <= whole.len(),
            heap.wf(),
            heap@.len() == index,
            forall|key: u128| #[trigger]
                held(heap@, key) <==> listed(whole.take(index as int), key),
        decreases whole.len() - index,
    {
        let key: u128 = keys[index];
        let ghost before = heap@;
        heap.push(key);
        proof {
            lemma_listed_push(whole.take(index as int), key);
            assert(whole.take(index + 1) =~= whole.take(index as int).push(key));
            assert forall|other: u128| #[trigger]
                held(heap@, other) <==> listed(whole.take(index + 1), other) by {
                assert(held(heap@, other) <==> other == key || held(before, other));
            }
        }
        index = index + 1;
    }
    assert(whole.take(whole.len() as int) =~= whole);
    let mut sorted: Vec<u128> = Vec::new();
    while heap.len() > 0
        invariant
            heap.wf(),
            increasing_keys(sorted@),
            sorted@.len() + heap@.len() <= whole.len(),
            forall|key: u128, i: int|
                #![trigger held(heap@, key), sorted@[i]]
                held(heap@, key) && 0 <= i < sorted@.len() ==> sorted@[i] <= key,
            forall|key: u128| #[trigger]
                listed(whole, key) <==> listed(sorted@, key) || held(heap@, key),
        decreases heap@.len(),
    {
        let ghost before = heap@;
        let ghost sorted_before = sorted@;
        let key: u128 = heap.pop().unwrap();
        assert(held(before, key));
        if sorted.len() == 0 || sorted[sorted.len() - 1] != key {
            sorted.push(key);
            proof {
                lemma_listed_push(sorted_before, key);
            }
        } else {
            assert(listed(sorted@, key)) by {
                assert(sorted@[sorted@.len() - 1] == key);
            }
        }
        proof {
            assert forall|other: u128| #[trigger]
                listed(whole, other) <==> listed(sorted@, other) || held(heap@, other) by {
                assert(listed(whole, other) <==> listed(sorted_before, other) || held(
                    before,
                    other,
                ));
                assert(held(before, other) <==> other == key || held(heap@, other));
            }
            assert forall|other: u128, i: int|
                #![trigger held(heap@, other), sorted@[i]]
                held(heap@, other) && 0 <= i < sorted@.len() implies sorted@[i] <= other by {
                assert(held(before, other));
                if i < sorted_before.len() {
                    assert(sorted_before[i] <= other);
                }
            }
        }
    }
    assert forall|key: u128| #[trigger] listed(sorted@, key) <==> listed(keys@, key) by {
        assert(listed(whole, key) <==> listed(sorted@, key) || held(heap@, key));
    }
    sorted
}

/// Sorts numbers and keeps one of each.
pub fn sort_distinct_numbers(values: &[u64]) -> (sorted: Vec<u64>)
    ensures
        increasing(sorted@),
        forall|value: u64| sorted@.contains(value) <==> values@.contains(value),
        sorted@.len() <= values@.len(),
{
    let mut keys: Vec<u128> = Vec::new();
    let mut index: usize = 0;
    while index < values.len()
        invariant
            index <= values@.len(),
            keys@.len() == index,
            forall|i: int| 0 <= i < index ==> keys@[i] == values@[i],
        decreases values@.len() - index,
    {
        keys.push(values[index] as u128);
        index = index + 1;
    }
    let sorted_keys = sort_distinct_keys(keys.as_slice());
    let mut sorted: Vec<u64> = Vec::new();
    let mut place: usize = 0;
    while place < sorted_keys.len()
        invariant
            place <= sorted_keys@.len(),
            sorted@.len() == place,
            increasing_keys(sorted_keys@),
            forall|key: u128| #[trigger] listed(sorted_keys@, key) <==> listed(keys@, key),
            keys@.len() == values@.len(),
            forall|i: int| 0 <= i < keys@.len() ==> keys@[i] == values@[i],
            forall|i: int| 0 <= i < place ==> sorted@[i] == sorted_keys@[i],
        decreases sorted_keys@.len() - place,
    {
        let key: u128 = sorted_keys[place];
        assert(key <= u64::MAX) by {
            assert(listed(sorted_keys@, key));
            assert(listed(keys@, key));
            let k = keys@.index_of(key);
            assert(keys@[k] == values@[k]);
        }
        sorted.push(key as u64);
        place = place + 1;
    }
    proof {
        assert forall|value: u64| sorted@.contains(value) <==> values@.contains(value) by {
            let key = value as u128;
            if sorted@.contains(value) {
                let k = sorted@.index_of(value);
                assert(sorted_keys@[k] == key);
                assert(listed(sorted_keys@, key));
                assert(listed(keys@, key));
                let l = keys@.index_of(key);
                assert(values@[l] == value);
            }
            if values@.contains(value) {
                let k = values@.index_of(value);
                assert(keys@[k] == key);
                assert(listed(keys@, key));
                assert(listed(sorted_keys@, key));
                let l = sorted_keys@.index_of(key);
                assert(sorted@[l] == value);
            }
        }
        assert forall|i: int, j: int|
            #![trigger sorted@[i], sorted@[j]]
            0 <= i < j < sorted@.len() implies sorted@[i] < sorted@[j] by {
            assert(sorted_keys@[i] < sorted_keys@[j]);
        }
    }
    sorted
}

} // verus!
