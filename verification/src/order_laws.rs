//! What the lexicographic order says.

use vstd::prelude::*;

use crate::order::{
    increasing, lexically_less, lexically_less_at, relates, strictly_ascending, Relation,
};

verus! {

/// The first difference decides, and a sequence comes before every longer one
/// that begins with it.
pub proof fn law_first_difference_decides(
    start: Seq<int>,
    lesser: int,
    greater: int,
    first: Seq<int>,
    second: Seq<int>,
)
    requires
        lesser < greater,
    ensures
        lexically_less(start.push(lesser) + first, start.push(greater) + second),
        !lexically_less(start.push(greater) + second, start.push(lesser) + first),
        lexically_less(start, start.push(lesser) + first),
        !lexically_less(start.push(lesser) + first, start),
        !lexically_less(start, start),
{
    let small = start.push(lesser) + first;
    let great = start.push(greater) + second;
    let place = start.len() as int;
    assert(small[place] == lesser && great[place] == greater);
    assert(lexically_less_at(small, great, place));
    assert(lexically_less_at(start, small, place));
    crate::order::lemma_lexical_asymmetric(small, great);
    crate::order::lemma_lexical_asymmetric(start, small);
    if lexically_less(start, start) {
        crate::order::lemma_lexical_asymmetric(start, start);
    }
}

/// A comparison tells which of two sequences comes first.
pub proof fn law_relations_tell_the_order(first: Seq<int>, second: Seq<int>)
    ensures
        relates(first, second, Relation::Less) <==> lexically_less(first, second),
        relates(first, second, Relation::Greater) <==> lexically_less(second, first),
        relates(first, second, Relation::Equal) <==> first == second,
{
}

/// In an ascending list every sequence comes before every later one, and in an
/// increasing list every number is less than every later one.
pub proof fn law_ascending_lists(words: Seq<Seq<int>>, numbers: Seq<u64>)
    ensures
        strictly_ascending(words) <==> forall|i: int, j: int|
            #![trigger words[i], words[j]]
            0 <= i < j < words.len() ==> lexically_less(words[i], words[j]),
        increasing(numbers) <==> forall|i: int, j: int|
            #![trigger numbers[i], numbers[j]]
            0 <= i < j < numbers.len() ==> numbers[i] < numbers[j],
{
}

} // verus!
