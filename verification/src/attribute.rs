//! Episodes made of set-valued symbolic attributes.

use std::collections::BTreeSet;

use vstd::prelude::*;

use crate::episode::{list_cues, Cue, Episode};
use crate::model::{AtomId, ModelError, SymbolId, TimestampMs};
use crate::order::{
    increasing, increasing_keys, lemma_increasing_unique, lemma_listed_push, listed,
    sort_distinct_keys, sort_distinct_numbers,
};

verus! {

/// The numbers of a sequence of symbols.
pub open spec fn numbers(symbols: Seq<SymbolId>) -> Seq<u64> {
    symbols.map_values(|symbol: SymbolId| symbol.0)
}

/// An attribute key with its set of values.
#[derive(Debug, PartialEq, Eq, PartialOrd, Ord, Hash)]
pub struct Attribute {
    key: SymbolId,
    values: Vec<SymbolId>,
}

impl View for Attribute {
    type V = (u64, Seq<u64>);

    closed spec fn view(&self) -> (u64, Seq<u64>) {
        (self.key.0, numbers(self.values@))
    }
}

/// A key with at least one value, the values increasing.
pub open spec fn canonical_group(group: (u64, Seq<u64>)) -> bool {
    group.1.len() > 0 && increasing(group.1)
}

impl Attribute {
    #[verifier::type_invariant]
    pub closed spec fn canonical(self) -> bool {
        canonical_group(self@)
    }

    /// Creates an attribute from its key and values; order and repetition of the
    /// values do not matter.
    pub fn new(key: SymbolId, values: Vec<SymbolId>) -> (result: Result<Attribute, ModelError>)
        ensures
            values@.len() == 0 ==> result == Err::<Attribute, ModelError>(
                ModelError::EmptyAttributeValues,
            ),
            values@.len() > 0 ==> result is Ok && result->Ok_0@.0 == key.0 && canonical_group(
                result->Ok_0@,
            ) && forall|value: u64|
                result->Ok_0@.1.contains(value) <==> numbers(values@).contains(value),
    {
        if values.len() == 0 {
            return Err(ModelError::EmptyAttributeValues);
        }
        let supplied = symbol_numbers(values.as_slice());
        let sorted = sort_distinct_numbers(supplied.as_slice());
        assert(sorted@.len() > 0) by {
            assert(supplied@.contains(supplied@[0]));
            assert(sorted@.contains(supplied@[0]));
        }
        let symbols = symbols_from(sorted.as_slice());
        Ok(Attribute { key, values: symbols })
    }

    /// Returns the attribute key.
    pub fn key(&self) -> (key: SymbolId)
        ensures
            key.0 == self@.0,
            canonical_group(self@),
    {
        proof {
            use_type_invariant(self);
        }
        self.key
    }

    /// Returns the sorted, duplicate-free values.
    pub fn values(&self) -> (values: &[SymbolId])
        ensures
            numbers(values@) == self@.1,
            canonical_group(self@),
    {
        proof {
            use_type_invariant(self);
        }
        self.values.as_slice()
    }
}

impl Clone for Attribute {
    fn clone(&self) -> (copy: Attribute)
        ensures
            copy@ == self@,
    {
        proof {
            use_type_invariant(self);
        }
        let values = self.values.clone();
        assert(values@ =~= self.values@);
        Attribute { key: self.key, values }
    }
}

fn symbol_numbers(symbols: &[SymbolId]) -> (values: Vec<u64>)
    ensures
        values@ == numbers(symbols@),
{
    let mut values: Vec<u64> = Vec::new();
    let mut index: usize = 0;
    while index < symbols.len()
        invariant
            index <= symbols@.len(),
            values@ == numbers(symbols@.take(index as int)),
        decreases symbols@.len() - index,
    {
        values.push(symbols[index].0);
        index = index + 1;
        assert(values@ =~= numbers(symbols@.take(index as int)));
    }
    assert(symbols@.take(index as int) =~= symbols@);
    values
}

fn symbols_from(values: &[u64]) -> (symbols: Vec<SymbolId>)
    ensures
        numbers(symbols@) == values@,
{
    let mut symbols: Vec<SymbolId> = Vec::new();
    let mut index: usize = 0;
    while index < values.len()
        invariant
            index <= values@.len(),
            symbols@.len() == index,
            forall|i: int| 0 <= i < index ==> (#[trigger] symbols@[i]).0 == values@[i],
        decreases values@.len() - index,
    {
        symbols.push(SymbolId(values[index]));
        index = index + 1;
    }
    assert(numbers(symbols@) =~= values@);
    symbols
}

/// The keys and values of a sequence of attributes.
pub open spec fn groups(attributes: Seq<Attribute>) -> Seq<(u64, Seq<u64>)> {
    attributes.map_values(|attribute: Attribute| attribute@)
}

/// Keys increase from group to group, and each group is canonical.
pub open spec fn canonical_groups(groups: Seq<(u64, Seq<u64>)>) -> bool {
    &&& forall|i: int, j: int|
        #![trigger groups[i], groups[j]]
        0 <= i < j < groups.len() ==> groups[i].0 < groups[j].0
    &&& forall|i: int| 0 <= i < groups.len() ==> canonical_group(#[trigger] groups[i])
}

/// Some group binds the key to the value.
pub open spec fn binds(groups: Seq<(u64, Seq<u64>)>, pair: (u64, u64)) -> bool {
    exists|i: int|
        0 <= i < groups.len() && (#[trigger] groups[i]).0 == pair.0 && groups[i].1.contains(pair.1)
}

/// The bound key and value pairs of a sequence of groups.
pub open spec fn bound_pairs(groups: Seq<(u64, Seq<u64>)>) -> Set<(u64, u64)> {
    Set::new(|pair: (u64, u64)| binds(groups, pair))
}

/// Canonical groups that bind the same pairs are the same groups.
pub proof fn law_canonical_groups_are_unique(
    first: Seq<(u64, Seq<u64>)>,
    second: Seq<(u64, Seq<u64>)>,
)
    requires
        canonical_groups(first),
        canonical_groups(second),
        bound_pairs(first) == bound_pairs(second),
    ensures
        first == second,
{
    let first_keys = first.map_values(|group: (u64, Seq<u64>)| group.0);
    let second_keys = second.map_values(|group: (u64, Seq<u64>)| group.0);
    assert forall|key: u64| first_keys.contains(key) <==> second_keys.contains(key) by {
        if first_keys.contains(key) {
            let i = first_keys.index_of(key);
            lemma_group_key_matches(first, second, i);
        }
        if second_keys.contains(key) {
            let i = second_keys.index_of(key);
            lemma_group_key_matches(second, first, i);
        }
    }
    assert(increasing(first_keys)) by {
        assert forall|i: int, j: int|
            #![trigger first_keys[i], first_keys[j]]
            0 <= i < j < first_keys.len() implies first_keys[i] < first_keys[j] by {
            assert(first[i].0 < first[j].0);
        }
    }
    assert(increasing(second_keys)) by {
        assert forall|i: int, j: int|
            #![trigger second_keys[i], second_keys[j]]
            0 <= i < j < second_keys.len() implies second_keys[i] < second_keys[j] by {
            assert(second[i].0 < second[j].0);
        }
    }
    lemma_increasing_unique(first_keys, second_keys);
    assert forall|i: int| 0 <= i < first.len() implies first[i] == second[i] by {
        assert(first_keys[i] == second_keys[i]);
        assert forall|value: u64| first[i].1.contains(value) <==> second[i].1.contains(value) by {
            if first[i].1.contains(value) {
                lemma_group_value_matches(first, second, i, value);
            }
            if second[i].1.contains(value) {
                lemma_group_value_matches(second, first, i, value);
            }
        }
        assert(canonical_group(first[i]) && canonical_group(second[i]));
        lemma_increasing_unique(first[i].1, second[i].1);
    }
    assert(first_keys.len() == second_keys.len());
    assert(first =~= second);
}

proof fn lemma_group_key_matches(
    first: Seq<(u64, Seq<u64>)>,
    second: Seq<(u64, Seq<u64>)>,
    i: int,
)
    requires
        canonical_groups(first),
        bound_pairs(first) == bound_pairs(second),
        0 <= i < first.len(),
    ensures
        second.map_values(|group: (u64, Seq<u64>)| group.0).contains(first[i].0),
{
    assert(canonical_group(first[i]));
    let value = first[i].1[0];
    assert(first[i].1.contains(value));
    assert(bound_pairs(first).contains((first[i].0, value)));
    assert(bound_pairs(second).contains((first[i].0, value)));
    let j = choose|j: int|
        0 <= j < second.len() && (#[trigger] second[j]).0 == first[i].0 && second[j].1.contains(
            value,
        );
    assert(second.map_values(|group: (u64, Seq<u64>)| group.0)[j] == first[i].0);
}

proof fn lemma_group_value_matches(
    first: Seq<(u64, Seq<u64>)>,
    second: Seq<(u64, Seq<u64>)>,
    i: int,
    value: u64,
)
    requires
        canonical_groups(second),
        bound_pairs(first) == bound_pairs(second),
        0 <= i < first.len(),
        i < second.len(),
        first[i].0 == second[i].0,
        first[i].1.contains(value),
    ensures
        second[i].1.contains(value),
{
    assert(bound_pairs(first).contains((first[i].0, value)));
    assert(bound_pairs(second).contains((first[i].0, value)));
    let j = choose|j: int|
        0 <= j < second.len() && (#[trigger] second[j]).0 == first[i].0 && second[j].1.contains(
            value,
        );
    if j < i {
        assert(second[j].0 < second[i].0);
    } else if i < j {
        assert(second[i].0 < second[j].0);
    }
}

/// A key and value as one number that orders pairs by key and then value.
spec fn packed(pair: (u64, u64)) -> u128 {
    (pair.0 * 0x1_0000_0000_0000_0000 + pair.1) as u128
}

spec fn packed_pairs(keys: Seq<u128>) -> Set<(u64, u64)> {
    Set::new(|pair: (u64, u64)| listed(keys, packed(pair)))
}

fn pack_attributes(attributes: &[Attribute]) -> (keys: Vec<u128>)
    ensures
        packed_pairs(keys@) == bound_pairs(groups(attributes@)),
        attributes@.len() > 0 ==> keys@.len() > 0,
{
    let mut keys: Vec<u128> = Vec::new();
    let mut index: usize = 0;
    assert(packed_pairs(keys@) =~= bound_pairs(groups(attributes@.take(0))));
    while index < attributes.len()
        invariant
            index <= attributes@.len(),
            packed_pairs(keys@) == bound_pairs(groups(attributes@.take(index as int))),
            index > 0 ==> keys@.len() > 0,
        decreases attributes@.len() - index,
    {
        let attribute = &attributes[index];
        let key: u64 = attribute.key().0;
        let values = attribute.values();
        let ghost before = keys@;
        let mut place: usize = 0;
        while place < values.len()
            invariant
                place <= values@.len(),
                numbers(values@) == attribute@.1,
                key == attribute@.0,
                forall|pair: (u64, u64)| #[trigger]
                    listed(keys@, packed(pair)) <==> listed(before, packed(pair)) || (pair.0 == key
                        && numbers(values@).take(place as int).contains(pair.1)),
                keys@.len() >= before.len() + place,
            decreases values@.len() - place,
        {
            let value: u64 = values[place].0;
            let ghost held = keys@;
            let shifted: u128 = (key as u128) * 0x1_0000_0000_0000_0000;
            keys.push(shifted + value as u128);
            proof {
                lemma_listed_push(held, packed((key, value)));
                let taken = numbers(values@).take(place as int);
                let longer = numbers(values@).take(place + 1);
                assert(longer =~= taken.push(value));
                assert forall|pair: (u64, u64)| #[trigger]
                    listed(keys@, packed(pair)) <==> listed(before, packed(pair)) || (pair.0 == key
                        && longer.contains(pair.1)) by {
                    lemma_packed_injective(pair, (key, value));
                    if taken.contains(pair.1) {
                        let k = taken.index_of(pair.1);
                        assert(longer[k] == pair.1);
                    }
                    assert(longer[place as int] == value);
                    if longer.contains(pair.1) {
                        let k = longer.index_of(pair.1);
                        if k < place {
                            assert(taken[k] == pair.1);
                        }
                    }
                }
            }
            place = place + 1;
        }
        proof {
            assert(numbers(values@).take(place as int) =~= attribute@.1);
            let shorter = groups(attributes@.take(index as int));
            let longer = groups(attributes@.take(index + 1));
            assert(longer =~= shorter.push(attribute@));
            assert forall|pair: (u64, u64)|
                packed_pairs(keys@).contains(pair) <==> bound_pairs(longer).contains(pair) by {
                assert(packed_pairs(before).contains(pair) <==> bound_pairs(shorter).contains(
                    pair,
                ));
                lemma_binds_push(shorter, attribute@, pair);
                assert(listed(keys@, packed(pair)) <==> listed(before, packed(pair)) || (pair.0
                    == key && attribute@.1.contains(pair.1)));
            }
            assert(packed_pairs(keys@) =~= bound_pairs(longer));
        }
        index = index + 1;
    }
    assert(attributes@.take(index as int) =~= attributes@);
    keys
}

proof fn lemma_packed_injective(first: (u64, u64), second: (u64, u64))
    ensures
        packed(first) == packed(second) <==> first == second,
        packed(first) / 0x1_0000_0000_0000_0000 == first.0,
        packed(first) % 0x1_0000_0000_0000_0000 == first.1,
{
}

proof fn lemma_binds_push(groups: Seq<(u64, Seq<u64>)>, group: (u64, Seq<u64>), pair: (u64, u64))
    ensures
        binds(groups.push(group), pair) <==> binds(groups, pair) || (group.0 == pair.0
            && group.1.contains(pair.1)),
{
    let longer = groups.push(group);
    if binds(groups, pair) {
        let i = choose|i: int|
            0 <= i < groups.len() && (#[trigger] groups[i]).0 == pair.0 && groups[i].1.contains(
                pair.1,
            );
        assert(longer[i] == groups[i]);
    }
    if binds(longer, pair) {
        let i = choose|i: int|
            0 <= i < longer.len() && (#[trigger] longer[i]).0 == pair.0 && longer[i].1.contains(
                pair.1,
            );
        if i < groups.len() {
            assert(groups[i] == longer[i]);
        }
    }
    assert(longer[groups.len() as int] == group);
}

fn group_keys(keys: &[u128]) -> (attributes: Vec<Attribute>)
    requires
        increasing_keys(keys@),
    ensures
        canonical_groups(groups(attributes@)),
        bound_pairs(groups(attributes@)) == packed_pairs(keys@),
        keys@.len() > 0 ==> attributes@.len() > 0,
{
    let mut attributes: Vec<Attribute> = Vec::new();
    let mut index: usize = 0;
    assert(bound_pairs(groups(attributes@)) =~= packed_pairs(keys@.take(0)));
    while index < keys.len()
        invariant
            index <= keys@.len(),
            increasing_keys(keys@),
            canonical_groups(groups(attributes@)),
            bound_pairs(groups(attributes@)) == packed_pairs(keys@.take(index as int)),
            index > 0 ==> attributes@.len() > 0,
            forall|i: int, j: int|
                #![trigger groups(attributes@)[i], keys@[j]]
                0 <= i < attributes@.len() && index <= j < keys@.len() ==> groups(
                    attributes@,
                )[i].0 < keys@[j] / 0x1_0000_0000_0000_0000,
        decreases keys@.len() - index,
    {
        let key: u64 = (keys[index] / 0x1_0000_0000_0000_0000) as u64;
        let ghost start = index;
        let ghost before = groups(attributes@);
        let mut values: Vec<SymbolId> = Vec::new();
        while index < keys.len() && (keys[index] / 0x1_0000_0000_0000_0000) as u64 == key
            invariant
                start <= index <= keys@.len(),
                start < keys@.len(),
                increasing_keys(keys@),
                key == keys@[start as int] / 0x1_0000_0000_0000_0000,
                values@.len() == index - start,
                forall|i: int|
                    #![trigger values@[i]]
                    0 <= i < values@.len() ==> packed((key, values@[i].0)) == keys@[start + i],
            decreases keys@.len() - index,
        {
            let value: u64 = (keys[index] % 0x1_0000_0000_0000_0000) as u64;
            values.push(SymbolId(value));
            index = index + 1;
        }
        let ghost group = (key, numbers(values@));
        proof {
            assert(index > start);
            assert forall|i: int, j: int|
                #![trigger group.1[i], group.1[j]]
                0 <= i < j < group.1.len() implies group.1[i] < group.1[j] by {
                assert(keys@[start + i] < keys@[start + j]);
                assert(values@[i].0 == group.1[i] && values@[j].0 == group.1[j]);
            }
            assert forall|i: int, j: int| 0 <= i < before.len() && index <= j < keys@.len()
                implies #[trigger] before[i].0 < #[trigger] keys@[j] / 0x1_0000_0000_0000_0000 by {}
            assert forall|j: int| index <= j < keys@.len() implies key < #[trigger] keys@[j]
                / 0x1_0000_0000_0000_0000 by {
                assert(keys@[start as int] < keys@[j]);
                assert(keys@[index as int] <= keys@[j]);
                assert(keys@[index as int] / 0x1_0000_0000_0000_0000 != key);
                assert(keys@[start as int] < keys@[index as int]);
            }
        }
        let attribute = Attribute { key: SymbolId(key), values };
        attributes.push(attribute);
        proof {
            let after = groups(attributes@);
            assert(after =~= before.push(group));
            assert forall|i: int| 0 <= i < before.len() implies #[trigger] before[i].0 < key by {
                assert(keys@[start as int] / 0x1_0000_0000_0000_0000 == key);
            }
            assert(canonical_groups(after));
            let shorter = keys@.take(start as int);
            let longer = keys@.take(index as int);
            assert forall|pair: (u64, u64)|
                bound_pairs(after).contains(pair) <==> packed_pairs(longer).contains(pair) by {
                lemma_binds_push(before, group, pair);
                assert(bound_pairs(before).contains(pair) <==> packed_pairs(shorter).contains(
                    pair,
                ));
                if listed(shorter, packed(pair)) {
                    let k = shorter.index_of(packed(pair));
                    assert(longer[k] == packed(pair));
                }
                if group.0 == pair.0 && group.1.contains(pair.1) {
                    let k = group.1.index_of(pair.1);
                    assert(values@[k].0 == pair.1);
                    assert(longer[start + k] == packed(pair));
                }
                if listed(longer, packed(pair)) {
                    let k = longer.index_of(packed(pair));
                    if k < start {
                        assert(shorter[k] == packed(pair));
                    } else {
                        let v = values@[k - start];
                        assert(packed((key, v.0)) == keys@[start + (k - start)]);
                        lemma_packed_injective(pair, (key, v.0));
                        assert(group.1[k - start] == pair.1);
                    }
                }
            }
            assert(bound_pairs(after) =~= packed_pairs(longer));
        }
    }
    assert(keys@.take(index as int) =~= keys@);
    attributes
}

/// What one attribute episode says: when, and which values its keys have.
pub ghost struct EpisodeContent {
    /// Signed Unix milliseconds.
    pub timestamp: TimestampMs,
    /// The bound key and value pairs.
    pub pairs: Set<(u64, u64)>,
}

/// Canonical construction data for one attribute episode.
#[derive(Debug, PartialEq, Eq)]
pub struct EpisodeDraft {
    timestamp: TimestampMs,
    attributes: Vec<Attribute>,
}

impl EpisodeDraft {
    #[verifier::type_invariant]
    pub closed spec fn canonical(self) -> bool {
        self.attributes@.len() > 0 && canonical_groups(groups(self.attributes@))
    }

    /// The attributes as increasing keys with their increasing values.
    pub closed spec fn groups(&self) -> Seq<(u64, Seq<u64>)> {
        groups(self.attributes@)
    }

    /// What the draft says.
    pub closed spec fn content(&self) -> EpisodeContent {
        EpisodeContent { timestamp: self.timestamp, pairs: bound_pairs(groups(self.attributes@)) }
    }

    /// Creates a draft; repeated keys are merged, and order does not matter.
    pub fn new(timestamp: TimestampMs, attributes: Vec<Attribute>) -> (result: Result<
        EpisodeDraft,
        ModelError,
    >)
        ensures
            attributes@.len() == 0 ==> result == Err::<EpisodeDraft, ModelError>(
                ModelError::EmptyEpisodeAttributes,
            ),
            attributes@.len() > 0 ==> {
                &&& result is Ok
                &&& result->Ok_0.content().timestamp == timestamp
                &&& result->Ok_0.content().pairs == bound_pairs(groups(attributes@))
                &&& result->Ok_0.groups().len() > 0
                &&& canonical_groups(result->Ok_0.groups())
                &&& bound_pairs(result->Ok_0.groups()) == bound_pairs(groups(attributes@))
            },
    {
        if attributes.len() == 0 {
            return Err(ModelError::EmptyEpisodeAttributes);
        }
        let keys = pack_attributes(attributes.as_slice());
        let sorted = sort_distinct_keys(keys.as_slice());
        proof {
            assert(listed(keys@, keys@[0]));
            assert(listed(sorted@, keys@[0]));
            assert(packed_pairs(sorted@) =~= packed_pairs(keys@));
        }
        let merged = group_keys(sorted.as_slice());
        Ok(EpisodeDraft { timestamp, attributes: merged })
    }

    /// Returns the timestamp.
    pub fn timestamp(&self) -> (timestamp: TimestampMs)
        ensures
            timestamp == self.content().timestamp,
    {
        self.timestamp
    }

    /// Returns the attributes in increasing key order.
    pub fn attributes(&self) -> (attributes: &[Attribute])
        ensures
            attributes@.len() > 0,
            groups(attributes@) == self.groups(),
            canonical_groups(self.groups()),
            bound_pairs(self.groups()) == self.content().pairs,
    {
        proof {
            use_type_invariant(self);
        }
        self.attributes.as_slice()
    }
}

fn clone_attributes(attributes: &[Attribute]) -> (copy: Vec<Attribute>)
    ensures
        groups(copy@) == groups(attributes@),
{
    let mut copy: Vec<Attribute> = Vec::new();
    let mut index: usize = 0;
    while index < attributes.len()
        invariant
            index <= attributes@.len(),
            copy@.len() == index,
            forall|i: int| 0 <= i < index ==> (#[trigger] copy@[i])@ == attributes@[i]@,
        decreases attributes@.len() - index,
    {
        copy.push(attributes[index].clone());
        index = index + 1;
    }
    assert(groups(copy@) =~= groups(attributes@));
    copy
}

impl Clone for EpisodeDraft {
    fn clone(&self) -> (copy: EpisodeDraft)
        ensures
            copy.content() == self.content(),
            copy.groups() == self.groups(),
    {
        proof {
            use_type_invariant(self);
        }
        let attributes = clone_attributes(self.attributes.as_slice());
        assert(attributes@.len() == groups(attributes@).len());
        assert(self.attributes@.len() == groups(self.attributes@).len());
        EpisodeDraft { timestamp: self.timestamp, attributes }
    }
}

/// Cue kind of an attribute key.
pub const KEY_CUE: u64 = 0;

/// Cue kind of an attribute value under any key.
pub const VALUE_CUE: u64 = 1;

/// Cue kind of a value bound to its key.
pub const KEY_VALUE_CUE: u64 = 2;

/// The cues of one bound pair: its key, its value, and both together.
pub open spec fn pair_gives(pair: (u64, u64), cue: Cue) -> bool {
    ||| cue == (KEY_CUE, pair.0, 0u64, 0u64, 0u64)
    ||| cue == (VALUE_CUE, pair.1, 0u64, 0u64, 0u64)
    ||| cue == (KEY_VALUE_CUE, pair.0, pair.1, 0u64, 0u64)
}

/// The cues of a set of bound pairs.
pub open spec fn pair_cues(pairs: Set<(u64, u64)>) -> Set<Cue> {
    Set::new(
        |cue: Cue| exists|pair: (u64, u64)| #[trigger] pairs.contains(pair) && pair_gives(pair, cue),
    )
}

/// An immutable episode of attributes.
#[derive(Debug, PartialEq, Eq)]
pub struct EpisodeAtom {
    id: AtomId,
    timestamp: TimestampMs,
    attributes: Vec<Attribute>,
}

impl EpisodeAtom {
    #[verifier::type_invariant]
    pub closed spec fn canonical(self) -> bool {
        self.attributes@.len() > 0 && canonical_groups(groups(self.attributes@))
    }

    /// The attributes as increasing keys with their increasing values.
    pub closed spec fn groups(&self) -> Seq<(u64, Seq<u64>)> {
        groups(self.attributes@)
    }

    /// What the episode says.
    pub closed spec fn content(&self) -> EpisodeContent {
        EpisodeContent { timestamp: self.timestamp, pairs: bound_pairs(groups(self.attributes@)) }
    }

    /// Returns the atom identifier.
    pub fn id(&self) -> (id: AtomId)
        ensures
            id == self.identifier(),
    {
        self.id
    }

    /// Returns the timestamp.
    pub fn timestamp(&self) -> (timestamp: TimestampMs)
        ensures
            timestamp == self.content().timestamp,
    {
        self.timestamp
    }

    /// Returns the attributes in increasing key order.
    pub fn attributes(&self) -> (attributes: &[Attribute])
        ensures
            attributes@.len() > 0,
            groups(attributes@) == self.groups(),
            canonical_groups(self.groups()),
            bound_pairs(self.groups()) == self.content().pairs,
    {
        proof {
            use_type_invariant(self);
        }
        self.attributes.as_slice()
    }
}

impl Clone for EpisodeAtom {
    fn clone(&self) -> (copy: EpisodeAtom)
        ensures
            copy.identifier() == self.identifier(),
            copy.content() == self.content(),
            copy.groups() == self.groups(),
    {
        proof {
            use_type_invariant(self);
        }
        let attributes = clone_attributes(self.attributes.as_slice());
        assert(attributes@.len() == groups(attributes@).len());
        assert(self.attributes@.len() == groups(self.attributes@).len());
        EpisodeAtom { id: self.id, timestamp: self.timestamp, attributes }
    }
}

fn insert_pair_cues(cues: &mut BTreeSet<Cue>, key: u64, value: u64)
    ensures
        forall|cue: Cue| #[trigger]
            final(cues)@.contains(cue) <==> old(cues)@.contains(cue) || pair_gives(
                (key, value),
                cue,
            ),
{
    cues.insert((KEY_CUE, key, 0, 0, 0));
    cues.insert((VALUE_CUE, value, 0, 0, 0));
    cues.insert((KEY_VALUE_CUE, key, value, 0, 0));
}

/// The cues of the pairs that groups bind.
proof fn lemma_pair_cues_push(
    shorter: Seq<(u64, Seq<u64>)>,
    group: (u64, Seq<u64>),
    cue: Cue,
)
    ensures
        pair_cues(bound_pairs(shorter.push(group))).contains(cue) <==> pair_cues(
            bound_pairs(shorter),
        ).contains(cue) || exists|value: u64| #[trigger]
            group.1.contains(value) && pair_gives((group.0, value), cue),
{
    let longer = shorter.push(group);
    if pair_cues(bound_pairs(longer)).contains(cue) {
        let pair = choose|pair: (u64, u64)| #[trigger]
            bound_pairs(longer).contains(pair) && pair_gives(pair, cue);
        lemma_binds_push(shorter, group, pair);
        if binds(shorter, pair) {
            assert(bound_pairs(shorter).contains(pair));
        } else {
            assert(group.1.contains(pair.1) && pair_gives((group.0, pair.1), cue));
        }
    }
    if pair_cues(bound_pairs(shorter)).contains(cue) {
        let pair = choose|pair: (u64, u64)| #[trigger]
            bound_pairs(shorter).contains(pair) && pair_gives(pair, cue);
        lemma_binds_push(shorter, group, pair);
        assert(bound_pairs(longer).contains(pair));
    }
    if exists|value: u64| #[trigger] group.1.contains(value) && pair_gives((group.0, value), cue) {
        let value = choose|value: u64| #[trigger]
            group.1.contains(value) && pair_gives((group.0, value), cue);
        lemma_binds_push(shorter, group, (group.0, value));
        assert(bound_pairs(longer).contains((group.0, value)));
    }
}

impl Episode for EpisodeAtom {
    type Draft = EpisodeDraft;

    closed spec fn identifier(&self) -> AtomId {
        self.id
    }

    open spec fn records(&self, draft: &EpisodeDraft) -> bool {
        self.content() == draft.content() && self.groups() == draft.groups()
    }

    open spec fn cue_set(&self) -> Set<Cue> {
        pair_cues(self.content().pairs)
    }

    fn from_draft(id: AtomId, draft: EpisodeDraft) -> (atom: EpisodeAtom) {
        proof {
            use_type_invariant(&draft);
        }
        EpisodeAtom { id, timestamp: draft.timestamp, attributes: draft.attributes }
    }

    fn identity(&self) -> (id: AtomId) {
        self.id
    }

    fn episode_cues(&self) -> (cues: Vec<Cue>) {
        let mut cues: BTreeSet<Cue> = BTreeSet::new();
        let mut index: usize = 0;
        let ghost all = groups(self.attributes@);
        assert(cues@ =~= pair_cues(bound_pairs(all.take(0))));
        while index < self.attributes.len()
            invariant
                index <= self.attributes@.len(),
                all == groups(self.attributes@),
                cues@ == pair_cues(bound_pairs(all.take(index as int))),
            decreases self.attributes@.len() - index,
        {
            let attribute = &self.attributes[index];
            let key: u64 = attribute.key().0;
            let values = attribute.values();
            let ghost before = cues@;
            let ghost group = attribute@;
            let mut place: usize = 0;
            while place < values.len()
                invariant
                    place <= values@.len(),
                    numbers(values@) == group.1,
                    key == group.0,
                    forall|cue: Cue| #[trigger]
                        cues@.contains(cue) <==> before.contains(cue) || exists|i: int|
                            0 <= i < place && pair_gives((key, #[trigger] group.1[i]), cue),
                decreases values@.len() - place,
            {
                let ghost held = cues@;
                let value: u64 = values[place].0;
                assert(group.1[place as int] == value);
                insert_pair_cues(&mut cues, key, value);
                assert forall|cue: Cue| #[trigger]
                    cues@.contains(cue) <==> before.contains(cue) || exists|i: int|
                        0 <= i < place + 1 && pair_gives((key, #[trigger] group.1[i]), cue) by {
                    assert(cues@.contains(cue) <==> held.contains(cue) || pair_gives(
                        (key, group.1[place as int]),
                        cue,
                    ));
                    if held.contains(cue) && !before.contains(cue) {
                        let i = choose|i: int|
                            0 <= i < place && pair_gives((key, #[trigger] group.1[i]), cue);
                        assert(0 <= i < place + 1 && pair_gives((key, group.1[i]), cue));
                    }
                }
                place = place + 1;
            }
            proof {
                let shorter = all.take(index as int);
                let longer = all.take(index + 1);
                assert(longer =~= shorter.push(group));
                assert forall|cue: Cue|
                    cues@.contains(cue) <==> pair_cues(bound_pairs(longer)).contains(cue) by {
                    lemma_pair_cues_push(shorter, group, cue);
                    if exists|i: int|
                        0 <= i < place && pair_gives((key, #[trigger] group.1[i]), cue) {
                        let i = choose|i: int|
                            0 <= i < place && pair_gives((key, #[trigger] group.1[i]), cue);
                        assert(group.1.contains(group.1[i]));
                    }
                    if exists|value: u64| #[trigger]
                        group.1.contains(value) && pair_gives((group.0, value), cue) {
                        let value = choose|value: u64| #[trigger]
                            group.1.contains(value) && pair_gives((group.0, value), cue);
                        let i = group.1.index_of(value);
                        assert(pair_gives((key, group.1[i]), cue));
                    }
                }
                assert(cues@ =~= pair_cues(bound_pairs(longer)));
            }
            index = index + 1;
        }
        assert(all.take(index as int) =~= all);
        list_cues(&cues)
    }
}

} // verus!
