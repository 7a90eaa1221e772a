//! Cue postings: which atoms hold a cue, and how many cues atoms share.

use std::collections::BTreeMap;

use vstd::multiset::Multiset;
use vstd::prelude::*;

use crate::episode::{Cue, Episode};
use crate::heap::MinHeap;

verus! {

/// Each position is smaller than every later one.
pub open spec fn ascending(positions: Seq<usize>) -> bool {
    forall|i: int, j: int|
        #![trigger positions[i], positions[j]]
        0 <= i < j < positions.len() ==> positions[i] < positions[j]
}

/// The positions of borrowed streams.
pub open spec fn stream_views(streams: Seq<&[usize]>) -> Seq<Seq<usize>> {
    streams.map_values(|stream: &[usize]| stream@)
}

/// Number of streams that hold the target.
pub open spec fn holding(streams: Seq<Seq<usize>>, target: usize) -> nat
    decreases streams.len(),
{
    if streams.len() == 0 {
        0
    } else {
        holding(streams.drop_last(), target) + if streams.last().contains(target) {
            1nat
        } else {
            0nat
        }
    }
}

proof fn lemma_holding_update(
    streams: Seq<Seq<usize>>,
    index: int,
    stream: Seq<usize>,
    target: usize,
)
    requires
        0 <= index < streams.len(),
    ensures
        holding(streams.update(index, stream), target) + (if streams[index].contains(target) {
            1nat
        } else {
            0nat
        }) == holding(streams, target) + (if stream.contains(target) {
            1nat
        } else {
            0nat
        }),
    decreases streams.len(),
{
    let updated = streams.update(index, stream);
    if index == streams.len() - 1 {
        assert(updated.drop_last() =~= streams.drop_last());
    } else {
        assert(updated.drop_last() =~= streams.drop_last().update(index, stream));
        lemma_holding_update(streams.drop_last(), index, stream, target);
    }
}

proof fn lemma_holding_member(streams: Seq<Seq<usize>>, index: int, target: usize)
    requires
        0 <= index < streams.len(),
        streams[index].contains(target),
    ensures
        holding(streams, target) > 0,
    decreases streams.len(),
{
    if index < streams.len() - 1 {
        assert(streams.drop_last()[index] == streams[index]);
        lemma_holding_member(streams.drop_last(), index, target);
    }
}

proof fn lemma_holding_witness(streams: Seq<Seq<usize>>, target: usize) -> (index: int)
    requires
        holding(streams, target) > 0,
    ensures
        0 <= index < streams.len(),
        streams[index].contains(target),
    decreases streams.len(),
{
    if streams.last().contains(target) {
        streams.len() - 1
    } else {
        lemma_holding_witness(streams.drop_last(), target)
    }
}

/// No more streams hold a target than there are streams.
pub proof fn lemma_holding_bounded(streams: Seq<Seq<usize>>, target: usize)
    ensures
        holding(streams, target) <= streams.len(),
    decreases streams.len(),
{
    if streams.len() > 0 {
        lemma_holding_bounded(streams.drop_last(), target);
    }
}

proof fn lemma_ascending_skip(positions: Seq<usize>, target: usize)
    requires
        ascending(positions),
        positions.len() > 0,
    ensures
        ascending(positions.skip(1)),
        positions.skip(1).contains(target) <==> positions.contains(target) && target
            != positions[0],
{
    let rest = positions.skip(1);
    if rest.contains(target) {
        let k = rest.index_of(target);
        assert(positions[k + 1] == target);
        assert(positions[0] < positions[k + 1]);
    }
    if positions.contains(target) && target != positions[0] {
        let k = positions.index_of(target);
        assert(rest[k - 1] == target);
    }
}

struct PostingCursor<'a> {
    postings: &'a [usize],
    position: usize,
}

impl<'a> PostingCursor<'a> {
    spec fn rest(self) -> Seq<usize> {
        self.postings@.skip(self.position as int)
    }
}

/// Merge of ascending posting streams that counts how many hold each target.
pub struct PostingMerge<'a> {
    cursors: Vec<PostingCursor<'a>>,
    heads: MinHeap,
    excluded_target: usize,
}

spec fn head_key(target: usize, cursor: int) -> u128 {
    (target * 0x1_0000_0000_0000_0000 + cursor) as u128
}

spec fn is_head<'a>(cursors: Seq<PostingCursor<'a>>, key: u128) -> bool {
    let cursor = key as int % 0x1_0000_0000_0000_0000;
    &&& cursor < cursors.len()
    &&& cursors[cursor].rest().len() > 0
    &&& cursors[cursor].rest()[0] == key as int / 0x1_0000_0000_0000_0000
}

spec fn heads_listed<'a>(cursors: Seq<PostingCursor<'a>>, heads: Multiset<u128>) -> bool {
    forall|key: u128| #[trigger]
        heads.count(key) == if is_head(cursors, key) {
            1nat
        } else {
            0nat
        }
}

spec fn rests<'a>(cursors: Seq<PostingCursor<'a>>) -> Seq<Seq<usize>> {
    cursors.map_values(|cursor: PostingCursor<'a>| cursor.rest())
}

impl<'a> PostingMerge<'a> {
    /// Streams ascend, and the heap holds exactly the next target of each.
    pub closed spec fn wf(&self) -> bool {
        &&& self.heads.wf()
        &&& heads_listed(self.cursors@, self.heads@)
        &&& self.cursors@.len() < 0x1_0000_0000_0000_0000
        &&& forall|k: int|
            0 <= k < self.cursors@.len() ==> {
                let cursor = #[trigger] self.cursors@[k];
                &&& ascending(cursor.postings@)
                &&& cursor.position <= cursor.postings@.len()
                &&& cursor.rest().len() > 0 ==> cursor.rest()[0] != self.excluded_target
            }
    }

    /// Number of streams that still hold the target.
    pub closed spec fn remaining(&self, target: usize) -> nat {
        if target == self.excluded_target {
            0
        } else {
            holding(rests(self.cursors@), target)
        }
    }

    /// Starts a merge of ascending streams that leaves one target out.
    pub fn new(streams: Vec<&'a [usize]>, excluded_target: usize) -> (merge: PostingMerge<'a>)
        requires
            forall|i: int| 0 <= i < streams@.len() ==> ascending((#[trigger] streams@[i])@),
        ensures
            merge.wf(),
            forall|target: usize| #[trigger]
                merge.remaining(target) == if target == excluded_target {
                    0nat
                } else {
                    holding(stream_views(streams@), target)
                },
    {
        let ghost all = stream_views(streams@);
        let mut cursors: Vec<PostingCursor<'a>> = Vec::new();
        let mut heads = MinHeap::new();
        let mut index: usize = 0;
        assert(all.take(0) =~= Seq::empty());
        assert(rests(cursors@) =~= Seq::empty());
        while index < streams.len()
            invariant
                index <= streams@.len(),
                all == stream_views(streams@),
                cursors@.len() <= index,
                heads.wf(),
                heads_listed(cursors@, heads@),
                forall|i: int| 0 <= i < streams@.len() ==> ascending((#[trigger] streams@[i])@),
                forall|k: int|
                    0 <= k < cursors@.len() ==> {
                        let cursor = #[trigger] cursors@[k];
                        &&& ascending(cursor.postings@)
                        &&& cursor.position <= cursor.postings@.len()
                        &&& cursor.rest().len() > 0 ==> cursor.rest()[0] != excluded_target
                    },
                forall|target: usize|
                    target != excluded_target ==> #[trigger] holding(rests(cursors@), target)
                        == holding(all.take(index as int), target),
            decreases streams@.len() - index,
        {
            let postings: &'a [usize] = streams[index];
            let ghost stream = postings@;
            let position: usize = if postings.len() > 0 && postings[0] == excluded_target {
                1
            } else {
                0
            };
            let ghost rest = stream.skip(position as int);
            let ghost rests_before = rests(cursors@);
            proof {
                let shorter = all.take(index as int);
                let longer = all.take(index + 1);
                assert(longer.drop_last() =~= shorter);
                assert(longer.last() == stream);
                assert(ascending(streams@[index as int]@));
                assert forall|target: usize| target != excluded_target implies rest.contains(target)
                    == stream.contains(target) by {
                    if position == 1 {
                        lemma_ascending_skip(stream, target);
                    } else {
                        assert(rest =~= stream);
                    }
                }
            }
            if position < postings.len() {
                let target: usize = postings[position];
                let ghost before = cursors@;
                let ghost heads_before = heads@;
                let cursor_index: usize = cursors.len();
                cursors.push(PostingCursor { postings, position });
                let shifted: u128 = (target as u128) * 0x1_0000_0000_0000_0000;
                heads.push(shifted + cursor_index as u128);
                proof {
                    let new_key = head_key(target, cursor_index as int);
                    assert(cursors@[cursor_index as int].rest() == rest);
                    assert(rest[0] == target);
                    if position == 0 {
                        assert(target != excluded_target);
                    } else {
                        assert(stream[0] < stream[1]);
                    }
                    assert forall|key: u128| #[trigger]
                        heads@.count(key) == if is_head(cursors@, key) {
                            1nat
                        } else {
                            0nat
                        } by {
                        let k = key as int % 0x1_0000_0000_0000_0000;
                        assert(heads_before.count(key) == if is_head(before, key) {
                            1nat
                        } else {
                            0nat
                        });
                        if k < before.len() {
                            assert(cursors@[k] == before[k]);
                        }
                    }
                    assert(rests(cursors@).drop_last() =~= rests(before));
                    assert(rests(cursors@).last() == rest);
                }
            } else {
                assert(rest.len() == 0);
            }
            assert forall|target: usize| target != excluded_target implies #[trigger] holding(
                rests(cursors@),
                target,
            ) == holding(all.take(index + 1), target) by {
                assert(holding(rests_before, target) == holding(all.take(index as int), target));
                assert(rest.contains(target) == stream.contains(target));
                assert(all.take(index + 1).drop_last() =~= all.take(index as int));
                assert(all.take(index + 1).last() == stream);
            }
            index = index + 1;
        }
        assert(all.take(index as int) =~= all);
        PostingMerge { cursors, heads, excluded_target }
    }

    #[verifier::rlimit(60)]
    fn pop_head(&mut self) -> (head: Option<usize>)
        requires
            old(self).wf(),
        ensures
            final(self).wf(),
            final(self).excluded_target == old(self).excluded_target,
            final(self).cursors@.len() == old(self).cursors@.len(),
            head is None ==> forall|target: usize| #[trigger] old(self).remaining(target) == 0,
            head is None ==> forall|target: usize| #[trigger]
                final(self).remaining(target) == old(self).remaining(target),
            head matches Some(head) ==> {
                &&& head != old(self).excluded_target
                &&& old(self).remaining(head) > 0
                &&& old(self).remaining(head) == final(self).remaining(head) + 1
                &&& forall|target: usize| #[trigger]
                    old(self).remaining(target) > 0 ==> head <= target
                &&& forall|target: usize|
                    target != head ==> #[trigger] final(self).remaining(target) == old(
                        self,
                    ).remaining(target)
            },
    {
        let ghost before = self.cursors@;
        let ghost heads_before = self.heads@;
        let popped: Option<u128> = self.heads.pop();
        if popped.is_none() {
            proof {
                assert forall|target: usize| #[trigger] old(self).remaining(target) == 0 by {
                    if old(self).remaining(target) > 0 {
                        let k = lemma_holding_witness(rests(before), target);
                        let rest = before[k].rest();
                        assert(rests(before)[k] == rest);
                        let key = head_key(rest[0], k);
                        assert(is_head(before, key));
                        assert(heads_before.count(key) == 1);
                        assert(heads_before.len() >= heads_before.count(key));
                    }
                }
            }
            return None;
        }
        let key: u128 = popped.unwrap();
        assert(heads_before.count(key) > 0);
        assert(is_head(before, key));
        let cursor_total: usize = self.cursors.len();
        assert(key as int % 0x1_0000_0000_0000_0000 < cursor_total);
        let cursor_index: usize = (key % 0x1_0000_0000_0000_0000) as usize;
        assert(before[cursor_index as int].rest()[0] == key as int / 0x1_0000_0000_0000_0000);
        let target: usize = (key / 0x1_0000_0000_0000_0000) as usize;
        let postings: &'a [usize] = self.cursors[cursor_index].postings;
        let length: usize = postings.len();
        let mut position: usize = self.cursors[cursor_index].position;
        assert(position < length);
        position = position + 1;
        let ghost rest = before[cursor_index as int].rest();
        let ghost mut after_rest = rest.skip(1);
        proof {
            assert(postings@.skip(position as int) =~= after_rest);
            assert(ascending(rest));
            assert forall|other: usize| #[trigger]
                after_rest.contains(other) <==> rest.contains(other) && other != target by {
                lemma_ascending_skip(rest, other);
            }
            lemma_ascending_skip(rest, target);
            assert forall|other: usize| #[trigger] old(self).remaining(other) > 0 implies target
                <= other by {
                let k = lemma_holding_witness(rests(before), other);
                let other_rest = before[k].rest();
                assert(rests(before)[k] == other_rest);
                let other_key = head_key(other_rest[0], k);
                assert(is_head(before, other_key));
                assert(heads_before.count(other_key) == 1);
                assert(key <= other_key);
                let place = other_rest.index_of(other);
                assert(other_rest[0] <= other_rest[place]);
            }
            assert(rests(before)[cursor_index as int] == rest);
            assert(rest.contains(rest[0]));
            lemma_holding_member(rests(before), cursor_index as int, target);
        }
        if position < length && postings[position] == self.excluded_target {
            proof {
                let shorter = after_rest.skip(1);
                assert(after_rest[0] == self.excluded_target);
                assert forall|other: usize|
                    other != self.excluded_target implies (#[trigger] shorter.contains(other)
                    <==> after_rest.contains(other)) by {
                    lemma_ascending_skip(after_rest, other);
                }
                assert(postings@.skip(position + 1) =~= shorter);
                if shorter.len() > 0 {
                    assert(after_rest[0] < after_rest[1]);
                }
                after_rest = shorter;
            }
            position = position + 1;
        }
        self.cursors[cursor_index] = PostingCursor { postings, position };
        proof {
            assert(self.cursors@[cursor_index as int].rest() == after_rest);
            assert(rests(self.cursors@) =~= rests(before).update(cursor_index as int, after_rest));
            assert forall|other: usize|
                other != self.excluded_target implies (#[trigger] after_rest.contains(other)
                <==> rest.contains(other) && other != target) by {}
            assert forall|other: usize| other != target implies #[trigger] holding(
                rests(self.cursors@),
                other,
            ) == holding(rests(before), other) || other == self.excluded_target by {
                lemma_holding_update(rests(before), cursor_index as int, after_rest, other);
            }
            lemma_holding_update(rests(before), cursor_index as int, after_rest, target);
        }
        if position < length {
            let next_target: usize = postings[position];
            let shifted: u128 = (next_target as u128) * 0x1_0000_0000_0000_0000;
            self.heads.push(shifted + cursor_index as u128);
            assert(after_rest[0] == next_target);
        } else {
            assert(after_rest.len() == 0);
        }
        proof {
            assert forall|other: u128| #[trigger]
                self.heads@.count(other) == if is_head(self.cursors@, other) {
                    1nat
                } else {
                    0nat
                } by {
                let k = other as int % 0x1_0000_0000_0000_0000;
                assert(heads_before.count(other) == if is_head(before, other) {
                    1nat
                } else {
                    0nat
                });
                if k != cursor_index {
                    if k < before.len() {
                        assert(self.cursors@[k] == before[k]);
                    }
                    assert(other != key);
                } else {
                    assert(is_head(before, other) <==> other == key);
                }
            }
        }
        Some(target)
    }

    /// Returns the smallest target that remains and how many streams hold it.
    pub fn next(&mut self) -> (next: Option<(usize, u64)>)
        requires
            old(self).wf(),
        ensures
            final(self).wf(),
            next is None ==> forall|target: usize| #[trigger] old(self).remaining(target) == 0,
            next is None ==> forall|target: usize| #[trigger]
                final(self).remaining(target) == old(self).remaining(target),
            next matches Some((target, count)) ==> {
                &&& count > 0
                &&& count == old(self).remaining(target)
                &&& forall|other: usize| #[trigger]
                    old(self).remaining(other) > 0 ==> target <= other
                &&& forall|other: usize| #[trigger]
                    final(self).remaining(other) == if other == target {
                        0nat
                    } else {
                        old(self).remaining(other)
                    }
            },
    {
        let first: Option<usize> = self.pop_head();
        if first.is_none() {
            return None;
        }
        let target: usize = first.unwrap();
        let mut count: u64 = 1;
        proof {
            lemma_holding_bounded(rests(old(self).cursors@), target);
        }
        loop
            invariant
                self.wf(),
                self.excluded_target == old(self).excluded_target,
                target != self.excluded_target,
                old(self).remaining(target) < 0x1_0000_0000_0000_0000,
                count > 0,
                count + self.remaining(target) == old(self).remaining(target),
                forall|other: usize| #[trigger]
                    self.remaining(other) > 0 ==> target <= other,
                forall|other: usize| #[trigger]
                    old(self).remaining(other) > 0 ==> target <= other,
                forall|other: usize|
                    other != target ==> #[trigger] self.remaining(other) == old(self).remaining(
                        other,
                    ),
            ensures
                self.remaining(target) == 0,
            decreases self.remaining(target),
        {
            let head: Option<u128> = self.heads.peek();
            let matching: bool = match head {
                Some(key) => key / 0x1_0000_0000_0000_0000 == target as u128,
                None => false,
            };
            if !matching {
                proof {
                    if self.remaining(target) > 0 {
                        let cursors = self.cursors@;
                        let k = lemma_holding_witness(rests(cursors), target);
                        let rest = cursors[k].rest();
                        assert(rests(cursors)[k] == rest);
                        let place = rest.index_of(target);
                        assert(rest[0] <= rest[place]);
                        assert(rest.contains(rest[0]));
                        lemma_holding_member(rests(cursors), k, rest[0]);
                        assert(self.remaining(rest[0]) > 0);
                        let key = head_key(target, k);
                        assert(is_head(cursors, key));
                        assert(self.heads@.count(key) == 1);
                        let least = head->0;
                        assert(self.heads@.count(least) > 0);
                        assert(is_head(cursors, least));
                        let l = least as int % 0x1_0000_0000_0000_0000;
                        assert(rests(cursors)[l] == cursors[l].rest());
                        assert(cursors[l].rest().contains(cursors[l].rest()[0]));
                        lemma_holding_member(rests(cursors), l, cursors[l].rest()[0]);
                        assert(self.remaining(cursors[l].rest()[0]) > 0);
                        assert(false);
                    }
                }
                break ;
            }
            proof {
                let cursors = self.cursors@;
                let least = head->0;
                assert(self.heads@.count(least) > 0);
                assert(is_head(cursors, least));
                let l = least as int % 0x1_0000_0000_0000_0000;
                assert(rests(cursors)[l] == cursors[l].rest());
                assert(cursors[l].rest().contains(cursors[l].rest()[0]));
                lemma_holding_member(rests(cursors), l, target);
                assert(self.remaining(target) > 0);
            }
            let _ = self.pop_head();
            count = count + 1;
        }
        Some((target, count))
    }
}

/// Ascending positions of the atoms that hold one cue.
#[derive(Debug)]
pub struct PostingList {
    positions: Vec<usize>,
}

impl View for PostingList {
    type V = Seq<usize>;

    closed spec fn view(&self) -> Seq<usize> {
        self.positions@
    }
}

impl PostingList {
    /// Creates a list that holds one position.
    fn one(atom_index: usize) -> (list: PostingList)
        ensures
            list@ == seq![atom_index],
    {
        let mut positions: Vec<usize> = Vec::new();
        positions.push(atom_index);
        let list = PostingList { positions };
        assert(list@ =~= seq![atom_index]);
        list
    }

    /// Appends a position beyond the last one.
    fn push(&mut self, atom_index: usize)
        requires
            ascending(old(self)@),
            forall|i: int| 0 <= i < old(self)@.len() ==> #[trigger] old(self)@[i] < atom_index,
        ensures
            final(self)@ == old(self)@.push(atom_index),
            ascending(final(self)@),
    {
        self.positions.push(atom_index);
    }

    /// Returns the positions.
    fn as_slice(&self) -> (positions: &[usize])
        ensures
            positions@ == self@,
    {
        self.positions.as_slice()
    }
}

/// The cue sets of a sequence of atoms.
pub open spec fn cue_sets<E: Episode>(atoms: Seq<E>) -> Seq<Set<Cue>> {
    atoms.map_values(|atom: E| atom.cue_set())
}

/// Number of listed cues that a set holds.
pub open spec fn count_members(cues: Seq<Cue>, set: Set<Cue>) -> nat
    decreases cues.len(),
{
    if cues.len() == 0 {
        0
    } else {
        count_members(cues.drop_last(), set) + if set.contains(cues.last()) {
            1nat
        } else {
            0nat
        }
    }
}

/// Counting listed cues in a set counts the cues that both sets share.
pub proof fn lemma_count_members(cues: Seq<Cue>, set: Set<Cue>)
    requires
        cues.no_duplicates(),
    ensures
        count_members(cues, set) == cues.to_set().intersect(set).len(),
        cues.to_set().finite(),
        cues.to_set().len() == cues.len(),
    decreases cues.len(),
{
    broadcast use vstd::seq_lib::seq_to_set_is_finite;

    cues.unique_seq_to_set();
    if cues.len() == 0 {
        assert(cues.to_set().intersect(set) =~= Set::empty());
    } else {
        let rest = cues.drop_last();
        let last = cues.last();
        lemma_count_members(rest, set);
        assert(cues =~= rest.push(last));
        assert(!rest.contains(last));
        assert forall|cue: Cue| cues.to_set().contains(cue) <==> cue == last || rest.to_set().contains(
            cue,
        ) by {
            if rest.contains(cue) {
                let k = rest.index_of(cue);
                assert(cues[k] == cue);
            }
            if cues.contains(cue) && cue != last {
                let k = cues.index_of(cue);
                assert(rest[k] == cue);
            }
            assert(cues[cues.len() - 1] == last);
        }
        if set.contains(last) {
            assert(cues.to_set().intersect(set) =~= rest.to_set().intersect(set).insert(last));
            assert(!rest.to_set().intersect(set).contains(last));
        } else {
            assert(cues.to_set().intersect(set) =~= rest.to_set().intersect(set));
        }
    }
}

/// Derived postings and cue counts of a sequence of atoms.
#[derive(Debug)]
pub struct CueIndex {
    postings: BTreeMap<Cue, PostingList>,
    cue_counts: Vec<u64>,
}

/// The list holds exactly the atoms whose set has the cue.
spec fn lists(positions: Seq<usize>, sets: Seq<Set<Cue>>, cue: Cue) -> bool {
    &&& ascending(positions)
    &&& forall|i: usize| #[trigger]
        positions.contains(i) <==> i < sets.len() && sets[i as int].contains(cue)
}

impl CueIndex {
    /// The index is that of the given cue sets.
    pub closed spec fn describes(&self, sets: Seq<Set<Cue>>) -> bool {
        &&& self.cue_counts@.len() == sets.len()
        &&& forall|i: int|
            0 <= i < sets.len() ==> (#[trigger] sets[i]).finite() && self.cue_counts@[i]
                == sets[i].len()
        &&& forall|cue: Cue| #[trigger]
            self.postings@.contains_key(cue) ==> lists(self.postings@[cue]@, sets, cue)
        &&& forall|cue: Cue, i: int|
            #![trigger sets[i].contains(cue)]
            0 <= i < sets.len() && sets[i].contains(cue) ==> self.postings@.contains_key(cue)
    }

    /// Indexed cue sets are finite.
    pub proof fn lemma_described_finite(&self, sets: Seq<Set<Cue>>, position: int)
        requires
            self.describes(sets),
            0 <= position < sets.len(),
        ensures
            sets[position].finite(),
    {
    }

    /// Creates the index of no atoms.
    pub fn new() -> (index: CueIndex)
        ensures
            index.describes(Seq::empty()),
    {
        CueIndex { postings: BTreeMap::new(), cue_counts: Vec::new() }
    }

    /// Builds the index of a sequence of atoms.
    pub fn from_atoms<E: Episode>(atoms: &[E]) -> (index: CueIndex)
        ensures
            index.describes(cue_sets(atoms@)),
    {
        let mut index = CueIndex::new();
        let mut atom_index: usize = 0;
        assert(cue_sets(atoms@.take(0)) =~= Seq::empty());
        while atom_index < atoms.len()
            invariant
                atom_index <= atoms@.len(),
                index.describes(cue_sets(atoms@.take(atom_index as int))),
            decreases atoms@.len() - atom_index,
        {
            index.insert(atom_index, &atoms[atom_index], Ghost(cue_sets(atoms@.take(atom_index as int))));
            proof {
                assert(cue_sets(atoms@.take(atom_index + 1)) =~= cue_sets(
                    atoms@.take(atom_index as int),
                ).push(atoms@[atom_index as int].cue_set()));
            }
            atom_index = atom_index + 1;
        }
        assert(atoms@.take(atom_index as int) =~= atoms@);
        index
    }

    /// Adds the next atom.
    pub(crate) fn insert<E: Episode>(
        &mut self,
        atom_index: usize,
        atom: &E,
        Ghost(sets): Ghost<Seq<Set<Cue>>>,
    )
        requires
            old(self).describes(sets),
            atom_index == sets.len(),
        ensures
            final(self).describes(sets.push(atom.cue_set())),
    {
        let cues: Vec<Cue> = atom.episode_cues();
        let ghost set = atom.cue_set();
        let ghost longer = sets.push(set);
        let ghost before = self.postings@;
        proof {
            lemma_count_members(cues@, set);
        }
        let mut place: usize = 0;
        while place < cues.len()
            invariant
                place <= cues@.len(),
                cues@.no_duplicates(),
                cues@.to_set() == set,
                atom_index == sets.len(),
                longer == sets.push(set),
                self.cue_counts@ == old(self).cue_counts@,
                before == old(self).postings@,
                old(self).describes(sets),
                forall|cue: Cue| #[trigger]
                    self.postings@.contains_key(cue) ==> if cues@.take(place as int).contains(
                        cue,
                    ) {
                        lists(self.postings@[cue]@, longer, cue)
                    } else {
                        before.contains_key(cue) && self.postings@[cue] == before[cue]
                    },
                forall|cue: Cue| #[trigger]
                    self.postings@.contains_key(cue) <==> before.contains_key(cue) || cues@.take(
                        place as int,
                    ).contains(cue),
            decreases cues@.len() - place,
        {
            let cue: Cue = cues[place];
            let ghost current = self.postings@;
            let ghost taken = cues@.take(place as int);
            proof {
                assert(!taken.contains(cue)) by {
                    if taken.contains(cue) {
                        let k = taken.index_of(cue);
                        assert(cues@[k] == cues@[place as int]);
                    }
                }
                assert(cues@.contains(cue));
                assert(set.contains(cue));
            }
            let mut list: PostingList = match self.postings.remove(&cue) {
                None => {
                    let list = PostingList::one(atom_index);
                    proof {
                        assert(!current.contains_key(cue));
                        assert forall|i: usize| #[trigger]
                            list@.contains(i) <==> i < longer.len() && longer[i as int].contains(
                                cue,
                            ) by {
                            if i < sets.len() {
                                assert(longer[i as int] == sets[i as int]);
                                assert(!sets[i as int].contains(cue));
                            }
                            assert(list@[0] == atom_index);
                        }
                    }
                    list
                },
                Some(mut list) => {
                    let ghost old_list = list@;
                    proof {
                        assert(current.contains_key(cue));
                        assert(lists(old_list, sets, cue));
                        assert forall|i: int| 0 <= i < old_list.len() implies #[trigger] old_list[i]
                            < atom_index by {
                            assert(old_list.contains(old_list[i]));
                        }
                    }
                    list.push(atom_index);
                    proof {
                        assert forall|i: usize| #[trigger]
                            list@.contains(i) <==> i < longer.len() && longer[i as int].contains(
                                cue,
                            ) by {
                            if old_list.contains(i) {
                                let k = old_list.index_of(i);
                                assert(list@[k] == i);
                                assert(longer[i as int] == sets[i as int]);
                            }
                            assert(list@[old_list.len() as int] == atom_index);
                            if list@.contains(i) {
                                let k = list@.index_of(i);
                                if k < old_list.len() {
                                    assert(old_list[k] == i);
                                    assert(old_list.contains(i));
                                }
                            }
                            if i < sets.len() {
                                assert(longer[i as int] == sets[i as int]);
                            }
                        }
                    }
                    list
                },
            };
            assert(lists(list@, longer, cue));
            self.postings.insert(cue, list);
            proof {
                let longer_taken = cues@.take(place + 1);
                assert(longer_taken =~= taken.push(cue));
                assert forall|other: Cue| longer_taken.contains(other) <==> other == cue
                    || taken.contains(other) by {
                    if taken.contains(other) {
                        let k = taken.index_of(other);
                        assert(longer_taken[k] == other);
                    }
                    assert(longer_taken[place as int] == cue);
                    if longer_taken.contains(other) {
                        let k = longer_taken.index_of(other);
                        if k < place {
                            assert(taken[k] == other);
                        }
                    }
                }
                assert forall|other: Cue| other != cue implies (#[trigger] self.postings@.contains_key(
                    other,
                ) <==> current.contains_key(other)) && (current.contains_key(other)
                    ==> self.postings@[other] == current[other]) by {}
            }
            place = place + 1;
        }
        self.cue_counts.push(cues.len() as u64);
        proof {
            assert(cues@.take(place as int) =~= cues@);
            assert forall|cue: Cue| #[trigger] self.postings@.contains_key(cue) implies lists(
                self.postings@[cue]@,
                longer,
                cue,
            ) by {
                if !cues@.contains(cue) {
                    assert(!set.contains(cue));
                    assert(lists(before[cue]@, sets, cue));
                    let list = before[cue]@;
                    assert forall|i: usize| #[trigger]
                        list.contains(i) <==> i < longer.len() && longer[i as int].contains(cue) by {
                        if i < sets.len() {
                            assert(longer[i as int] == sets[i as int]);
                        }
                    }
                }
            }
            assert forall|cue: Cue, i: int|
                #![trigger longer[i].contains(cue)]
                0 <= i < longer.len() && longer[i].contains(cue) implies self.postings@.contains_key(
                cue,
            ) by {
                if i < sets.len() {
                    assert(longer[i] == sets[i]);
                    assert(sets[i].contains(cue));
                } else {
                    assert(cues@.contains(cue));
                }
            }
            assert forall|i: int| 0 <= i < longer.len() implies (#[trigger] longer[i]).finite()
                && self.cue_counts@[i] == longer[i].len() by {
                if i < sets.len() {
                    assert(longer[i] == sets[i]);
                }
            }
        }
    }

    /// Returns how many cues an indexed atom has.
    pub(crate) fn cue_count(&self, atom_index: usize, Ghost(sets): Ghost<Seq<Set<Cue>>>) -> (count:
        u64)
        requires
            self.describes(sets),
            atom_index < sets.len(),
        ensures
            count == sets[atom_index as int].len(),
            sets[atom_index as int].finite(),
    {
        assert(sets[atom_index as int].finite());
        self.cue_counts[atom_index]
    }

    /// Returns the posting streams of the listed cues.
    pub(crate) fn streams(
        &self,
        cues: &Vec<Cue>,
        Ghost(sets): Ghost<Seq<Set<Cue>>>,
    ) -> (streams: Vec<&[usize]>)
        requires
            self.describes(sets),
        ensures
            forall|i: int| 0 <= i < streams@.len() ==> ascending((#[trigger] streams@[i])@),
            forall|target: usize| #[trigger]
                holding(stream_views(streams@), target) == if target
                    < sets.len() {
                    count_members(cues@, sets[target as int])
                } else {
                    0nat
                },
    {
        let mut streams: Vec<&[usize]> = Vec::new();
        let mut place: usize = 0;
        let ghost mut views: Seq<Seq<usize>> = Seq::empty();
        assert(cues@.take(0) =~= Seq::empty());
        while place < cues.len()
            invariant
                place <= cues@.len(),
                self.describes(sets),
                views == stream_views(streams@),
                forall|i: int| 0 <= i < streams@.len() ==> ascending((#[trigger] streams@[i])@),
                forall|target: usize| #[trigger]
                    holding(views, target) == if target < sets.len() {
                        count_members(cues@.take(place as int), sets[target as int])
                    } else {
                        0nat
                    },
            decreases cues@.len() - place,
        {
            let cue: Cue = cues[place];
            let ghost shorter = cues@.take(place as int);
            let ghost longer = cues@.take(place + 1);
            let ghost before = views;
            assert(longer.drop_last() =~= shorter);
            assert(longer.last() == cue);
            match self.postings.get(&cue) {
                Some(list) => {
                    let positions = list.as_slice();
                    streams.push(positions);
                    proof {
                        assert(lists(positions@, sets, cue));
                        views = views.push(positions@);
                        assert(views =~= stream_views(streams@));
                        assert forall|target: usize| #[trigger]
                            holding(views, target) == if target < sets.len() {
                                count_members(longer, sets[target as int])
                            } else {
                                0nat
                            } by {
                            assert(views.drop_last() =~= before);
                            assert(holding(before, target) == if target < sets.len() {
                                count_members(shorter, sets[target as int])
                            } else {
                                0nat
                            });
                            assert(positions@.contains(target) <==> target < sets.len()
                                && sets[target as int].contains(cue));
                        }
                    }
                },
                None => {
                    proof {
                        assert forall|target: usize| #[trigger]
                            holding(views, target) == if target < sets.len() {
                                count_members(longer, sets[target as int])
                            } else {
                                0nat
                            } by {
                            if target < sets.len() {
                                assert(!sets[target as int].contains(cue));
                            }
                        }
                    }
                },
            }
            place = place + 1;
        }
        assert(cues@.take(place as int) =~= cues@);
        streams
    }
}

} // verus!
