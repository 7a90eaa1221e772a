//! Binary min-heap of integer keys.

use vstd::multiset::Multiset;
use vstd::prelude::*;

verus! {

/// A position and one of its two children.
pub open spec fn is_child(parent: int, child: int) -> bool {
    child == 2 * parent + 1 || child == 2 * parent + 2
}

/// No key is smaller than the key of its parent.
pub open spec fn heap_ordered(keys: Seq<u128>) -> bool {
    forall|parent: int, child: int|
        #![trigger keys[parent], keys[child]]
        0 <= parent && is_child(parent, child) && child < keys.len() ==> keys[parent]
            <= keys[child]
}

/// Heap order that may fail between `hole` and its parent only.
spec fn ordered_below(keys: Seq<u128>, hole: int) -> bool {
    &&& forall|parent: int, child: int|
        #![trigger keys[parent], keys[child]]
        0 <= parent && is_child(parent, child) && child < keys.len() && child != hole
            ==> keys[parent] <= keys[child]
    &&& forall|top: int, child: int|
        #![trigger keys[top], keys[child]]
        0 <= top && is_child(top, hole) && is_child(hole, child) && child < keys.len()
            ==> keys[top] <= keys[child]
}

/// Heap order that may fail between `hole` and its children only.
spec fn ordered_above(keys: Seq<u128>, hole: int) -> bool {
    &&& forall|parent: int, child: int|
        #![trigger keys[parent], keys[child]]
        0 <= parent && is_child(parent, child) && child < keys.len() && parent != hole
            ==> keys[parent] <= keys[child]
    &&& forall|top: int, child: int|
        #![trigger keys[top], keys[child]]
        0 <= top && is_child(top, hole) && is_child(hole, child) && child < keys.len()
            ==> keys[top] <= keys[child]
}

proof fn lemma_root_is_least(keys: Seq<u128>, position: int)
    requires
        heap_ordered(keys),
        0 <= position < keys.len(),
    ensures
        keys[0] <= keys[position],
    decreases position,
{
    if position > 0 {
        let parent = (position - 1) / 2;
        assert(is_child(parent, position));
        lemma_root_is_least(keys, parent);
    }
}

proof fn lemma_swap_keeps_multiset(keys: Seq<u128>, i: int, j: int)
    requires
        0 <= i < keys.len(),
        0 <= j < keys.len(),
    ensures
        keys.update(i, keys[j]).update(j, keys[i]).to_multiset() == keys.to_multiset(),
{
    broadcast use vstd::seq_lib::group_to_multiset_ensures;

    let first = keys.update(i, keys[j]);
    vstd::seq_lib::to_multiset_update(keys, i, keys[j]);
    vstd::seq_lib::to_multiset_update(first, j, keys[i]);
    assert(keys.to_multiset().count(keys[i]) > 0) by {
        assert(keys.contains(keys[i]));
    }
    if i == j {
        assert(first.update(j, keys[i]) =~= keys);
    } else {
        assert(first[j] == keys[j]);
        assert(first.update(j, keys[i]).to_multiset() =~= keys.to_multiset());
    }
}

/// Priority queue that gives back its smallest key first.
pub struct MinHeap {
    keys: Vec<u128>,
}

impl View for MinHeap {
    type V = Multiset<u128>;

    closed spec fn view(&self) -> Multiset<u128> {
        self.keys@.to_multiset()
    }
}

impl MinHeap {
    /// The stored keys are in heap order.
    pub closed spec fn wf(&self) -> bool {
        heap_ordered(self.keys@)
    }

    /// Creates a heap without keys.
    pub fn new() -> (heap: MinHeap)
        ensures
            heap.wf(),
            heap@ == Multiset::<u128>::empty(),
    {
        broadcast use vstd::seq_lib::group_to_multiset_ensures;

        let heap = MinHeap { keys: Vec::new() };
        assert(heap@ =~= Multiset::<u128>::empty());
        heap
    }

    /// Returns the number of stored keys.
    pub fn len(&self) -> (len: usize)
        ensures
            len == self@.len(),
    {
        broadcast use vstd::seq_lib::group_to_multiset_ensures;

        self.keys.len()
    }

    /// Adds one key.
    pub fn push(&mut self, key: u128)
        requires
            old(self).wf(),
        ensures
            final(self).wf(),
            final(self)@ == old(self)@.insert(key),
    {
        broadcast use vstd::seq_lib::group_to_multiset_ensures;

        self.keys.push(key);
        let mut hole: usize = self.keys.len() - 1;
        while hole > 0
            invariant_except_break
                ordered_below(self.keys@, hole as int),
            invariant
                hole < self.keys@.len(),
                self.keys@.to_multiset() == old(self)@.insert(key),
            ensures
                heap_ordered(self.keys@),
            decreases hole,
        {
            let parent: usize = (hole - 1) / 2;
            assert(is_child(parent as int, hole as int));
            let above: u128 = self.keys[parent];
            let below: u128 = self.keys[hole];
            if above <= below {
                break ;
            }
            let ghost before = self.keys@;
            self.keys[hole] = above;
            self.keys[parent] = below;
            proof {
                lemma_swap_keeps_multiset(before, hole as int, parent as int);
            }
            hole = parent;
        }
    }

    /// Returns the smallest key without removing it.
    pub fn peek(&self) -> (least: Option<u128>)
        requires
            self.wf(),
        ensures
            least is None <==> self@.len() == 0,
            least matches Some(key) ==> self@.count(key) > 0 && forall|other: u128|
                self@.count(other) > 0 ==> key <= other,
    {
        broadcast use vstd::seq_lib::group_to_multiset_ensures;

        if self.keys.len() == 0 {
            return None;
        }
        let key: u128 = self.keys[0];
        proof {
            assert(self.keys@.contains(key));
            assert forall|other: u128| self@.count(other) > 0 implies key <= other by {
                assert(self.keys@.contains(other));
                lemma_root_is_least(self.keys@, self.keys@.index_of(other));
            }
        }
        Some(key)
    }

    /// Removes and returns the smallest key.
    pub fn pop(&mut self) -> (least: Option<u128>)
        requires
            old(self).wf(),
        ensures
            final(self).wf(),
            least is None <==> old(self)@.len() == 0,
            least is None ==> final(self)@ == old(self)@,
            least matches Some(key) ==> {
                &&& old(self)@.count(key) > 0
                &&& final(self)@ == old(self)@.remove(key)
                &&& forall|other: u128| old(self)@.count(other) > 0 ==> key <= other
            },
    {
        broadcast use vstd::seq_lib::group_to_multiset_ensures;

        let least: Option<u128> = self.peek();
        if self.keys.len() == 0 {
            return None;
        }
        let ghost whole = self.keys@;
        assert(least == Some(whole[0])) by {
            assert(whole.contains(whole[0]));
            assert(self@.count(whole[0]) > 0);
            assert(whole.contains(least->0));
            lemma_root_is_least(whole, whole.index_of(least->0));
        }
        let last: u128 = self.keys.pop().unwrap();
        if self.keys.len() == 0 {
            proof {
                assert(whole =~= seq![last]);
                vstd::seq_lib::to_multiset_remove(whole, 0);
                assert(self.keys@ =~= whole.remove(0));
            }
            return least;
        }
        let ghost shortened = self.keys@;
        self.keys[0] = last;
        proof {
            assert(shortened =~= whole.remove(whole.len() - 1));
            vstd::seq_lib::to_multiset_remove(whole, whole.len() - 1);
            vstd::seq_lib::to_multiset_update(shortened, 0, last);
            assert(shortened.contains(shortened[0]));
            assert(self.keys@.to_multiset() =~= old(self)@.remove(whole[0]));
        }
        let mut hole: usize = 0;
        while !(hole > (usize::MAX - 1) / 2 || 2 * hole + 1 >= self.keys.len())
            invariant_except_break
                ordered_above(self.keys@, hole as int),
            invariant
                hole < self.keys@.len(),
                self.keys@.len() < whole.len() <= usize::MAX,
                self.keys@.to_multiset() == old(self)@.remove(whole[0]),
            ensures
                heap_ordered(self.keys@),
            decreases self.keys@.len() - hole,
        {
            let left: usize = 2 * hole + 1;
            let right: usize = left + 1;
            let mut child: usize = left;
            if right < self.keys.len() && self.keys[right] < self.keys[left] {
                child = right;
            }
            assert(is_child(hole as int, left as int) && is_child(hole as int, right as int));
            let above: u128 = self.keys[hole];
            let below: u128 = self.keys[child];
            if above <= below {
                assert(heap_ordered(self.keys@));
                break ;
            }
            let ghost before = self.keys@;
            self.keys[hole] = below;
            self.keys[child] = above;
            proof {
                lemma_swap_keeps_multiset(before, hole as int, child as int);
            }
            hole = child;
        }
        least
    }
}

} // verus!
