//! Append-only episode memory with derived cue postings and sparse feedback.

pub mod laws;
pub mod posting;
pub mod ranking;
pub mod recall;
pub mod recall_laws;

use std::collections::BTreeMap;

use vstd::prelude::*;

use crate::episode::Episode;
use crate::memory::posting::{cue_sets, CueIndex};
use crate::model::{
    lemma_atom_id_injective, recent, AtomId, FeedbackTrace, GraphError, MemoryError, MemoryId,
};
use crate::order::{increasing, sort_distinct_numbers};
use crate::parameters::MAX_FEEDBACK_TARGETS;

verus! {

/// A directed bounded feedback trace between two atoms.
#[derive(Clone, Copy, Debug, PartialEq, Eq, Structural)]
pub struct FeedbackEdge {
    from: AtomId,
    to: AtomId,
    trace: FeedbackTrace,
}

impl FeedbackEdge {
    /// The source, the assessed target and the history.
    pub closed spec fn parts(self) -> (AtomId, AtomId, FeedbackTrace) {
        (self.from, self.to, self.trace)
    }

    /// Returns the episode used as the feedback source.
    pub fn from(self) -> (from: AtomId)
        ensures
            from == self.parts().0,
    {
        self.from
    }

    /// Returns the episode assessed relative to the source.
    pub fn to(self) -> (to: AtomId)
        ensures
            to == self.parts().1,
    {
        self.to
    }

    /// Returns the bounded binary feedback history.
    pub fn trace(self) -> (trace: FeedbackTrace)
        ensures
            trace == self.parts().2,
    {
        self.trace
    }
}

/// The samples of a trace that may be absent.
pub open spec fn samples_or_none(trace: Option<FeedbackTrace>) -> Seq<bool> {
    match trace {
        Some(trace) => trace.samples(),
        None => Seq::empty(),
    }
}

/// `after` is `before` with one more sample, the oldest dropped beyond the capacity.
pub open spec fn extends_trace(
    before: Option<FeedbackTrace>,
    helpful: bool,
    after: FeedbackTrace,
) -> bool {
    after.canonical() && after.samples() == recent(samples_or_none(before).push(helpful))
}

/// Feedback traces by the positions of their source and target.
pub type Traces = Map<(usize, usize), FeedbackTrace>;

/// The trace from one position to another, if any.
pub open spec fn lookup(traces: Traces, pair: (usize, usize)) -> Option<FeedbackTrace> {
    if traces.contains_key(pair) {
        Some(traces[pair])
    } else {
        None
    }
}

/// Append-only atom storage with derived cue postings and sparse feedback.
///
/// Each memory ID must name one exclusively written logical memory. Reopening
/// requires reconstructing its complete atom sequence before appending. Atom
/// identifiers from another memory are rejected rather than aliased.
#[derive(Debug)]
pub struct Memory<E: Episode> {
    memory_id: MemoryId,
    atoms: Vec<E>,
    cue_index: CueIndex,
    outgoing: BTreeMap<usize, BTreeMap<usize, FeedbackTrace>>,
}

impl<E: Episode> Memory<E> {
    /// The durable identifier.
    pub closed spec fn identifier(&self) -> MemoryId {
        self.memory_id
    }

    /// The stored episodes in insertion order.
    pub closed spec fn atoms(&self) -> Seq<E> {
        self.atoms@
    }

    /// The feedback traces.
    pub closed spec fn traces(&self) -> Traces {
        Map::new(
            |pair: (usize, usize)|
                self.outgoing@.contains_key(pair.0) && self.outgoing@[pair.0]@.contains_key(pair.1),
            |pair: (usize, usize)| self.outgoing@[pair.0]@[pair.1],
        )
    }

    /// Identifiers follow the insertion order, the postings are those of the
    /// episodes, and each trace joins two different stored episodes.
    pub closed spec fn wf(&self) -> bool {
        &&& self.cue_index.describes(cue_sets(self.atoms@))
        &&& forall|i: int|
            0 <= i < self.atoms@.len() ==> (#[trigger] self.atoms@[i]).identifier() == AtomId::of(
                self.memory_id,
                i as u64,
            )
        &&& forall|pair: (usize, usize)| #[trigger]
            self.traces().contains_key(pair) ==> {
                &&& pair.0 < self.atoms@.len()
                &&& pair.1 < self.atoms@.len()
                &&& pair.0 != pair.1
                &&& self.traces()[pair].canonical()
            }
    }

    /// Each trace joins two different stored episodes and is canonical.
    pub proof fn lemma_traces_join_episodes(&self)
        requires
            self.wf(),
        ensures
            forall|pair: (usize, usize)| #[trigger]
                self.traces().contains_key(pair) ==> {
                    &&& pair.0 < self.atoms().len()
                    &&& pair.1 < self.atoms().len()
                    &&& pair.0 != pair.1
                    &&& self.traces()[pair].canonical()
                },
    {
    }

    /// An episode has finitely many cues.
    pub proof fn lemma_cues_are_finite(&self, position: int)
        requires
            self.wf(),
            0 <= position < self.atoms().len(),
        ensures
            self.atoms()[position].cue_set().finite(),
    {
        self.cue_index.lemma_described_finite(cue_sets(self.atoms@), position);
    }

    /// The atom belongs to this memory.
    pub open spec fn knows(&self, id: AtomId) -> bool {
        id.memory() == self.identifier() && id.position() < self.atoms().len()
    }

    /// Creates an empty memory with the caller-owned durable identifier.
    pub fn new(memory_id: MemoryId) -> (memory: Memory<E>)
        ensures
            memory.wf(),
            memory.identifier() == memory_id,
            memory.atoms() == Seq::<E>::empty(),
            memory.traces() == Map::<(usize, usize), FeedbackTrace>::empty(),
    {
        let memory = Memory {
            memory_id,
            atoms: Vec::new(),
            cue_index: CueIndex::new(),
            outgoing: BTreeMap::new(),
        };
        assert(cue_sets(memory.atoms@) =~= Seq::empty());
        assert(memory.traces() =~= Map::empty());
        memory
    }

    /// Returns the durable identifier of this logical memory.
    pub fn memory_id(&self) -> (memory_id: MemoryId)
        ensures
            memory_id == self.identifier(),
    {
        self.memory_id
    }

    /// Canonicalizes the draft and appends the immutable episode.
    pub fn insert_episode(&mut self, draft: E::Draft) -> (result: Result<AtomId, MemoryError>)
        requires
            old(self).wf(),
        ensures
            final(self).wf(),
            final(self).identifier() == old(self).identifier(),
            final(self).traces() == old(self).traces(),
            result is Ok,
            result->Ok_0 == AtomId::of(old(self).identifier(), old(self).atoms().len() as u64),
            final(self).atoms().len() == old(self).atoms().len() + 1,
            final(self).atoms().drop_last() == old(self).atoms(),
            final(self).atoms().last().identifier() == result->Ok_0,
            final(self).atoms().last().records(&draft),
    {
        let atom_index: usize = self.atoms.len();
        let id = AtomId::from_parts(self.memory_id, atom_index as u64);
        let atom = E::from_draft(id, draft);
        let ghost before = self.atoms@;
        self.cue_index.insert(atom_index, &atom, Ghost(cue_sets(before)));
        self.atoms.push(atom);
        proof {
            assert(cue_sets(self.atoms@) =~= cue_sets(before).push(atom.cue_set()));
            assert(self.atoms@.drop_last() =~= before);
            assert(self.traces() =~= old(self).traces());
            assert forall|pair: (usize, usize)| #[trigger] self.traces().contains_key(pair) implies {
                &&& pair.0 < self.atoms@.len()
                &&& pair.1 < self.atoms@.len()
                &&& pair.0 != pair.1
                &&& self.traces()[pair].canonical()
            } by {
                assert(old(self).traces().contains_key(pair));
            }
        }
        Ok(id)
    }

    /// Returns the episode, or `None` if the identifier does not belong here.
    pub fn episode(&self, id: AtomId) -> (episode: Option<&E>)
        requires
            self.wf(),
        ensures
            episode is Some <==> self.knows(id),
            episode matches Some(episode) ==> *episode == self.atoms()[id.position() as int]
                && episode.identifier() == id,
    {
        match self.local_index(id) {
            Some(index) => {
                proof {
                    assert(self.atoms@[index as int].identifier() == AtomId::of(
                        self.memory_id,
                        index as u64,
                    ));
                    crate::model::lemma_atom_id_parts(self.memory_id, index as u64);
                    lemma_atom_id_injective(id, AtomId::of(self.memory_id, index as u64));
                }
                Some(&self.atoms[index])
            },
            None => None,
        }
    }

    /// Returns the episodes in ascending local identifier order.
    pub fn episodes(&self) -> (episodes: &[E])
        ensures
            episodes@ == self.atoms(),
    {
        self.atoms.as_slice()
    }

    /// Sets or replaces a directed feedback trace.
    ///
    /// The operation is atomic: unknown endpoints and self-edges are rejected
    /// without mutation.
    pub fn set_feedback_trace(
        &mut self,
        from: AtomId,
        to: AtomId,
        trace: FeedbackTrace,
    ) -> (result: Result<Option<FeedbackTrace>, GraphError>)
        requires
            old(self).wf(),
        ensures
            final(self).wf(),
            final(self).identifier() == old(self).identifier(),
            final(self).atoms() == old(self).atoms(),
            result == if !old(self).knows(from) {
                Err::<Option<FeedbackTrace>, GraphError>(GraphError::UnknownAtom(from))
            } else if !old(self).knows(to) {
                Err(GraphError::UnknownAtom(to))
            } else if from == to {
                Err(GraphError::SelfEdge(from))
            } else {
                Ok(
                    lookup(
                        old(self).traces(),
                        (from.position() as usize, to.position() as usize),
                    ),
                )
            },
            result is Err ==> final(self).traces() == old(self).traces(),
            result is Ok ==> final(self).traces() == old(self).traces().insert(
                (from.position() as usize, to.position() as usize),
                trace,
            ),
    {
        let from_index: usize = match self.require_atom(from) {
            Ok(index) => index,
            Err(error) => {
                return Err(error);
            },
        };
        let to_index: usize = match self.require_atom(to) {
            Ok(index) => index,
            Err(error) => {
                return Err(error);
            },
        };
        if from == to {
            return Err(GraphError::SelfEdge(from));
        }
        proof {
            use_type_invariant(&trace);
            if from_index == to_index {
                lemma_atom_id_injective(from, to);
            }
        }
        let ghost before = self.outgoing@;
        let mut row: BTreeMap<usize, FeedbackTrace> = match self.outgoing.remove(&from_index) {
            Some(row) => row,
            None => BTreeMap::new(),
        };
        let previous: Option<FeedbackTrace> = row.insert(to_index, trace);
        self.outgoing.insert(from_index, row);
        proof {
            let updated = old(self).traces().insert((from_index, to_index), trace);
            assert(self.traces() =~= updated) by {
                assert forall|pair: (usize, usize)|
                    self.traces().contains_key(pair) <==> updated.contains_key(pair) by {
                    if pair.0 != from_index {
                        assert(self.outgoing@.contains_key(pair.0) <==> before.contains_key(pair.0));
                    }
                }
            }
            assert forall|pair: (usize, usize)| #[trigger] self.traces().contains_key(pair) implies {
                &&& pair.0 < self.atoms@.len()
                &&& pair.1 < self.atoms@.len()
                &&& pair.0 != pair.1
                &&& self.traces()[pair].canonical()
            } by {
                if pair != (from_index, to_index) {
                    assert(old(self).traces().contains_key(pair));
                }
            }
        }
        Ok(previous)
    }

    /// Returns a trace, or `None` for an absent edge or unknown endpoint.
    pub fn feedback_trace(&self, from: AtomId, to: AtomId) -> (trace: Option<FeedbackTrace>)
        requires
            self.wf(),
        ensures
            trace == if self.knows(from) && self.knows(to) {
                lookup(self.traces(), (from.position() as usize, to.position() as usize))
            } else {
                None
            },
    {
        let from_index: usize = match self.local_index(from) {
            Some(index) => index,
            None => {
                return None;
            },
        };
        let to_index: usize = match self.local_index(to) {
            Some(index) => index,
            None => {
                return None;
            },
        };
        match self.outgoing.get(&from_index) {
            Some(row) => match row.get(&to_index) {
                Some(trace) => Some(*trace),
                None => None,
            },
            None => None,
        }
    }

    /// Lists edges in ascending source and target identifier order.
    pub fn feedback_edges(&self) -> (edges: Vec<FeedbackEdge>)
        requires
            self.wf(),
        ensures
            forall|i: int|
                0 <= i < edges@.len() ==> {
                    let (from, to, trace) = (#[trigger] edges@[i]).parts();
                    &&& self.knows(from)
                    &&& self.knows(to)
                    &&& lookup(
                        self.traces(),
                        (from.position() as usize, to.position() as usize),
                    ) == Some(trace)
                },
            forall|i: int, j: int|
                #![trigger edges@[i], edges@[j]]
                0 <= i < j < edges@.len() ==> edge_before(edges@[i], edges@[j]),
            forall|pair: (usize, usize)| #[trigger]
                self.traces().contains_key(pair) ==> lists_edge(edges@, pair),
    {
        let mut edges: Vec<FeedbackEdge> = Vec::new();
        let sources: Vec<usize> = list_keys(&self.outgoing);
        let mut place: usize = 0;
        while place < sources.len()
            invariant
                self.wf(),
                place <= sources@.len(),
                increasing_positions(sources@),
                sources@.to_set() == self.outgoing@.dom(),
                forall|i: int| 0 <= i < edges@.len() ==> self.holds_edge(#[trigger] edges@[i]),
                forall|i: int, j: int|
                    #![trigger edges@[i], edges@[j]]
                    0 <= i < j < edges@.len() ==> edge_before(edges@[i], edges@[j]),
                forall|i: int, k: int|
                    #![trigger edges@[i], sources@[k]]
                    0 <= i < edges@.len() && place <= k < sources@.len()
                        ==> edges@[i].parts().0.position() < sources@[k],
                forall|k: int, target: usize|
                    #![trigger self.outgoing@[sources@[k]]@.contains_key(target)]
                    0 <= k < place && self.outgoing@[sources@[k]]@.contains_key(target)
                        ==> lists_edge(edges@, (sources@[k], target)),
            decreases sources@.len() - place,
        {
            let from_index: usize = sources[place];
            assert(sources@.to_set().contains(from_index));
            let row: &BTreeMap<usize, FeedbackTrace> = self.outgoing.get(&from_index).unwrap();
            let entries: Vec<(usize, FeedbackTrace)> = list_row(row);
            let ghost start = edges@;
            let mut entry: usize = 0;
            while entry < entries.len()
                invariant
                    self.wf(),
                    place < sources@.len(),
                    increasing_positions(sources@),
                    from_index == sources@[place as int],
                    self.outgoing@.contains_key(from_index),
                    row@ == self.outgoing@[from_index]@,
                    lists_row(entries@, row@),
                    entry <= entries@.len(),
                    start.len() <= edges@.len(),
                    forall|i: int| 0 <= i < start.len() ==> #[trigger] edges@[i] == start[i],
                    forall|i: int|
                        0 <= i < start.len() ==> (#[trigger] start[i]).parts().0.position()
                            < from_index,
                    edges@.len() == start.len() + entry,
                    forall|i: int|
                        0 <= i < entry ==> {
                            let edge = #[trigger] edges@[start.len() + i];
                            &&& edge.parts().0.position() == from_index
                            &&& edge.parts().1.position() == entries@[i].0
                            &&& self.holds_edge(edge)
                        },
                    forall|i: int| 0 <= i < edges@.len() ==> self.holds_edge(#[trigger] edges@[i]),
                    forall|i: int, j: int|
                        #![trigger edges@[i], edges@[j]]
                        0 <= i < j < edges@.len() ==> edge_before(edges@[i], edges@[j]),
                decreases entries@.len() - entry,
            {
                let (to_index, trace): (usize, FeedbackTrace) = entries[entry];
                proof {
                    assert(row@.contains_key(entries@[entry as int].0));
                    assert(self.traces().contains_key((from_index, to_index)));
                }
                let from: AtomId = AtomId::from_parts(self.memory_id, from_index as u64);
                let to: AtomId = AtomId::from_parts(self.memory_id, to_index as u64);
                let edge = FeedbackEdge { from, to, trace };
                assert(self.holds_edge(edge));
                let ghost earlier = edges@;
                edges.push(edge);
                proof {
                    assert forall|i: int, j: int|
                        #![trigger edges@[i], edges@[j]]
                        0 <= i < j < edges@.len() implies edge_before(edges@[i], edges@[j]) by {
                        if j < earlier.len() {
                            assert(earlier[i] == edges@[i] && earlier[j] == edges@[j]);
                        } else if i >= start.len() {
                            let k = i - start.len();
                            assert(edges@[start.len() + k] == earlier[i]);
                            assert(entries@[k].0 < entries@[entry as int].0);
                        } else {
                            assert(edges@[i] == start[i]);
                        }
                    }
                }
                entry = entry + 1;
            }
            proof {
                assert forall|k: int, target: usize|
                    #![trigger self.outgoing@[sources@[k]]@.contains_key(target)]
                    0 <= k < place + 1 && self.outgoing@[sources@[k]]@.contains_key(
                        target,
                    ) implies lists_edge(edges@, (sources@[k], target)) by {
                    if k < place {
                        assert(lists_edge(start, (sources@[k], target)));
                        let i = choose|i: int|
                            0 <= i < start.len() && edge_joins(
                                #[trigger] start[i],
                                (sources@[k], target),
                            );
                        assert(edge_joins(edges@[i], (sources@[k], target)));
                    } else {
                        assert(row@.contains_key(target));
                        let i = choose|i: int|
                            0 <= i < entries@.len() && (#[trigger] entries@[i]).0 == target;
                        assert(edge_joins(edges@[start.len() + i], (sources@[k], target)));
                    }
                }
                assert forall|i: int, k: int|
                    #![trigger edges@[i], sources@[k]]
                    0 <= i < edges@.len() && place + 1 <= k < sources@.len() implies edges@[i].parts().0.position()
                    < sources@[k] by {
                    assert(sources@[place as int] < sources@[k]);
                    if i >= start.len() {
                        let n = i - start.len();
                        assert(edges@[start.len() + n].parts().0.position() == from_index);
                    } else {
                        assert(edges@[i] == start[i]);
                    }
                }
            }
            place = place + 1;
        }
        proof {
            assert forall|pair: (usize, usize)| #[trigger]
                self.traces().contains_key(pair) implies lists_edge(edges@, pair) by {
                assert(sources@.to_set().contains(pair.0));
                let k = sources@.index_of(pair.0);
                assert(self.outgoing@[sources@[k]]@.contains_key(pair.1));
            }
            assert forall|i: int| 0 <= i < edges@.len() implies {
                let (from, to, trace) = (#[trigger] edges@[i]).parts();
                &&& self.knows(from)
                &&& self.knows(to)
                &&& lookup(self.traces(), (from.position() as usize, to.position() as usize))
                    == Some(trace)
            } by {
                assert(self.holds_edge(edges@[i]));
            }
        }
        edges
    }

    spec fn holds_edge(&self, edge: FeedbackEdge) -> bool {
        let (from, to, trace) = edge.parts();
        &&& self.knows(from)
        &&& self.knows(to)
        &&& lookup(self.traces(), (from.position() as usize, to.position() as usize)) == Some(trace)
    }

    /// Applies one external binary assessment to a source and recalled targets.
    ///
    /// At most [`MAX_FEEDBACK_TARGETS`] entries are accepted. Targets are then
    /// treated as an unordered set: duplicates and the source atom are ignored.
    /// Every effective target receives one complete sample. Once a trace is at
    /// its capacity, adding a sample drops exactly its oldest sample.
    ///
    /// All identifiers are validated before feedback is mutated. Episode
    /// content is not changed.
    ///
    /// # Errors
    ///
    /// Returns [`GraphError::UnknownAtom`] if the source or any target does not
    /// belong to this memory, or [`GraphError::FeedbackTargetLimitExceeded`] if
    /// the supplied slice is too long. Failure leaves all feedback unchanged.
    pub fn apply_feedback(
        &mut self,
        source: AtomId,
        targets: &[AtomId],
        helpful: bool,
    ) -> (result: Result<(), GraphError>)
        requires
            old(self).wf(),
        ensures
            final(self).wf(),
            final(self).identifier() == old(self).identifier(),
            final(self).atoms() == old(self).atoms(),
            !old(self).knows(source) ==> result == Err::<(), GraphError>(
                GraphError::UnknownAtom(source),
            ),
            targets@.len() > 10_000 ==> result is Err,
            old(self).knows(source) && targets@.len() > MAX_FEEDBACK_TARGETS ==> result == Err::<
                (),
                GraphError,
            >(
                GraphError::FeedbackTargetLimitExceeded {
                    count: targets@.len() as usize,
                    max: MAX_FEEDBACK_TARGETS,
                },
            ),
            old(self).knows(source) && targets@.len() <= MAX_FEEDBACK_TARGETS ==> (result is Ok
                <==> forall|i: int|
                0 <= i < targets@.len() ==> old(self).knows(#[trigger] targets@[i])),
            old(self).knows(source) && targets@.len() <= MAX_FEEDBACK_TARGETS && result is Err
                ==> exists|i: int|
                0 <= i < targets@.len() && !old(self).knows(#[trigger] targets@[i]) && (forall|
                    j: int,
                |
                    0 <= j < i ==> old(self).knows(#[trigger] targets@[j])) && result == Err::<
                    (),
                    GraphError,
                >(GraphError::UnknownAtom(targets@[i])),
            result is Err ==> final(self).traces() == old(self).traces(),
            result is Ok ==> feedback_applied(
                old(self).traces(),
                source,
                targets@,
                helpful,
                final(self).traces(),
            ),
    {
        let source_index: usize = match self.require_atom(source) {
            Ok(index) => index,
            Err(error) => {
                return Err(error);
            },
        };
        if targets.len() > MAX_FEEDBACK_TARGETS {
            return Err(
                GraphError::FeedbackTargetLimitExceeded {
                    count: targets.len(),
                    max: MAX_FEEDBACK_TARGETS,
                },
            );
        }
        let mut indices: Vec<u64> = Vec::new();
        let mut place: usize = 0;
        while place < targets.len()
            invariant
                self.wf(),
                *self == *old(self),
                self.knows(source),
                source_index == source.position(),
                place <= targets@.len() <= MAX_FEEDBACK_TARGETS,
                indices@.len() == place,
                forall|i: int|
                    0 <= i < place ==> self.knows(#[trigger] targets@[i]) && indices@[i]
                        == targets@[i].position(),
            decreases targets@.len() - place,
        {
            match self.require_atom(targets[place]) {
                Ok(index) => {
                    indices.push(index as u64);
                },
                Err(error) => {
                    return Err(error);
                },
            }
            place = place + 1;
        }
        let sorted: Vec<u64> = sort_distinct_numbers(indices.as_slice());
        proof {
            assert forall|target: u64| sorted@.contains(target) <==> positioned(targets@, target) by {
                if sorted@.contains(target) {
                    assert(indices@.contains(target));
                    let k = indices@.index_of(target);
                    assert(targets@[k].position() == target);
                }
                if positioned(targets@, target) {
                    let k = choose|k: int|
                        0 <= k < targets@.len() && (#[trigger] targets@[k]).position() == target;
                    assert(indices@[k] == target);
                    assert(indices@.contains(target));
                }
            }
        }
        proof {
            assert forall|i: int| 0 <= i < sorted@.len() implies #[trigger] sorted@[i]
                < self.atoms().len() by {
                assert(sorted@.contains(sorted@[i]));
                let k = choose|k: int|
                    0 <= k < targets@.len() && (#[trigger] targets@[k]).position() == sorted@[i];
                assert(self.knows(targets@[k]));
            }
        }
        self.apply_samples(source_index, &sorted, helpful);
        proof {
            assert forall|pair: (usize, usize)| #[trigger]
                self.traces().contains_key(pair) <==> old(self).traces().contains_key(pair)
                    || assessed(source, targets@, pair) by {
                assert(self.traces().contains_key(pair) <==> old(self).traces().contains_key(pair)
                    || (pair.0 == source_index && pair.1 != source_index && sorted@.contains(
                    pair.1 as u64,
                )));
            }
            assert forall|pair: (usize, usize)| #[trigger] self.traces().contains_key(pair) implies (
            if assessed(source, targets@, pair) {
                extends_trace(lookup(old(self).traces(), pair), helpful, self.traces()[pair])
            } else {
                self.traces()[pair] == old(self).traces()[pair]
            }) by {}
        }
        Ok(())
    }

    /// Adds one sample from a source to each listed target but the source itself.
    fn apply_samples(&mut self, source_index: usize, sorted: &Vec<u64>, helpful: bool)
        requires
            old(self).wf(),
            source_index < old(self).atoms().len(),
            increasing(sorted@),
            forall|i: int| 0 <= i < sorted@.len() ==> #[trigger] sorted@[i] < old(self).atoms().len(),
        ensures
            final(self).wf(),
            final(self).identifier() == old(self).identifier(),
            final(self).atoms() == old(self).atoms(),
            forall|pair: (usize, usize)| #[trigger]
                final(self).traces().contains_key(pair) <==> old(self).traces().contains_key(pair)
                    || (pair.0 == source_index && pair.1 != source_index && sorted@.contains(
                    pair.1 as u64,
                )),
            forall|pair: (usize, usize)| #[trigger]
                final(self).traces().contains_key(pair) ==> if pair.0 == source_index && pair.1
                    != source_index && sorted@.contains(pair.1 as u64) {
                    extends_trace(
                        lookup(old(self).traces(), pair),
                        helpful,
                        final(self).traces()[pair],
                    )
                } else {
                    final(self).traces()[pair] == old(self).traces()[pair]
                },
    {
        let ghost before = self.outgoing@;
        let mut row: BTreeMap<usize, FeedbackTrace> = match self.outgoing.remove(&source_index) {
            Some(row) => row,
            None => BTreeMap::new(),
        };
        let ghost old_row = row@;
        proof {
            assert forall|target: usize| old_row.contains_key(target) <==> old(
                self,
            ).traces().contains_key((source_index, target)) by {}
        }
        let mut place: usize = 0;
        while place < sorted.len()
            invariant
                place <= sorted@.len(),
                increasing(sorted@),
                self.atoms@ == old(self).atoms@,
                self.memory_id == old(self).memory_id,
                self.cue_index == old(self).cue_index,
                self.outgoing@ == before.remove(source_index),
                forall|i: int|
                    0 <= i < sorted@.len() ==> #[trigger] sorted@[i] < old(self).atoms().len(),
                forall|target: usize| #[trigger]
                    row@.contains_key(target) <==> old_row.contains_key(target) || (target
                        != source_index && sorted@.take(place as int).contains(target as u64)),
                forall|target: usize| #[trigger]
                    row@.contains_key(target) ==> if target != source_index && sorted@.take(
                        place as int,
                    ).contains(target as u64) {
                        extends_trace(
                            if old_row.contains_key(target) {
                                Some(old_row[target])
                            } else {
                                None
                            },
                            helpful,
                            row@[target],
                        )
                    } else {
                        row@[target] == old_row[target]
                    },
            decreases sorted@.len() - place,
        {
            assert(sorted@[place as int] < old(self).atoms().len());
            let count: usize = self.atoms.len();
            let target: usize = sorted[place] as usize;
            let ghost current = row@;
            let ghost taken = sorted@.take(place as int);
            let ghost longer = sorted@.take(place + 1);
            proof {
                assert(longer =~= taken.push(target as u64));
                assert(!taken.contains(target as u64)) by {
                    if taken.contains(target as u64) {
                        let k = taken.index_of(target as u64);
                        assert(sorted@[k] < sorted@[place as int]);
                    }
                }
                assert forall|other: u64| longer.contains(other) <==> other == target as u64
                    || taken.contains(other) by {
                    if taken.contains(other) {
                        let k = taken.index_of(other);
                        assert(longer[k] == other);
                    }
                    assert(longer[place as int] == target as u64);
                    if longer.contains(other) {
                        let k = longer.index_of(other);
                        if k < place {
                            assert(taken[k] == other);
                        }
                    }
                }
            }
            if target != source_index {
                let trace: FeedbackTrace = match row.get(&target) {
                    Some(trace) => {
                        let mut extended: FeedbackTrace = *trace;
                        extended.push(helpful);
                        extended
                    },
                    None => {
                        let trace = FeedbackTrace::from_feedback(helpful);
                        assert(Seq::<bool>::empty().push(helpful) =~= seq![helpful]);
                        trace
                    },
                };
                row.insert(target, trace);
            }
            place = place + 1;
        }
        assert(sorted@.take(place as int) =~= sorted@);
        self.outgoing.insert(source_index, row);
        proof {
            assert forall|pair: (usize, usize)| #[trigger]
                self.traces().contains_key(pair) <==> old(self).traces().contains_key(pair) || (
                pair.0 == source_index && pair.1 != source_index && sorted@.contains(
                    pair.1 as u64,
                )) by {
                if pair.0 == source_index {
                    assert(row@.contains_key(pair.1) <==> self.traces().contains_key(pair));
                    assert(old_row.contains_key(pair.1) <==> old(self).traces().contains_key(pair));
                } else {
                    assert(self.outgoing@.contains_key(pair.0) <==> before.contains_key(pair.0));
                }
            }
            assert forall|pair: (usize, usize)| #[trigger] self.traces().contains_key(pair) implies (
            if pair.0 == source_index && pair.1 != source_index && sorted@.contains(pair.1 as u64) {
                extends_trace(lookup(old(self).traces(), pair), helpful, self.traces()[pair])
            } else {
                self.traces()[pair] == old(self).traces()[pair]
            }) by {
                if pair.0 == source_index {
                    assert(row@.contains_key(pair.1));
                    assert(old_row.contains_key(pair.1) <==> old(self).traces().contains_key(pair));
                }
            }
            assert forall|pair: (usize, usize)| #[trigger] self.traces().contains_key(pair) implies {
                &&& pair.0 < self.atoms@.len()
                &&& pair.1 < self.atoms@.len()
                &&& pair.0 != pair.1
                &&& self.traces()[pair].canonical()
            } by {
                if pair.0 == source_index && pair.1 != source_index && sorted@.contains(
                    pair.1 as u64,
                ) {
                    let k = sorted@.index_of(pair.1 as u64);
                    assert(sorted@[k] < old(self).atoms().len());
                } else {
                    assert(old(self).traces().contains_key(pair));
                }
            }
        }
    }

    fn local_index(&self, id: AtomId) -> (index: Option<usize>)
        ensures
            index is Some <==> self.knows(id),
            index matches Some(index) ==> index == id.position() && index < self.atoms().len(),
    {
        if id.memory_id() != self.memory_id {
            return None;
        }
        let sequence: u64 = id.sequence();
        let count: usize = self.atoms.len();
        if sequence < count as u64 {
            Some(sequence as usize)
        } else {
            None
        }
    }

    fn require_atom(&self, id: AtomId) -> (result: Result<usize, GraphError>)
        ensures
            result is Ok <==> self.knows(id),
            result matches Ok(index) ==> index == id.position() && index < self.atoms().len(),
            result matches Err(error) ==> error == GraphError::UnknownAtom(id),
    {
        match self.local_index(id) {
            Some(index) => Ok(index),
            None => Err(GraphError::UnknownAtom(id)),
        }
    }
}

/// Some target stands at the position.
pub open spec fn positioned(targets: Seq<AtomId>, position: u64) -> bool {
    exists|i: int| 0 <= i < targets.len() && (#[trigger] targets[i]).position() == position
}

/// The pair joins the source to one of the targets, not to itself.
pub open spec fn assessed(source: AtomId, targets: Seq<AtomId>, pair: (usize, usize)) -> bool {
    &&& pair.0 == source.position()
    &&& pair.1 != source.position()
    &&& positioned(targets, pair.1 as u64)
}

/// Every assessed pair gained one sample, and nothing else changed.
pub open spec fn feedback_applied(
    before: Traces,
    source: AtomId,
    targets: Seq<AtomId>,
    helpful: bool,
    after: Traces,
) -> bool {
    &&& forall|pair: (usize, usize)| #[trigger]
        after.contains_key(pair) <==> before.contains_key(pair) || assessed(source, targets, pair)
    &&& forall|pair: (usize, usize)| #[trigger]
        after.contains_key(pair) ==> if assessed(source, targets, pair) {
            extends_trace(lookup(before, pair), helpful, after[pair])
        } else {
            after[pair] == before[pair]
        }
}

/// The edge joins the two positions.
pub open spec fn edge_joins(edge: FeedbackEdge, pair: (usize, usize)) -> bool {
    edge.parts().0.position() == pair.0 && edge.parts().1.position() == pair.1
}

/// Some listed edge joins the two positions.
pub open spec fn lists_edge(edges: Seq<FeedbackEdge>, pair: (usize, usize)) -> bool {
    exists|i: int| 0 <= i < edges.len() && edge_joins(#[trigger] edges[i], pair)
}

/// Edges are ordered by source and then by target.
pub open spec fn edge_before(first: FeedbackEdge, second: FeedbackEdge) -> bool {
    let (a, b) = (first.parts(), second.parts());
    ||| a.0.position() < b.0.position()
    ||| a.0.position() == b.0.position() && a.1.position() < b.1.position()
}

spec fn increasing_positions(positions: Seq<usize>) -> bool {
    forall|i: int, j: int|
        #![trigger positions[i], positions[j]]
        0 <= i < j < positions.len() ==> positions[i] < positions[j]
}

/// Lists the keys of a positional map in ascending order.
fn list_keys<V>(map: &BTreeMap<usize, V>) -> (keys: Vec<usize>)
    ensures
        increasing_positions(keys@),
        keys@.to_set() == map@.dom(),
{
    let mut listed: Vec<usize> = Vec::new();
    for key in iter: map.keys()
        invariant
            listed@.len() == iter.index(),
            forall|i: int| 0 <= i < listed@.len() ==> listed@[i] == *iter.seq()[i],
            iter.seq().unref().to_set() == map@.dom(),
            iter.index() == iter.seq().len() ==> listed@ =~= iter.seq().unref(),
    {
        listed.push(*key);
    }
    let mut unordered: Vec<u64> = Vec::new();
    let mut index: usize = 0;
    while index < listed.len()
        invariant
            index <= listed@.len(),
            unordered@.len() == index,
            forall|i: int| 0 <= i < index ==> #[trigger] unordered@[i] == listed@[i],
        decreases listed@.len() - index,
    {
        unordered.push(listed[index] as u64);
        index = index + 1;
    }
    proof {
        assert forall|key: usize| #[trigger]
            map@.contains_key(key) <==> unordered@.contains(key as u64) by {
            if map@.contains_key(key) {
                assert(listed@.to_set().contains(key));
                let k = listed@.index_of(key);
                assert(unordered@[k] == key as u64);
            }
            if unordered@.contains(key as u64) {
                let k = unordered@.index_of(key as u64);
                assert(listed@[k] == key);
                assert(listed@.to_set().contains(key));
            }
        }
        assert forall|i: int| 0 <= i < unordered@.len() implies #[trigger] unordered@[i]
            <= usize::MAX by {
            assert(unordered@[i] == listed@[i]);
        }
    }
    let sorted: Vec<u64> = sort_distinct_numbers(unordered.as_slice());
    let mut keys: Vec<usize> = Vec::new();
    let mut place: usize = 0;
    while place < sorted.len()
        invariant
            place <= sorted@.len(),
            increasing(sorted@),
            keys@.len() == place,
            forall|value: u64| sorted@.contains(value) <==> unordered@.contains(value),
            forall|i: int| 0 <= i < unordered@.len() ==> #[trigger] unordered@[i] <= usize::MAX,
            forall|i: int| 0 <= i < place ==> #[trigger] keys@[i] == sorted@[i],
        decreases sorted@.len() - place,
    {
        assert(sorted@.contains(sorted@[place as int]));
        assert(sorted@[place as int] <= usize::MAX) by {
            let k = unordered@.index_of(sorted@[place as int]);
            assert(unordered@[k] <= usize::MAX);
        }
        keys.push(sorted[place] as usize);
        place = place + 1;
    }
    proof {
        assert forall|key: usize| keys@.to_set().contains(key) <==> map@.dom().contains(key) by {
            assert(map@.contains_key(key) <==> unordered@.contains(key as u64));
            if keys@.contains(key) {
                let k = keys@.index_of(key);
                assert(sorted@[k] == key as u64);
                assert(sorted@.contains(key as u64));
            }
            if sorted@.contains(key as u64) {
                let k = sorted@.index_of(key as u64);
                assert(keys@[k] == key);
            }
        }
        assert(keys@.to_set() =~= map@.dom());
    }
    keys
}

/// The entries list a row in ascending target order.
pub open spec fn lists_row(
    entries: Seq<(usize, FeedbackTrace)>,
    row: Map<usize, FeedbackTrace>,
) -> bool {
    &&& forall|i: int, j: int|
        #![trigger entries[i], entries[j]]
        0 <= i < j < entries.len() ==> entries[i].0 < entries[j].0
    &&& forall|i: int|
        0 <= i < entries.len() ==> row.contains_key((#[trigger] entries[i]).0)
            && row[entries[i].0] == entries[i].1
    &&& forall|target: usize| #[trigger]
        row.contains_key(target) ==> exists|i: int|
            0 <= i < entries.len() && (#[trigger] entries[i]).0 == target
}

/// Lists a row in ascending target order.
pub(crate) fn list_row(row: &BTreeMap<usize, FeedbackTrace>) -> (entries: Vec<
    (usize, FeedbackTrace),
>)
    ensures
        lists_row(entries@, row@),
{
    let keys: Vec<usize> = list_keys(row);
    let mut entries: Vec<(usize, FeedbackTrace)> = Vec::new();
    let mut place: usize = 0;
    while place < keys.len()
        invariant
            place <= keys@.len(),
            increasing_positions(keys@),
            keys@.to_set() == row@.dom(),
            entries@.len() == place,
            forall|i: int|
                0 <= i < place ==> (#[trigger] entries@[i]).0 == keys@[i] && row@.contains_key(
                    keys@[i],
                ) && row@[keys@[i]] == entries@[i].1,
        decreases keys@.len() - place,
    {
        let key: usize = keys[place];
        assert(keys@.to_set().contains(key));
        let trace: FeedbackTrace = *row.get(&key).unwrap();
        entries.push((key, trace));
        place = place + 1;
    }
    proof {
        assert forall|target: usize| #[trigger] row@.contains_key(target) implies exists|i: int|
            0 <= i < entries@.len() && (#[trigger] entries@[i]).0 == target by {
            assert(keys@.to_set().contains(target));
            let k = keys@.index_of(target);
            assert(entries@[k].0 == target);
        }
        assert forall|i: int, j: int|
            #![trigger entries@[i], entries@[j]]
            0 <= i < j < entries@.len() implies entries@[i].0 < entries@[j].0 by {
            assert(keys@[i] < keys@[j]);
        }
    }
    entries
}

} // verus!
