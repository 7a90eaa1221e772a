//! What every kind of episode gives to a memory: identity, canonical content
//! and symbolic cues.

use std::collections::BTreeSet;

use vstd::prelude::*;

use crate::model::AtomId;

verus! {

/// One symbolic cue: its kind, followed by the symbols and places that it binds.
///
/// Cues of different kinds never coincide, whatever symbols they hold.
pub type Cue = (u64, u64, u64, u64, u64);

/// An immutable episode that a memory can store and compare.
pub trait Episode: Sized {
    /// Construction data of one episode.
    type Draft;

    /// The identifier under which the episode is stored.
    spec fn identifier(&self) -> AtomId;

    /// The stored content is the canonical form of the draft.
    spec fn records(&self, draft: &Self::Draft) -> bool;

    /// The symbolic cues of the episode.
    spec fn cue_set(&self) -> Set<Cue>;

    /// Canonicalizes a draft under an identifier.
    fn from_draft(id: AtomId, draft: Self::Draft) -> (atom: Self)
        ensures
            atom.identifier() == id,
            atom.records(&draft),
    ;

    /// Returns the identifier under which the episode is stored.
    fn identity(&self) -> (id: AtomId)
        ensures
            id == self.identifier(),
    ;

    /// Lists every cue of the episode once.
    fn episode_cues(&self) -> (cues: Vec<Cue>)
        ensures
            cues@.no_duplicates(),
            cues@.to_set() == self.cue_set(),
    ;
}

/// Lists the members of a cue set once.
pub(crate) fn list_cues(cues: &BTreeSet<Cue>) -> (list: Vec<Cue>)
    ensures
        list@.no_duplicates(),
        list@.to_set() == cues@,
{
    let mut list: Vec<Cue> = Vec::new();
    for cue in iter: cues.iter()
        invariant
            list@.len() == iter.index(),
            forall|i: int| 0 <= i < list@.len() ==> list@[i] == *iter.seq()[i],
            iter.seq().no_duplicates(),
            iter.seq().unref().to_set() == cues@,
            iter.index() == iter.seq().len() ==> list@ =~= iter.seq().unref(),
    {
        list.push(*cue);
    }
    list
}

} // verus!
