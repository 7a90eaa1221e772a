//! Extending a sidecar to the episodes that a memory appended.
//!
//! A synchronization reads the sidecar, asks the memory for the texts of the
//! symbols that new cues use, reads the sidecar again inside a write
//! transaction, and hands over the rows to write.

use vstd::prelude::*;

use crate::attribute::{numbers, EpisodeAtom};
use crate::memory::Memory;
use crate::model::SymbolId;
use crate::order::increasing;
use crate::semantic_index::cues::Pair;
use crate::semantic_index::error::{IndexError, IndexIntegrityError};
use crate::semantic_index::index::{
    all_known, cue_symbols, embeds, has_texts, holds_answers, index_in, index_reports,
    resolve_new_cue_symbols, unanswered, uses_symbol, CueValues, IndexRows, SemanticCueIndex,
    SyncObservation,
};
use crate::semantic_index::model::{CueEmbedder, EmbeddingProfile};
use crate::semantic_index::postings::{
    add_episodes, lists_new_cues, postings_of, NewCue, SyncPlan,
};
use crate::sqlite::format::{object_contents, SchemaObject};
use crate::sqlite::prepare::texts_by_id;

verus! {

/// A planned synchronization that still needs the texts of its symbols.
pub struct SyncStart {
    plan: SyncPlan,
    symbols: Vec<SymbolId>,
    covered: u64,
    episode_count: u64,
}

/// Some cue uses the symbol.
pub open spec fn some_cue_uses(cues: Seq<NewCue>, id: u64) -> bool {
    exists|i: int| 0 <= i < cues.len() && uses_symbol(#[trigger] cues[i], id)
}

impl SyncStart {
    /// Symbols are listed in ascending order, and they are those of the new cues.
    #[verifier::type_invariant]
    spec fn complete(self) -> bool {
        &&& increasing(numbers(self.symbols@))
        &&& forall|id: u64| #[trigger]
            numbers(self.symbols@).contains(id) <==> some_cue_uses(self.plan.new_cues@, id)
    }

    /// The pairs of every cue, the new ones last.
    pub closed spec fn pairs(&self) -> Seq<Pair> {
        self.plan.catalog@
    }

    /// The new cues.
    pub closed spec fn new_cues(&self) -> Seq<NewCue> {
        self.plan.new_cues@
    }

    /// The new postings.
    pub closed spec fn new_postings(&self) -> Seq<(u64, u64)> {
        self.plan.postings@
    }

    /// The identifiers whose texts are needed.
    pub closed spec fn needed(&self) -> Seq<u64> {
        numbers(self.symbols@)
    }

    /// The number of episodes that the sidecar covers, and that it will cover.
    pub closed spec fn coverage(&self) -> (u64, u64) {
        (self.covered, self.episode_count)
    }

    /// Lists the symbols whose texts are needed, in ascending order.
    pub fn symbols(&self) -> (symbols: &[SymbolId])
        ensures
            numbers(symbols@) == self.needed(),
            increasing(self.needed()),
    {
        proof {
            use_type_invariant(self);
        }
        self.symbols.as_slice()
    }
}

/// What a synchronization writes in one transaction.
pub struct SyncWrite {
    /// Rows of the new cues.
    pub cues: Vec<CueValues>,
    /// New postings in the order of sequences and cues.
    pub postings: Vec<(u64, u64)>,
    /// Number of episodes that the sidecar covers before the write.
    pub covered: u64,
    /// Number of episodes that it covers afterwards.
    pub episode_count: u64,
    /// Number of cues that it holds afterwards.
    pub cue_count: u64,
}

/// The plan extends a sidecar with the given cues and counts over the episodes.
pub open spec fn extends_index(
    start: SyncStart,
    pairs: Seq<Pair>,
    counts: (u64, u64, u64),
    atoms: Seq<EpisodeAtom>,
) -> bool {
    let later = atoms.skip(counts.0 as int);
    &&& start.pairs() == add_episodes(pairs, later)
    &&& lists_new_cues(start.new_cues(), start.pairs(), pairs.len())
    &&& start.new_postings() == postings_of(later, start.pairs())
    &&& start.coverage() == (counts.0, atoms.len() as u64)
    &&& increasing(start.needed())
    &&& forall|id: u64| #[trigger]
        start.needed().contains(id) <==> some_cue_uses(start.new_cues(), id)
}

/// Every listed identifier has a text.
proof fn lemma_listed_texts(ids: Seq<u64>, texts: Seq<Seq<char>>, id: u64)
    requires
        ids.contains(id),
    ensures
        texts_by_id(ids, texts).contains_key(id),
    decreases ids.len(),
{
    if ids.last() != id {
        let place = ids.index_of(id);
        assert(ids.drop_last()[place] == id);
        lemma_listed_texts(ids.drop_last(), texts, id);
    }
}

impl SemanticCueIndex {
    /// Validates the sidecar and plans the rows of the episodes that it does
    /// not cover; `None` if it covers all of them.
    pub fn begin_synchronization(
        &self,
        rows: &IndexRows,
        memory: &Memory<EpisodeAtom>,
        profile: EmbeddingProfile,
        canonical: &[SchemaObject],
    ) -> (result: Result<Option<SyncStart>, IndexError>)
        requires
            memory.wf(),
        ensures
            if profile@ != self.made_for()@ {
                result == Err::<Option<SyncStart>, IndexError>(
                    IndexError::ProfileMismatch { expected: self.made_for(), found: profile },
                )
            } else {
                match (
                    index_in(
                        *rows,
                        memory.atoms(),
                        memory.identifier()@,
                        self.made_for(),
                        object_contents(canonical@),
                    ),
                    result,
                ) {
                    (Err(fault), Err(error)) => index_reports(error, fault),
                    (Ok((pairs, counts)), Err(error)) => counts != self.counts() && error == (
                    IndexError::ConcurrentModification {
                        expected_episode_count: self.counts().0,
                        actual_episode_count: counts.0,
                    }),
                    (Ok((pairs, counts)), Ok(start)) => {
                        &&& counts == self.counts()
                        &&& match start {
                            None => counts.0 == memory.atoms().len(),
                            Some(start) => counts.0 < memory.atoms().len() && extends_index(
                                start,
                                pairs,
                                counts,
                                memory.atoms(),
                            ),
                        }
                    },
                    _ => false,
                }
            },
    {
        match self.verify_embedder(profile) {
            Ok(_) => {},
            Err(error) => {
                return Err(error);
            },
        }
        let validated = match self.validate_store(rows, memory, canonical) {
            Ok(validated) => validated,
            Err(error) => {
                return Err(error);
            },
        };
        let covered: u64 = validated.stats.indexed_episode_count();
        let episode_count: usize = memory.episodes().len();
        match self.plan_synchronization(validated, memory) {
            None => Ok(None),
            Some(plan) => {
                let symbols = cue_symbols(plan.new_cues.as_slice());
                let start = SyncStart {
                    plan,
                    symbols,
                    covered,
                    episode_count: episode_count as u64,
                };
                Ok(Some(start))
            },
        }
    }

    /// Embeds the new cues and hands over the rows to write.
    ///
    /// `values` are the texts of the symbols that [`SyncStart::symbols`] lists,
    /// and `seen` is what the sidecar holds inside the write transaction.
    pub fn complete_synchronization<E: CueEmbedder>(
        &self,
        start: SyncStart,
        values: Vec<Option<String>>,
        seen: &SyncObservation,
        canonical: &[SchemaObject],
        embedder: &mut E,
    ) -> (result: Result<SyncWrite, IndexError>)
        requires
            values@.len() == start.needed().len(),
        ensures
            ({
                let texts = texts_by_id(
                    start.needed(),
                    Seq::new(values@.len(), |i: int| values@[i]->0@),
                );
                let change = self.change_error(
                    *seen,
                    object_contents(canonical@),
                    start.coverage().0,
                );
                let cues = start.new_cues();
                match result {
                    Ok(write) => {
                        &&& all_known(values@)
                        &&& change is None
                        &&& write.cues@.len() == cues.len()
                        &&& forall|i: int|
                            0 <= i < cues.len() ==> embeds(
                                #[trigger] write.cues@[i],
                                cues[i],
                                self.made_for()@.1,
                            ) && has_texts(cues[i], texts)
                        &&& holds_answers::<E>(write.cues@, cues, texts, cues.len() as int)
                        &&& write.postings@ == start.new_postings()
                        &&& (write.covered, write.episode_count) == start.coverage()
                        &&& write.cue_count == start.pairs().len()
                    },
                    Err(error) => if !all_known(values@) {
                        error == IndexError::InvalidIndex(
                            IndexIntegrityError::InvalidCue {
                                cue_id: 0,
                                detail: "planned cue refers to an absent symbol",
                            },
                        )
                    } else if change is Some {
                        index_reports(error, change->0)
                    } else {
                        cues.len() > 0 && unanswered(error, cues, self.made_for())
                    },
                }
            }),
    {
        proof {
            use_type_invariant(&start);
        }
        let ghost given = Seq::new(values@.len(), |i: int| values@[i]->0@);
        let SyncStart { plan, symbols, covered, episode_count } = start;
        let resolved = match resolve_new_cue_symbols(symbols, values) {
            Ok(resolved) => resolved,
            Err(error) => {
                return Err(error);
            },
        };
        match self.verify_unchanged(seen, canonical, covered) {
            Ok(_) => {},
            Err(error) => {
                return Err(error);
            },
        }
        proof {
            let needed = start.needed();
            assert forall|i: int| 0 <= i < plan.new_cues@.len() implies has_texts(
                #[trigger] plan.new_cues@[i],
                resolved.by_id(),
            ) by {
                let cue = plan.new_cues@[i];
                assert(uses_symbol(cue, cue.key_id) && uses_symbol(cue, cue.value_id));
                assert(needed.contains(cue.key_id) && needed.contains(cue.value_id));
                lemma_listed_texts(needed, given, cue.key_id);
                lemma_listed_texts(needed, given, cue.value_id);
            }
        }
        let cues = match self.embed_cues(plan.new_cues.as_slice(), &resolved, embedder) {
            Ok(cues) => cues,
            Err(error) => {
                return Err(error);
            },
        };
        let cue_count: usize = plan.catalog.len();
        Ok(
            SyncWrite {
                cues,
                postings: plan.postings,
                covered,
                episode_count,
                cue_count: cue_count as u64,
            },
        )
    }
}

} // verus!
