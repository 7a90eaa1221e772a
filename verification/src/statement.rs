//! Episodes made of positional statements in fixed roles.

use std::collections::BTreeSet;

use vstd::prelude::*;

use crate::episode::{list_cues, Cue, Episode};
use crate::model::{AtomId, ModelError, PredicateId, SourceId, TermId, TimestampMs};
use crate::order::{lexically_less_at, sort_distinct, strictly_ascending, words, Lexical, Relation};

verus! {

/// A predicate followed by its ordered arguments.
pub open spec fn statement_word(predicate: PredicateId, arguments: Seq<TermId>) -> Seq<int> {
    seq![predicate.0 as int] + arguments.map_values(|term: TermId| term.0 as int)
}

/// A symbolic predicate applied to one or more ordered arguments.
#[derive(Debug, PartialEq, Eq, PartialOrd, Ord, Hash)]
pub struct Statement {
    predicate: PredicateId,
    arguments: Vec<TermId>,
}

impl Statement {
    #[verifier::type_invariant]
    spec fn has_arguments(self) -> bool {
        self.arguments@.len() > 0
    }

    /// Constructs a statement, rejecting an empty argument list.
    pub fn new(predicate: PredicateId, arguments: Vec<TermId>) -> (result: Result<
        Statement,
        ModelError,
    >)
        ensures
            arguments@.len() == 0 ==> result == Err::<Statement, ModelError>(
                ModelError::EmptyArguments,
            ),
            arguments@.len() > 0 ==> result is Ok && result->Ok_0.word() == statement_word(
                predicate,
                arguments@,
            ),
    {
        if arguments.len() == 0 {
            return Err(ModelError::EmptyArguments);
        }
        Ok(Statement { predicate, arguments })
    }

    /// Returns the predicate identifier.
    pub fn predicate(&self) -> (predicate: PredicateId)
        ensures
            predicate.0 == self.word()[0],
            self.word().len() >= 2,
    {
        proof {
            use_type_invariant(self);
        }
        self.predicate
    }

    /// Returns the ordered argument identifiers.
    pub fn arguments(&self) -> (arguments: &[TermId])
        ensures
            arguments@.len() >= 1,
            self.word() == seq![self.word()[0]] + arguments@.map_values(
                |term: TermId| term.0 as int,
            ),
    {
        proof {
            use_type_invariant(self);
        }
        self.arguments.as_slice()
    }
}

impl Clone for Statement {
    fn clone(&self) -> (copy: Statement)
        ensures
            copy.word() == self.word(),
    {
        proof {
            use_type_invariant(self);
        }
        let arguments = self.arguments.clone();
        assert(arguments@ =~= self.arguments@);
        Statement { predicate: self.predicate, arguments }
    }
}

impl Lexical for Statement {
    closed spec fn word(&self) -> Seq<int> {
        statement_word(self.predicate, self.arguments@)
    }

    fn relation(&self, other: &Statement) -> (relation: Relation) {
        let ghost first = self.word();
        let ghost second = other.word();
        if self.predicate.0 != other.predicate.0 {
            if self.predicate.0 < other.predicate.0 {
                assert(lexically_less_at(first, second, 0));
                return Relation::Less;
            }
            assert(lexically_less_at(second, first, 0));
            return Relation::Greater;
        }
        let mut index: usize = 0;
        while index < self.arguments.len() && index < other.arguments.len()
            invariant
                first == self.word(),
                second == other.word(),
                index <= self.arguments@.len(),
                index <= other.arguments@.len(),
                forall|i: int| 0 <= i < index + 1 ==> first[i] == second[i],
            decreases self.arguments@.len() - index,
        {
            let mine: u64 = self.arguments[index].0;
            let theirs: u64 = other.arguments[index].0;
            if mine != theirs {
                if mine < theirs {
                    assert(lexically_less_at(first, second, index + 1));
                    return Relation::Less;
                }
                assert(lexically_less_at(second, first, index + 1));
                return Relation::Greater;
            }
            index = index + 1;
        }
        if self.arguments.len() == other.arguments.len() {
            assert(first =~= second);
            Relation::Equal
        } else if self.arguments.len() < other.arguments.len() {
            assert(lexically_less_at(first, second, index + 1));
            Relation::Less
        } else {
            assert(lexically_less_at(second, first, index + 1));
            Relation::Greater
        }
    }
}

/// The word of an optional statement.
pub open spec fn optional_word(statement: Option<Statement>) -> Option<Seq<int>> {
    match statement {
        Some(statement) => Some(statement.word()),
        None => None,
    }
}

/// Construction data for one episode atom.
#[derive(Clone, Debug, PartialEq, Eq)]
pub struct EpisodeDraft {
    /// Time at which the represented event occurred.
    pub occurred_at: TimestampMs,
    /// Time at which the event was recorded.
    pub recorded_at: TimestampMs,
    /// Context statements, sorted and deduplicated on insertion.
    pub context: Vec<Statement>,
    /// Observation recorded by the episode.
    pub observation: Statement,
    /// Action performed during the episode, if any.
    pub action: Option<Statement>,
    /// Observed outcome, if any.
    pub outcome: Option<Statement>,
    /// Caller-defined provenance source.
    pub source: SourceId,
}

/// What one statement episode says.
pub ghost struct EpisodeContent {
    /// Time at which the represented event occurred.
    pub occurred_at: TimestampMs,
    /// Time at which the event was recorded.
    pub recorded_at: TimestampMs,
    /// Context statements.
    pub context: Seq<Seq<int>>,
    /// Observation.
    pub observation: Seq<int>,
    /// Action, if any.
    pub action: Option<Seq<int>>,
    /// Outcome, if any.
    pub outcome: Option<Seq<int>>,
    /// Provenance source.
    pub source: SourceId,
}

impl EpisodeDraft {
    /// What the draft says, with its context as supplied.
    pub open spec fn content(&self) -> EpisodeContent {
        EpisodeContent {
            occurred_at: self.occurred_at,
            recorded_at: self.recorded_at,
            context: words(self.context@),
            observation: self.observation.word(),
            action: optional_word(self.action),
            outcome: optional_word(self.outcome),
            source: self.source,
        }
    }
}

/// `canonical` says what `supplied` says, with a sorted, duplicate-free context.
pub open spec fn canonical_content(supplied: EpisodeContent, canonical: EpisodeContent) -> bool {
    &&& strictly_ascending(canonical.context)
    &&& forall|word: Seq<int>|
        canonical.context.contains(word) <==> supplied.context.contains(word)
    &&& canonical.occurred_at == supplied.occurred_at
    &&& canonical.recorded_at == supplied.recorded_at
    &&& canonical.observation == supplied.observation
    &&& canonical.action == supplied.action
    &&& canonical.outcome == supplied.outcome
    &&& canonical.source == supplied.source
}

/// Canonical content is unique, and canonical content is its own canonical form.
pub proof fn law_canonical_content_is_unique(
    supplied: EpisodeContent,
    first: EpisodeContent,
    second: EpisodeContent,
)
    requires
        canonical_content(supplied, first),
        canonical_content(supplied, second),
    ensures
        first == second,
        canonical_content(first, first),
{
    crate::order::lemma_ascending_unique(first.context, second.context);
}

/// Role number of a context statement.
pub const CONTEXT_ROLE: u64 = 0;

/// Role number of the observation.
pub const OBSERVATION_ROLE: u64 = 1;

/// Role number of the action.
pub const ACTION_ROLE: u64 = 2;

/// Role number of the outcome.
pub const OUTCOME_ROLE: u64 = 3;

/// Cue kind of a predicate in any role.
pub const PREDICATE_CUE: u64 = 0;

/// Cue kind of a term in any role and place.
pub const TERM_CUE: u64 = 1;

/// Cue kind of a predicate in its role, counted twice.
pub const ROLE_PREDICATE_CUE: u64 = 2;

/// Cue kind of a term at its place under a predicate in its role, counted four times.
pub const ARGUMENT_CUE: u64 = 3;

/// The cue is one of the statement's predicate.
pub open spec fn predicate_gives(role: u64, word: Seq<int>, cue: Cue) -> bool {
    let predicate = word[0] as u64;
    ||| cue == (PREDICATE_CUE, predicate, 0u64, 0u64, 0u64)
    ||| cue == (ROLE_PREDICATE_CUE, (role * 2) as u64, predicate, 0u64, 0u64)
    ||| cue == (ROLE_PREDICATE_CUE, (role * 2 + 1) as u64, predicate, 0u64, 0u64)
}

/// The cue is one of the statement's argument at a place.
pub open spec fn argument_gives(role: u64, word: Seq<int>, place: int, cue: Cue) -> bool {
    let predicate = word[0] as u64;
    let term = word[place + 1] as u64;
    ||| cue == (TERM_CUE, term, 0u64, 0u64, 0u64)
    ||| cue == (ARGUMENT_CUE, (role * 4) as u64, predicate, place as u64, term)
    ||| cue == (ARGUMENT_CUE, (role * 4 + 1) as u64, predicate, place as u64, term)
    ||| cue == (ARGUMENT_CUE, (role * 4 + 2) as u64, predicate, place as u64, term)
    ||| cue == (ARGUMENT_CUE, (role * 4 + 3) as u64, predicate, place as u64, term)
}

/// The cue comes from the statement's predicate or from one of its first arguments.
pub open spec fn prefix_gives(role: u64, word: Seq<int>, places: int, cue: Cue) -> bool {
    ||| predicate_gives(role, word, cue)
    ||| exists|place: int| 0 <= place < places && argument_gives(role, word, place, cue)
}

/// The cues of one statement in a role.
pub open spec fn statement_cues(role: u64, word: Seq<int>) -> Set<Cue> {
    Set::new(|cue: Cue| prefix_gives(role, word, word.len() - 1, cue))
}

/// The cues of an optional statement in a role.
pub open spec fn optional_cues(role: u64, word: Option<Seq<int>>) -> Set<Cue> {
    match word {
        Some(word) => statement_cues(role, word),
        None => Set::empty(),
    }
}

/// The cues of context statements.
pub open spec fn context_cues(context: Seq<Seq<int>>) -> Set<Cue> {
    Set::new(
        |cue: Cue|
            exists|i: int|
                0 <= i < context.len() && #[trigger] statement_cues(
                    CONTEXT_ROLE,
                    context[i],
                ).contains(cue),
    )
}

impl EpisodeContent {
    /// The cues of every statement in its role.
    pub open spec fn cues(self) -> Set<Cue> {
        context_cues(self.context).union(
            statement_cues(OBSERVATION_ROLE, self.observation),
        ).union(optional_cues(ACTION_ROLE, self.action)).union(
            optional_cues(OUTCOME_ROLE, self.outcome),
        )
    }
}

fn insert_statement_cues(cues: &mut BTreeSet<Cue>, role: u64, statement: &Statement)
    requires
        role <= 3,
    ensures
        final(cues)@ == old(cues)@.union(statement_cues(role, statement.word())),
{
    let predicate: u64 = statement.predicate().0;
    let arguments = statement.arguments();
    let ghost word = statement.word();
    cues.insert((PREDICATE_CUE, predicate, 0, 0, 0));
    cues.insert((ROLE_PREDICATE_CUE, role * 2, predicate, 0, 0));
    cues.insert((ROLE_PREDICATE_CUE, role * 2 + 1, predicate, 0, 0));
    let mut place: usize = 0;
    assert forall|cue: Cue| #[trigger]
        cues@.contains(cue) <==> old(cues)@.contains(cue) || prefix_gives(role, word, 0, cue) by {}
    while place < arguments.len()
        invariant
            role <= 3,
            place <= arguments@.len(),
            predicate == word[0],
            word == seq![word[0]] + arguments@.map_values(|term: TermId| term.0 as int),
            forall|cue: Cue| #[trigger]
                cues@.contains(cue) <==> old(cues)@.contains(cue) || prefix_gives(
                    role,
                    word,
                    place as int,
                    cue,
                ),
        decreases arguments@.len() - place,
    {
        let term: u64 = arguments[place].0;
        let ghost before = cues@;
        assert(word[place + 1] == term);
        cues.insert((TERM_CUE, term, 0, 0, 0));
        cues.insert((ARGUMENT_CUE, role * 4, predicate, place as u64, term));
        cues.insert((ARGUMENT_CUE, role * 4 + 1, predicate, place as u64, term));
        cues.insert((ARGUMENT_CUE, role * 4 + 2, predicate, place as u64, term));
        cues.insert((ARGUMENT_CUE, role * 4 + 3, predicate, place as u64, term));
        assert forall|cue: Cue| #[trigger]
            cues@.contains(cue) <==> old(cues)@.contains(cue) || prefix_gives(
                role,
                word,
                place + 1,
                cue,
            ) by {
            assert(cues@.contains(cue) <==> before.contains(cue) || argument_gives(
                role,
                word,
                place as int,
                cue,
            ));
            if prefix_gives(role, word, place + 1, cue) && !predicate_gives(role, word, cue) {
                let at = choose|at: int|
                    0 <= at < place + 1 && argument_gives(role, word, at, cue);
                if at < place {
                    assert(prefix_gives(role, word, place as int, cue));
                }
            }
            if prefix_gives(role, word, place as int, cue) && !predicate_gives(role, word, cue) {
                let at = choose|at: int| 0 <= at < place && argument_gives(role, word, at, cue);
                assert(at < place + 1);
            }
        }
        place = place + 1;
    }
    assert(cues@ =~= old(cues)@.union(statement_cues(role, word)));
}

/// An immutable episode of statements.
#[derive(Clone, Debug, PartialEq, Eq)]
pub struct EpisodeAtom {
    id: AtomId,
    occurred_at: TimestampMs,
    recorded_at: TimestampMs,
    context: Vec<Statement>,
    observation: Statement,
    action: Option<Statement>,
    outcome: Option<Statement>,
    source: SourceId,
}

impl EpisodeAtom {
    /// What the episode says.
    pub closed spec fn content(&self) -> EpisodeContent {
        EpisodeContent {
            occurred_at: self.occurred_at,
            recorded_at: self.recorded_at,
            context: words(self.context@),
            observation: self.observation.word(),
            action: optional_word(self.action),
            outcome: optional_word(self.outcome),
            source: self.source,
        }
    }

    /// Returns the atom identifier.
    pub fn id(&self) -> (id: AtomId)
        ensures
            id == self.identifier(),
    {
        self.id
    }

    /// Returns when the represented event occurred.
    pub fn occurred_at(&self) -> (timestamp: TimestampMs)
        ensures
            timestamp == self.content().occurred_at,
    {
        self.occurred_at
    }

    /// Returns when the event was recorded.
    pub fn recorded_at(&self) -> (timestamp: TimestampMs)
        ensures
            timestamp == self.content().recorded_at,
    {
        self.recorded_at
    }

    /// Returns the sorted, duplicate-free context.
    pub fn context(&self) -> (context: &[Statement])
        ensures
            words(context@) == self.content().context,
    {
        self.context.as_slice()
    }

    /// Returns the required observation.
    pub fn observation(&self) -> (observation: &Statement)
        ensures
            observation.word() == self.content().observation,
    {
        &self.observation
    }

    /// Returns the optional action.
    pub fn action(&self) -> (action: Option<&Statement>)
        ensures
            action is Some <==> self.content().action is Some,
            action matches Some(action) ==> Some(action.word()) == self.content().action,
    {
        match &self.action {
            Some(action) => Some(action),
            None => None,
        }
    }

    /// Returns the optional outcome.
    pub fn outcome(&self) -> (outcome: Option<&Statement>)
        ensures
            outcome is Some <==> self.content().outcome is Some,
            outcome matches Some(outcome) ==> Some(outcome.word()) == self.content().outcome,
    {
        match &self.outcome {
            Some(outcome) => Some(outcome),
            None => None,
        }
    }

    /// Returns the provenance source.
    pub fn source(&self) -> (source: SourceId)
        ensures
            source == self.content().source,
    {
        self.source
    }
}

impl Episode for EpisodeAtom {
    type Draft = EpisodeDraft;

    closed spec fn identifier(&self) -> AtomId {
        self.id
    }

    open spec fn records(&self, draft: &EpisodeDraft) -> bool {
        canonical_content(draft.content(), self.content())
    }

    open spec fn cue_set(&self) -> Set<Cue> {
        self.content().cues()
    }

    fn from_draft(id: AtomId, draft: EpisodeDraft) -> (atom: EpisodeAtom) {
        let context = sort_distinct(draft.context);
        EpisodeAtom {
            id,
            occurred_at: draft.occurred_at,
            recorded_at: draft.recorded_at,
            context,
            observation: draft.observation,
            action: draft.action,
            outcome: draft.outcome,
            source: draft.source,
        }
    }

    fn identity(&self) -> (id: AtomId) {
        self.id
    }

    fn episode_cues(&self) -> (cues: Vec<Cue>) {
        let mut cues: BTreeSet<Cue> = BTreeSet::new();
        let mut index: usize = 0;
        let ghost context = words(self.context@);
        while index < self.context.len()
            invariant
                index <= self.context@.len(),
                context == words(self.context@),
                cues@ == context_cues(context.take(index as int)),
            decreases self.context@.len() - index,
        {
            let ghost before = cues@;
            insert_statement_cues(&mut cues, CONTEXT_ROLE, &self.context[index]);
            proof {
                let shorter = context.take(index as int);
                let longer = context.take(index + 1);
                assert forall|cue: Cue| context_cues(longer).contains(cue) <==> cues@.contains(
                    cue,
                ) by {
                    if context_cues(longer).contains(cue) {
                        let k = choose|k: int|
                            0 <= k < longer.len() && #[trigger] statement_cues(
                                CONTEXT_ROLE,
                                longer[k],
                            ).contains(cue);
                        if k < index {
                            assert(shorter[k] == longer[k]);
                            assert(context_cues(shorter).contains(cue));
                        }
                    }
                    if before.contains(cue) {
                        let k = choose|k: int|
                            0 <= k < shorter.len() && #[trigger] statement_cues(
                                CONTEXT_ROLE,
                                shorter[k],
                            ).contains(cue);
                        assert(statement_cues(CONTEXT_ROLE, longer[k]).contains(cue));
                    }
                    if statement_cues(CONTEXT_ROLE, context[index as int]).contains(cue) {
                        assert(longer[index as int] == context[index as int]);
                    }
                }
                assert(cues@ =~= context_cues(longer));
            }
            index = index + 1;
        }
        assert(context.take(context.len() as int) =~= context);
        insert_statement_cues(&mut cues, OBSERVATION_ROLE, &self.observation);
        match &self.action {
            Some(action) => {
                insert_statement_cues(&mut cues, ACTION_ROLE, action);
            },
            None => {},
        }
        match &self.outcome {
            Some(outcome) => {
                insert_statement_cues(&mut cues, OUTCOME_ROLE, outcome);
            },
            None => {},
        }
        assert(cues@ =~= self.cue_set());
        list_cues(&cues)
    }
}

} // verus!
