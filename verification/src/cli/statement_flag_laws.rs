//! Which statements the options of an episode say, and how their texts are listed.

use vstd::prelude::*;
use vstd::string::*;

use crate::cli::statements::{
    all_statements, draft_statements, drafts_words, holds_flags, no_flags, read_flags, shapes_draft,
    statement_texts, term_texts, ActiveStatement, DraftWords, EpisodeShape, FlagState,
    StatementText, TextEpisodeDraft,
};
use crate::order::{words, Lexical};
use crate::statement::EpisodeDraft;
use crate::text::{decimal, signed_decimal};
use crate::text_laws::{law_decimal_texts_are_read_back, law_signed_texts_are_read_back};

verus! {

/// The options of terms.
pub open spec fn term_flags(flag: Seq<char>, terms: Seq<Seq<char>>) -> Seq<Option<Seq<char>>>
    decreases terms.len(),
{
    if terms.len() == 0 {
        Seq::empty()
    } else {
        seq![Some(flag), Some(terms[0])] + term_flags(flag, terms.drop_first())
    }
}

/// The options of a statement: its predicate and then its terms.
pub open spec fn statement_flags(
    flag: Seq<char>,
    term_flag: Seq<char>,
    statement: StatementText,
) -> Seq<Option<Seq<char>>> {
    seq![Some(flag), Some(statement.0)] + term_flags(term_flag, statement.1)
}

/// The options of context statements.
pub open spec fn context_flags(context: Seq<StatementText>) -> Seq<Option<Seq<char>>>
    decreases context.len(),
{
    if context.len() == 0 {
        Seq::empty()
    } else {
        statement_flags("--context"@, "--context-term"@, context[0]) + context_flags(
            context.drop_first(),
        )
    }
}

/// The options of a statement that may be absent.
pub open spec fn optional_flags(
    flag: Seq<char>,
    term_flag: Seq<char>,
    statement: Option<StatementText>,
) -> Seq<Option<Seq<char>>> {
    match statement {
        Some(statement) => statement_flags(flag, term_flag, statement),
        None => Seq::empty(),
    }
}

/// The options of the two times and of the source.
pub open spec fn field_flags(occurred: i64, recorded: i64, source: u64) -> Seq<Option<Seq<char>>> {
    seq![
        Some("--occurred"@),
        Some(signed_decimal(occurred as int)),
        Some("--recorded"@),
        Some(signed_decimal(recorded as int)),
        Some("--source"@),
        Some(decimal(source as nat)),
    ]
}

proof fn lemma_options_differ()
    ensures
        "--occurred"@ != "--term"@,
        "--occurred"@ != "--context-term"@,
        "--occurred"@ != "--action-term"@,
        "--occurred"@ != "--outcome-term"@,
        "--recorded"@ != "--term"@,
        "--recorded"@ != "--context-term"@,
        "--recorded"@ != "--action-term"@,
        "--recorded"@ != "--outcome-term"@,
        "--recorded"@ != "--occurred"@,
        "--source"@ != "--term"@,
        "--source"@ != "--context-term"@,
        "--source"@ != "--action-term"@,
        "--source"@ != "--outcome-term"@,
        "--source"@ != "--occurred"@,
        "--source"@ != "--recorded"@,
{
    reveal_strlit("--term");
    reveal_strlit("--context-term");
    reveal_strlit("--action-term");
    reveal_strlit("--outcome-term");
    reveal_strlit("--occurred");
    reveal_strlit("--recorded");
    reveal_strlit("--source");
    assert("--term"@.len() == 6 && "--context-term"@.len() == 14 && "--action-term"@.len() == 13
        && "--outcome-term"@.len() == 14);
    assert("--occurred"@.len() == 10 && "--recorded"@.len() == 10 && "--source"@.len() == 8);
    assert("--occurred"@[2] == 'o' && "--recorded"@[2] == 'r');
}

proof fn lemma_statements_differ()
    ensures
        opens_statement("--predicate"@),
        opens_statement("--context"@),
        opens_statement("--action"@),
        opens_statement("--outcome"@),
        "--context"@ != "--predicate"@,
        "--action"@ != "--predicate"@,
        "--action"@ != "--context"@,
        "--outcome"@ != "--predicate"@,
        "--outcome"@ != "--context"@,
        "--outcome"@ != "--action"@,
{
    reveal_strlit("--term");
    reveal_strlit("--context-term");
    reveal_strlit("--action-term");
    reveal_strlit("--outcome-term");
    reveal_strlit("--occurred");
    reveal_strlit("--recorded");
    reveal_strlit("--source");
    reveal_strlit("--predicate");
    reveal_strlit("--context");
    reveal_strlit("--action");
    reveal_strlit("--outcome");
    assert("--term"@.len() == 6 && "--context-term"@.len() == 14 && "--action-term"@.len() == 13
        && "--outcome-term"@.len() == 14);
    assert("--occurred"@.len() == 10 && "--recorded"@.len() == 10 && "--source"@.len() == 8);
    assert("--predicate"@.len() == 11 && "--context"@.len() == 9 && "--action"@.len() == 8
        && "--outcome"@.len() == 9);
    assert("--source"@[2] == 's' && "--action"@[2] == 'a');
    assert("--context"@[2] == 'c' && "--outcome"@[2] == 'o');
}

/// The option is none of a term, and none of a time or the source.
spec fn opens_statement(option: Seq<char>) -> bool {
    &&& option != "--term"@
    &&& option != "--context-term"@
    &&& option != "--action-term"@
    &&& option != "--outcome-term"@
    &&& option != "--occurred"@
    &&& option != "--recorded"@
    &&& option != "--source"@
}

/// The option of a term in a role.
spec fn term_flag(active: ActiveStatement) -> Seq<char> {
    match active {
        ActiveStatement::Context => "--context-term"@,
        ActiveStatement::Observation => "--term"@,
        ActiveStatement::Action => "--action-term"@,
        ActiveStatement::Outcome => "--outcome-term"@,
    }
}

/// The options with more terms in the active statement.
spec fn with_terms(state: FlagState, active: ActiveStatement, terms: Seq<Seq<char>>) -> FlagState {
    match active {
        ActiveStatement::Context => FlagState {
            context: state.context.drop_last().push(
                (state.context.last().0, state.context.last().1 + terms),
            ),
            ..state
        },
        ActiveStatement::Observation => FlagState { terms: state.terms + terms, ..state },
        ActiveStatement::Action => FlagState {
            action: Some(((state.action->0).0, (state.action->0).1 + terms)),
            ..state
        },
        ActiveStatement::Outcome => FlagState {
            outcome: Some(((state.outcome->0).0, (state.outcome->0).1 + terms)),
            ..state
        },
    }
}

spec fn may_hold_terms(state: FlagState, active: ActiveStatement) -> bool {
    &&& state.active == Some(active)
    &&& active is Context ==> state.context.len() > 0
    &&& active is Action ==> state.action is Some
    &&& active is Outcome ==> state.outcome is Some
}

proof fn lemma_terms_are_read(
    state: FlagState,
    active: ActiveStatement,
    terms: Seq<Seq<char>>,
    rest: Seq<Option<Seq<char>>>,
)
    requires
        may_hold_terms(state, active),
    ensures
        read_flags(state, term_flags(term_flag(active), terms) + rest) == read_flags(
            with_terms(state, active, terms),
            rest,
        ),
    decreases terms.len(),
{
    let flag = term_flag(active);
    if terms.len() == 0 {
        assert(term_flags(flag, terms) + rest =~= rest);
        assert(state.terms + terms =~= state.terms);
        match active {
            ActiveStatement::Context => {
                let last = state.context.last();
                assert(last.1 + terms =~= last.1);
                assert(state.context.drop_last().push((last.0, last.1 + terms)) =~= state.context);
            },
            ActiveStatement::Observation => {},
            ActiveStatement::Action => {
                assert((state.action->0).1 + terms =~= (state.action->0).1);
            },
            ActiveStatement::Outcome => {
                assert((state.outcome->0).1 + terms =~= (state.outcome->0).1);
            },
        }
        assert(with_terms(state, active, terms) == state);
    } else {
        let tokens = term_flags(flag, terms) + rest;
        let others = terms.drop_first();
        let one = seq![terms[0]];
        let next = with_terms(state, active, one);
        assert(tokens[0] == Some(flag) && tokens[1] == Some(terms[0]));
        assert(tokens.skip(2) =~= term_flags(flag, others) + rest);
        assert(one + others =~= terms);
        match active {
            ActiveStatement::Context => {
                let last = state.context.last();
                assert(last.1 + one =~= last.1.push(terms[0]));
                assert(next.context.drop_last() =~= state.context.drop_last());
                assert((last.1 + one) + others =~= last.1 + terms);
            },
            ActiveStatement::Observation => {
                assert(state.terms + one =~= state.terms.push(terms[0]));
                assert((state.terms + one) + others =~= state.terms + terms);
            },
            ActiveStatement::Action => {
                let before = (state.action->0).1;
                assert(before + one =~= before.push(terms[0]));
                assert((before + one) + others =~= before + terms);
            },
            ActiveStatement::Outcome => {
                let before = (state.outcome->0).1;
                assert(before + one =~= before.push(terms[0]));
                assert((before + one) + others =~= before + terms);
            },
        }
        lemma_terms_are_read(next, active, others, rest);
        assert(with_terms(next, active, others) == with_terms(state, active, terms));
    }
}

/// No statement lacks its terms.
spec fn settled(state: FlagState) -> bool {
    match state.active {
        None => true,
        Some(active) => may_hold_terms(state, active) && match active {
            ActiveStatement::Context => state.context.last().1.len() > 0,
            ActiveStatement::Observation => state.terms.len() > 0,
            ActiveStatement::Action => (state.action->0).1.len() > 0,
            ActiveStatement::Outcome => (state.outcome->0).1.len() > 0,
        },
    }
}

spec fn context_active(state: FlagState, context: Seq<StatementText>) -> Option<ActiveStatement> {
    if context.len() > 0 {
        Some(ActiveStatement::Context)
    } else {
        state.active
    }
}

proof fn lemma_context_is_read(
    state: FlagState,
    context: Seq<StatementText>,
    rest: Seq<Option<Seq<char>>>,
)
    requires
        settled(state),
        forall|i: int| 0 <= i < context.len() ==> (#[trigger] context[i]).1.len() > 0,
    ensures
        ({
            let after = FlagState {
                context: state.context + context,
                active: context_active(state, context),
                ..state
            };
            &&& read_flags(state, context_flags(context) + rest) == read_flags(after, rest)
            &&& settled(after)
        }),
    decreases context.len(),
{
    if context.len() == 0 {
        assert(context_flags(context) + rest =~= rest);
        assert(state.context + context =~= state.context);
    } else {
        lemma_statements_differ();
        let first = context[0];
        let others = context.drop_first();
        let later = context_flags(others) + rest;
        let tokens = context_flags(context) + rest;
        let opened = FlagState {
            context: state.context.push((first.0, Seq::empty())),
            active: Some(ActiveStatement::Context),
            ..state
        };
        let filled = FlagState { context: state.context.push(first), ..opened };
        assert(tokens[0] == Some("--context"@) && tokens[1] == Some(first.0));
        assert(tokens.skip(2) =~= term_flags("--context-term"@, first.1) + later);
        lemma_terms_are_read(opened, ActiveStatement::Context, first.1, later);
        assert(opened.context.drop_last() =~= state.context);
        assert(Seq::<Seq<char>>::empty() + first.1 =~= first.1);
        assert(with_terms(opened, ActiveStatement::Context, first.1) == filled);
        assert(read_flags(state, tokens) == read_flags(filled, later));
        assert forall|i: int| 0 <= i < others.len() implies (#[trigger] others[i]).1.len() > 0 by {
            assert(others[i] == context[i + 1]);
        }
        lemma_context_is_read(filled, others, rest);
        assert(state.context.push(first) + others =~= state.context + context);
    }
}

proof fn lemma_fields_are_read(
    occurred: i64,
    recorded: i64,
    source: u64,
    rest: Seq<Option<Seq<char>>>,
)
    ensures
        read_flags(no_flags(), field_flags(occurred, recorded, source) + rest) == read_flags(
            (FlagState {
                occurred: Some(occurred),
                recorded: Some(recorded),
                source: Some(source),
                ..no_flags()
            }),
            rest,
        ),
{
    lemma_options_differ();
    law_signed_texts_are_read_back(occurred as int);
    law_signed_texts_are_read_back(recorded as int);
    law_decimal_texts_are_read_back(source as nat);
    let tokens = field_flags(occurred, recorded, source) + rest;
    let first = FlagState { occurred: Some(occurred), ..no_flags() };
    let second = FlagState { recorded: Some(recorded), ..first };
    let third = FlagState { source: Some(source), ..second };
    assert(tokens[0] == Some("--occurred"@) && tokens[1] == Some(signed_decimal(occurred as int)));
    let after_first = tokens.skip(2);
    assert(after_first[0] == Some("--recorded"@));
    assert(after_first[1] == Some(signed_decimal(recorded as int)));
    let after_second = after_first.skip(2);
    assert(after_second[0] == Some("--source"@));
    assert(after_second[1] == Some(decimal(source as nat)));
    assert(after_second.skip(2) =~= rest);
    assert(read_flags(no_flags(), tokens) == read_flags(first, after_first));
    assert(read_flags(first, after_first) == read_flags(second, after_second));
    assert(read_flags(second, after_second) == read_flags(third, rest));
}

proof fn lemma_observation_is_read(
    state: FlagState,
    observation: StatementText,
    rest: Seq<Option<Seq<char>>>,
)
    requires
        settled(state),
        state.predicate is None,
        state.terms.len() == 0,
    ensures
        read_flags(
            state,
            statement_flags("--predicate"@, "--term"@, observation) + rest,
        ) == read_flags(
            (FlagState {
                predicate: Some(observation.0),
                terms: observation.1,
                active: Some(ActiveStatement::Observation),
                ..state
            }),
            rest,
        ),
{
    lemma_statements_differ();
    let tokens = statement_flags("--predicate"@, "--term"@, observation) + rest;
    let opened = FlagState {
        predicate: Some(observation.0),
        active: Some(ActiveStatement::Observation),
        ..state
    };
    assert(tokens[0] == Some("--predicate"@) && tokens[1] == Some(observation.0));
    assert(tokens.skip(2) =~= term_flags("--term"@, observation.1) + rest);
    lemma_terms_are_read(opened, ActiveStatement::Observation, observation.1, rest);
    assert(state.terms + observation.1 =~= observation.1);
}

proof fn lemma_action_is_read(
    state: FlagState,
    action: Option<StatementText>,
    rest: Seq<Option<Seq<char>>>,
)
    requires
        settled(state),
        state.action is None,
        action matches Some(statement) ==> statement.1.len() > 0,
    ensures
        ({
            let active = if action is Some {
                Some(ActiveStatement::Action)
            } else {
                state.active
            };
            let after = FlagState { action, active, ..state };
            &&& read_flags(state, optional_flags("--action"@, "--action-term"@, action) + rest)
                == read_flags(after, rest)
            &&& settled(after)
        }),
{
    let tokens = optional_flags("--action"@, "--action-term"@, action) + rest;
    match action {
        Some(statement) => {
            lemma_statements_differ();
            let opened = FlagState {
                action: Some((statement.0, Seq::empty())),
                active: Some(ActiveStatement::Action),
                ..state
            };
            assert(tokens[0] == Some("--action"@) && tokens[1] == Some(statement.0));
            assert(tokens.skip(2) =~= term_flags("--action-term"@, statement.1) + rest);
            lemma_terms_are_read(opened, ActiveStatement::Action, statement.1, rest);
            assert(Seq::<Seq<char>>::empty() + statement.1 =~= statement.1);
        },
        None => {
            assert(tokens =~= rest);
        },
    }
}

proof fn lemma_outcome_is_read(
    state: FlagState,
    outcome: Option<StatementText>,
    rest: Seq<Option<Seq<char>>>,
)
    requires
        settled(state),
        state.outcome is None,
        outcome matches Some(statement) ==> statement.1.len() > 0,
    ensures
        ({
            let active = if outcome is Some {
                Some(ActiveStatement::Outcome)
            } else {
                state.active
            };
            let after = FlagState { outcome, active, ..state };
            &&& read_flags(state, optional_flags("--outcome"@, "--outcome-term"@, outcome) + rest)
                == read_flags(after, rest)
            &&& settled(after)
        }),
{
    let tokens = optional_flags("--outcome"@, "--outcome-term"@, outcome) + rest;
    match outcome {
        Some(statement) => {
            lemma_statements_differ();
            let opened = FlagState {
                outcome: Some((statement.0, Seq::empty())),
                active: Some(ActiveStatement::Outcome),
                ..state
            };
            assert(tokens[0] == Some("--outcome"@) && tokens[1] == Some(statement.0));
            assert(tokens.skip(2) =~= term_flags("--outcome-term"@, statement.1) + rest);
            lemma_terms_are_read(opened, ActiveStatement::Outcome, statement.1, rest);
            assert(Seq::<Seq<char>>::empty() + statement.1 =~= statement.1);
        },
        None => {
            assert(tokens =~= rest);
        },
    }
}

/// The options of an episode are read back: its times, its source, every context
/// statement in order, the observation, the action and the outcome, each with
/// its predicate and all of its terms in their order.
pub proof fn law_statement_options_are_read_back(
    occurred: i64,
    recorded: i64,
    source: u64,
    context: Seq<StatementText>,
    observation: StatementText,
    action: Option<StatementText>,
    outcome: Option<StatementText>,
)
    requires
        forall|i: int| 0 <= i < context.len() ==> (#[trigger] context[i]).1.len() > 0,
        observation.1.len() > 0,
        action matches Some(statement) ==> statement.1.len() > 0,
        outcome matches Some(statement) ==> statement.1.len() > 0,
    ensures
        ({
            let tokens = field_flags(occurred, recorded, source) + (context_flags(context) + (
            statement_flags("--predicate"@, "--term"@, observation) + (optional_flags(
                "--action"@,
                "--action-term"@,
                action,
            ) + optional_flags("--outcome"@, "--outcome-term"@, outcome))));
            read_flags(no_flags(), tokens) matches Ok(state) && state.occurred == Some(occurred)
                && state.recorded == Some(recorded) && state.source == Some(source)
                && state.predicate == Some(observation.0) && state.terms == observation.1
                && state.context == context && state.action == action && state.outcome == outcome
        }),
{
    let none = Seq::<Option<Seq<char>>>::empty();
    let ends = optional_flags("--outcome"@, "--outcome-term"@, outcome);
    let acts = optional_flags("--action"@, "--action-term"@, action) + ends;
    let observes = statement_flags("--predicate"@, "--term"@, observation) + acts;
    let rest = context_flags(context) + observes;
    lemma_fields_are_read(occurred, recorded, source, rest);
    let fields = FlagState {
        occurred: Some(occurred),
        recorded: Some(recorded),
        source: Some(source),
        ..no_flags()
    };
    lemma_context_is_read(fields, context, observes);
    assert(fields.context + context =~= context);
    let placed = FlagState { context, active: context_active(fields, context), ..fields };
    lemma_observation_is_read(placed, observation, acts);
    let observed = FlagState {
        predicate: Some(observation.0),
        terms: observation.1,
        active: Some(ActiveStatement::Observation),
        ..placed
    };
    lemma_action_is_read(observed, action, ends);
    let acted = FlagState {
        action,
        active: if action is Some {
            Some(ActiveStatement::Action)
        } else {
            observed.active
        },
        ..observed
    };
    lemma_outcome_is_read(acted, outcome, none);
    assert(ends + none =~= ends);
}

/// A draft that holds the options says the same: each field what was given for it.
pub proof fn law_drafts_hold_their_options(draft: TextEpisodeDraft, state: FlagState)
    requires
        holds_flags(draft, state),
    ensures
        state.occurred == Some(draft.occurred_at.0),
        state.recorded == Some(draft.recorded_at.0),
        state.source == Some(draft.source.0),
        state.predicate == Some(draft.observation.predicate@),
        state.terms == draft.observation@.1,
        state.context.len() == draft.context@.len(),
        forall|i: int|
            0 <= i < draft.context@.len() ==> state.context[i] == (#[trigger] draft.context@[i])@,
        state.action is Some <==> draft.action is Some,
        draft.action matches Some(statement) ==> state.action == Some(statement@),
        state.outcome is Some <==> draft.outcome is Some,
        draft.outcome matches Some(statement) ==> state.outcome == Some(statement@),
{
}

/// The texts of a statement are its predicate and its terms in their order.
pub proof fn law_statement_texts(statement: crate::cli::statements::TextStatement)
    ensures
        statement@.0 == statement.predicate@,
        statement@.1.len() == statement.terms@.len(),
        forall|i: int|
            0 <= i < statement.terms@.len() ==> statement@.1[i] == (#[trigger] statement.terms@[i])@,
{
}

/// The statements of drafts are listed draft by draft: first the context in its
/// order, then the observation, the action and the outcome.
pub proof fn law_statements_are_listed_in_order(drafts: Seq<TextEpisodeDraft>)
    ensures
        all_statements(drafts) == drafts.map_values(
            |draft: TextEpisodeDraft| draft_statements(draft),
        ).flatten(),
        forall|draft: TextEpisodeDraft| #[trigger]
            draft_statements(draft) == statement_texts(draft.context@) + seq![draft.observation@]
                + (match draft.action {
                Some(statement) => seq![statement@],
                None => Seq::empty(),
            }) + (match draft.outcome {
                Some(statement) => seq![statement@],
                None => Seq::empty(),
            }),
    decreases drafts.len(),
{
    let line = |draft: TextEpisodeDraft| draft_statements(draft);
    let lists = drafts.map_values(line);
    lists.lemma_flatten_and_flatten_alt_are_equivalent();
    if drafts.len() > 0 {
        law_statements_are_listed_in_order(drafts.drop_last());
        assert(drafts.drop_last().map_values(line) =~= lists.drop_last());
        lists.drop_last().lemma_flatten_and_flatten_alt_are_equivalent();
    }
    assert forall|draft: TextEpisodeDraft| #[trigger]
        draft_statements(draft) == statement_texts(draft.context@) + seq![draft.observation@] + (
        match draft.action {
            Some(statement) => seq![statement@],
            None => Seq::empty(),
        }) + (match draft.outcome {
            Some(statement) => seq![statement@],
            None => Seq::empty(),
        }) by {
        assert(statement_texts(draft.context@).push(draft.observation@) =~= statement_texts(
            draft.context@,
        ) + seq![draft.observation@]);
    }
}

/// The terms of statements are listed statement by statement.
pub proof fn law_terms_are_listed_in_order(statements: Seq<StatementText>)
    ensures
        term_texts(statements) == statements.map_values(
            |statement: StatementText| statement.1,
        ).flatten(),
    decreases statements.len(),
{
    let line = |statement: StatementText| statement.1;
    let lists = statements.map_values(line);
    lists.lemma_flatten_and_flatten_alt_are_equivalent();
    if statements.len() > 0 {
        law_terms_are_listed_in_order(statements.drop_last());
        assert(statements.drop_last().map_values(line) =~= lists.drop_last());
        lists.drop_last().lemma_flatten_and_flatten_alt_are_equivalent();
    }
}

/// A shape keeps the times, the source and the number of terms of each statement.
pub proof fn law_shapes_keep_their_drafts(shape: EpisodeShape, draft: TextEpisodeDraft)
    requires
        shapes_draft(shape, draft),
    ensures
        shape.occurred_at == draft.occurred_at,
        shape.recorded_at == draft.recorded_at,
        shape.source == draft.source,
        shape.context_term_counts@.len() == draft.context@.len(),
        forall|i: int|
            0 <= i < draft.context@.len() ==> shape.context_term_counts@[i] == (
            #[trigger] draft.context@[i]).terms@.len(),
        shape.observation_term_count == draft.observation.terms@.len(),
        shape.action_term_count is Some <==> draft.action is Some,
        draft.action matches Some(statement) ==> shape.action_term_count == Some(
            statement.terms@.len() as usize,
        ),
        shape.outcome_term_count is Some <==> draft.outcome is Some,
        draft.outcome matches Some(statement) ==> shape.outcome_term_count == Some(
            statement.terms@.len() as usize,
        ),
{
}

/// A resolved draft has the times and the source of its shape, and each of its
/// statements in its own role.
pub proof fn law_resolved_drafts_keep_their_roles(
    draft: EpisodeDraft,
    shape: EpisodeShape,
    found: DraftWords,
)
    requires
        drafts_words(draft, shape, found),
    ensures
        draft.occurred_at == shape.occurred_at,
        draft.recorded_at == shape.recorded_at,
        draft.source == shape.source,
        words(draft.context@) == found.context,
        draft.observation.word() == found.observation,
        draft.action is Some <==> found.action is Some,
        draft.action matches Some(statement) ==> found.action == Some(statement.word()),
        draft.outcome is Some <==> found.outcome is Some,
        draft.outcome matches Some(statement) ==> found.outcome == Some(statement.word()),
{
}

} // verus!
