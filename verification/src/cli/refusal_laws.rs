//! Which arguments are accepted at all.

use vstd::prelude::*;
use vstd::string::*;

use crate::cli::args::{answers, many_options, request_in, sequences_in, Command};
use crate::cli::attributes::{no_flags, read_flags, AttributeText, FlagState};
use crate::cli::number::{i64_in_text, u64_in_text, usize_in_text};
use crate::cli::statements;
use crate::cli::statements::ActiveStatement;
use crate::text::pieces;

verus! {

/// Every listed part of a target list is a number, and it is the target at its place.
pub open spec fn are_numbers(parts: Seq<Seq<char>>, numbers: Seq<u64>) -> bool {
    &&& parts.len() == numbers.len()
    &&& forall|i: int|
        0 <= i < parts.len() ==> u64_in_text(#[trigger] parts[i]) == Some(numbers[i])
}

proof fn lemma_sequences(parts: Seq<Seq<char>>)
    ensures
        sequences_in(parts) matches Ok(numbers) ==> are_numbers(parts, numbers),
        sequences_in(parts) is Err ==> exists|i: int|
            0 <= i < parts.len() && u64_in_text(#[trigger] parts[i]) is None,
    decreases parts.len(),
{
    if parts.len() > 0 {
        let rest = parts.drop_last();
        lemma_sequences(rest);
        assert(parts[parts.len() - 1] == parts.last());
        if sequences_in(parts) is Ok {
            let before = sequences_in(rest)->Ok_0;
            let numbers = sequences_in(parts)->Ok_0;
            assert forall|i: int| 0 <= i < parts.len() implies u64_in_text(#[trigger] parts[i])
                == Some(numbers[i]) by {
                if i < rest.len() {
                    assert(rest[i] == parts[i]);
                    assert(u64_in_text(rest[i]) == Some(before[i]));
                }
            }
        } else if sequences_in(rest) is Err {
            let i = choose|i: int| 0 <= i < rest.len() && u64_in_text(#[trigger] rest[i]) is None;
            assert(parts[i] == rest[i]);
        } else {
            assert(u64_in_text(parts[parts.len() - 1]) is None);
        }
    }
}

/// A list with a part that is no number is refused, and any other is read.
pub proof fn law_target_lists_need_numbers(parts: Seq<Seq<char>>)
    ensures
        sequences_in(parts) is Ok <==> forall|i: int|
            0 <= i < parts.len() ==> u64_in_text(#[trigger] parts[i]) is Some,
{
    lemma_sequences(parts);
    if sequences_in(parts) is Ok {
        assert forall|i: int| 0 <= i < parts.len() implies u64_in_text(
            #[trigger] parts[i],
        ) is Some by {
            assert(u64_in_text(parts[i]) == Some(sequences_in(parts)->Ok_0[i]));
        }
    }
}

/// At most ten hits, or as many as `--limit` says.
pub open spec fn limits(tokens: Seq<Option<Seq<char>>>, limit: usize) -> bool {
    ||| tokens.len() == 4 && limit == 10
    ||| tokens.len() == 6 && tokens[4] == Some("--limit"@) && (tokens[5] matches Some(text)
        && usize_in_text(text) == Some(limit))
}

/// A command is carried out only for the arguments that ask for it: a store is
/// created or audited for one path, episodes are recalled for a query or a
/// source with a limit at most, and feedback is learned for a source, one
/// assessment and a list of targets.
pub proof fn law_commands_are_carried_out_only_as_asked(
    tokens: Seq<Option<Seq<char>>>,
    result: Result<Command, String>,
)
    requires
        answers(result, request_in(tokens)),
        result is Ok,
    ensures
        match result->Ok_0 {
            Command::Print(_) => tokens.len() == 1 || tokens.len() == 2 && (tokens[1] == Some(
                "-h"@,
            ) || tokens[1] == Some("--help"@)),
            Command::Init => tokens.len() == 2 && tokens[0] == Some("init"@),
            Command::Check => tokens.len() == 2 && tokens[0] == Some("check"@),
            Command::Add { draft, quiet } => tokens.len() >= 2 && tokens[0] == Some("add"@)
                && read_flags(no_flags(), tokens.skip(2), true) is Ok,
            Command::AddMany { quiet } => tokens.len() >= 3 && tokens[0] == Some("add"@)
                && tokens[2] == Some("--many"@) && many_options(tokens.skip(3)) == Ok::<
                bool,
                Seq<char>,
            >(quiet),
            Command::Recall { query, limit } => tokens[0] == Some("recall"@) && tokens[2] == Some(
                "--query"@,
            ) && tokens[3] == Some(query@) && limits(tokens, limit),
            Command::RecallFrom { source_sequence, limit } => tokens[0] == Some("recall"@)
                && tokens[2] == Some("--from"@) && (tokens[3] matches Some(text) && u64_in_text(
                text,
            ) == Some(source_sequence)) && limits(tokens, limit),
            Command::Feedback { source_sequence, target_sequences, helpful } => tokens.len() == 6
                && tokens[0] == Some("feedback"@) && tokens[2] == Some("--from"@) && (
            tokens[3] matches Some(text) && u64_in_text(text) == Some(source_sequence)) && (
            tokens[4] == Some("--helpful"@) || tokens[4] == Some("--unhelpful"@)) && (helpful
                <==> tokens[4] == Some("--helpful"@)) && (tokens[5] matches Some(text)
                && are_numbers(pieces(text, ','), target_sequences@)),
        },
{
    let rest = tokens.skip(1);
    assert(rest.len() == tokens.len() - 1);
    assert forall|i: int| 0 <= i < rest.len() implies #[trigger] rest[i] == tokens[i + 1] by {}
    if rest.len() > 0 {
        assert(rest.skip(1) =~= tokens.skip(2));
    }
    if rest.len() > 1 {
        assert(rest.skip(2) =~= tokens.skip(3));
    }
    if tokens.len() == 6 {
        if let Some(text) = tokens[5] {
            lemma_sequences(pieces(text, ','));
        }
    }
}

/// `--many` takes nothing but one `--quiet`.
pub proof fn law_many_takes_quiet_only(tokens: Seq<Option<Seq<char>>>)
    ensures
        many_options(tokens) is Ok <==> tokens.len() == 0 || tokens == seq![Some("--quiet"@)],
        many_options(tokens) matches Ok(quiet) ==> (quiet <==> tokens.len() == 1),
    decreases tokens.len(),
{
    if tokens.len() > 0 {
        let rest = tokens.drop_last();
        law_many_takes_quiet_only(rest);
        assert(tokens[tokens.len() - 1] == tokens.last());
        reveal_strlit("--quiet");
        reveal_strlit("--many");
        assert("--quiet"@[2] == 'q' && "--many"@[2] == 'm');
        if many_options(tokens) is Ok {
            assert(rest.len() == 0);
            assert(tokens =~= seq![Some("--quiet"@)]);
        }
        if tokens == seq![Some("--quiet"@)] {
            assert(rest.len() == 0);
            assert(tokens.last() == Some("--quiet"@));
        }
    }
}

/// Every attribute but the last has a value, and the last one too unless it is open.
spec fn tidy(state: FlagState) -> bool {
    &&& state.open ==> state.attributes.len() > 0
    &&& forall|i: int|
        0 <= i < state.attributes.len() && !(state.open && i == state.attributes.len() - 1) ==> (
        #[trigger] state.attributes[i]).1.len() > 0
}

proof fn lemma_accepted_attributes(
    state: FlagState,
    tokens: Seq<Option<Seq<char>>>,
    allow_quiet: bool,
)
    requires
        tidy(state),
        read_flags(state, tokens, allow_quiet) is Ok,
    ensures
        complete(read_flags(state, tokens, allow_quiet)->Ok_0.attributes),
        read_flags(state, tokens, allow_quiet)->Ok_0.quiet ==> state.quiet || allow_quiet,
    decreases tokens.len(),
{
    if tokens.len() > 0 {
        let option = tokens[0]->0;
        if option == "--quiet"@ {
            let after = FlagState { open: false, quiet: true, ..state };
            assert(tidy(after)) by {
                assert forall|i: int| 0 <= i < state.attributes.len() implies (
                #[trigger] state.attributes[i]).1.len() > 0 by {}
            }
            lemma_accepted_attributes(after, tokens.skip(1), allow_quiet);
        } else {
            let after = crate::cli::attributes::with_option(state, option, tokens[1])->Ok_0;
            assert(tidy(after)) by {
                assert forall|i: int|
                    0 <= i < after.attributes.len() && !(after.open && i == after.attributes.len()
                        - 1) implies (#[trigger] after.attributes[i]).1.len() > 0 by {
                    if i < state.attributes.len() {
                        assert(state.attributes[i] == state.attributes[i]);
                        if option == "--value"@ {
                            assert(i < state.attributes.len() - 1);
                            assert(after.attributes[i] == state.attributes[i]);
                        } else {
                            assert(after.attributes[i] == state.attributes[i]);
                        }
                    }
                }
            }
            lemma_accepted_attributes(after, tokens.skip(2), allow_quiet);
        }
    } else {
        assert forall|i: int| 0 <= i < state.attributes.len() implies (
        #[trigger] state.attributes[i]).1.len() > 0 by {
            if state.open && i == state.attributes.len() - 1 {
                assert(state.attributes.last() == state.attributes[i]);
            }
        }
    }
}

/// There is an attribute, and each one has a value.
pub open spec fn complete(attributes: Seq<AttributeText>) -> bool {
    &&& attributes.len() > 0
    &&& forall|i: int| 0 <= i < attributes.len() ==> (#[trigger] attributes[i]).1.len() > 0
}

/// Accepted options say an attribute at least, each with a value at least, and
/// are quiet only where that is allowed.
pub proof fn law_accepted_options_are_complete(
    tokens: Seq<Option<Seq<char>>>,
    allow_quiet: bool,
)
    ensures
        read_flags(no_flags(), tokens, allow_quiet) matches Ok(state) ==> complete(
            state.attributes,
        ) && (state.quiet ==> allow_quiet),
{
    if read_flags(no_flags(), tokens, allow_quiet) is Ok {
        lemma_accepted_attributes(no_flags(), tokens, allow_quiet);
    }
}

/// An option that is unknown, lacks its value, stands in the wrong place or
/// comes a second time is refused, whatever was read before it.
pub proof fn law_wrong_options_are_refused(
    state: FlagState,
    option: Seq<char>,
    value: Option<Seq<char>>,
    rest: Seq<Option<Seq<char>>>,
    allow_quiet: bool,
)
    ensures
        ({
            let pair = seq![Some(option), value] + rest;
            &&& option != "--quiet"@ && option != "--value"@ && option != "--timestamp"@ && option
                != "--attribute"@ ==> read_flags(state, pair, allow_quiet) is Err
            &&& option != "--quiet"@ ==> read_flags(state, seq![Some(option)], allow_quiet) is Err
            &&& option == "--value"@ && !state.open ==> read_flags(state, pair, allow_quiet) is Err
            &&& option == "--timestamp"@ && state.timestamp is Some ==> read_flags(
                state,
                pair,
                allow_quiet,
            ) is Err
            &&& option == "--timestamp"@ && (value is None || i64_in_text(value->0) is None)
                ==> read_flags(state, pair, allow_quiet) is Err
            &&& option == "--quiet"@ && (state.quiet || !allow_quiet) ==> read_flags(
                state,
                pair,
                allow_quiet,
            ) is Err
        }),
{
    reveal_strlit("--quiet");
    reveal_strlit("--value");
    reveal_strlit("--timestamp");
    reveal_strlit("--attribute");
    assert("--quiet"@[2] == 'q' && "--value"@[2] == 'v' && "--timestamp"@[2] == 't');
    assert("--attribute"@[2] == 'a');
    let pair = seq![Some(option), value] + rest;
    assert(pair[0] == Some(option) && pair[1] == value);
    let one = seq![Some(option)];
    assert(one[0] == Some(option) && one.len() == 1);
}

/// No statement but the active one lacks its terms.
spec fn settled_but_active(state: statements::FlagState) -> bool {
    &&& forall|i: int|
        0 <= i < state.context.len() && !(state.active == Some(ActiveStatement::Context) && i
            == state.context.len() - 1) ==> (#[trigger] state.context[i]).1.len() > 0
    &&& state.active == Some(ActiveStatement::Context) ==> state.context.len() > 0
    &&& state.predicate is Some && state.active != Some(ActiveStatement::Observation)
        ==> state.terms.len() > 0
    &&& state.active == Some(ActiveStatement::Observation) ==> state.predicate is Some
    &&& state.action is Some && state.active != Some(ActiveStatement::Action) ==> (
    state.action->0).1.len() > 0
    &&& state.active == Some(ActiveStatement::Action) ==> state.action is Some
    &&& state.outcome is Some && state.active != Some(ActiveStatement::Outcome) ==> (
    state.outcome->0).1.len() > 0
    &&& state.active == Some(ActiveStatement::Outcome) ==> state.outcome is Some
}

proof fn lemma_accepted_statements(state: statements::FlagState, tokens: Seq<Option<Seq<char>>>)
    requires
        settled_but_active(state),
        statements::read_flags(state, tokens) is Ok,
    ensures
        says_all(statements::read_flags(state, tokens)->Ok_0),
    decreases tokens.len(),
{
    if tokens.len() > 0 {
        let option = tokens[0]->0;
        let after = statements::with_option(state, option, tokens[1])->Ok_0;
        assert(settled_but_active(after)) by {
            assert forall|i: int|
                0 <= i < after.context.len() && !(after.active == Some(ActiveStatement::Context)
                    && i == after.context.len() - 1) implies (#[trigger] after.context[i]).1.len()
                > 0 by {
                if i < state.context.len() {
                    assert(state.context[i] == state.context[i]);
                    if state.active == Some(ActiveStatement::Context) && i == state.context.len()
                        - 1 {
                        assert(state.context.last() == state.context[i]);
                    }
                }
            }
        }
        lemma_accepted_statements(after, tokens.skip(2));
    } else {
        assert forall|i: int| 0 <= i < state.context.len() implies (
        #[trigger] state.context[i]).1.len() > 0 by {
            if state.active == Some(ActiveStatement::Context) && i == state.context.len() - 1 {
                assert(state.context.last() == state.context[i]);
            }
        }
    }
}

/// Both times, the source and the observation are there, and every statement
/// has a term.
pub open spec fn says_all(state: statements::FlagState) -> bool {
    &&& state.occurred is Some
    &&& state.recorded is Some
    &&& state.source is Some
    &&& state.predicate is Some
    &&& state.terms.len() > 0
    &&& forall|i: int| 0 <= i < state.context.len() ==> (#[trigger] state.context[i]).1.len() > 0
    &&& state.action matches Some(statement) ==> statement.1.len() > 0
    &&& state.outcome matches Some(statement) ==> statement.1.len() > 0
}

/// Accepted options of statements say both times, the source and an observation,
/// and a term of every statement.
pub proof fn law_accepted_statements_are_complete(tokens: Seq<Option<Seq<char>>>)
    ensures
        statements::read_flags(statements::no_flags(), tokens) matches Ok(state) ==> says_all(
            state,
        ),
{
    if statements::read_flags(statements::no_flags(), tokens) is Ok {
        lemma_accepted_statements(statements::no_flags(), tokens);
    }
}

} // verus!
