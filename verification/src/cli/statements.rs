//! Statement episodes of the command line: flags, symbols and drafts.

use vstd::prelude::*;
use vstd::string::*;

use crate::cli::number::{
    i64_in, message3, outcome, parse_i64_token, parse_u64_token, text_in, token_str, token_text,
    token_texts, u64_of, Token,
};
use crate::model::{ModelError, PredicateId, SourceId, TermId, TimestampMs};
use crate::order::{words, Lexical};
use crate::statement::{optional_word, statement_word, EpisodeDraft, Statement};
use crate::text::same_text;
use crate::text_table::contents;

verus! {

/// One statement by its texts.
#[derive(Clone, Debug, PartialEq, Eq)]
pub struct TextStatement {
    /// Predicate text.
    pub predicate: String,
    /// Term texts in order.
    pub terms: Vec<String>,
}

/// The predicate and the terms of a statement.
pub type StatementText = (Seq<char>, Seq<Seq<char>>);

impl View for TextStatement {
    type V = StatementText;

    open spec fn view(&self) -> StatementText {
        (self.predicate@, contents(self.terms@))
    }
}

/// The texts of statements.
pub open spec fn statement_texts(statements: Seq<TextStatement>) -> Seq<StatementText> {
    statements.map_values(|statement: TextStatement| statement@)
}

/// The texts of a statement that may be absent.
pub open spec fn optional_texts(statement: Option<TextStatement>) -> Option<StatementText> {
    match statement {
        Some(statement) => Some(statement@),
        None => None,
    }
}

/// One episode by its texts.
#[derive(Clone, Debug, PartialEq, Eq)]
pub struct TextEpisodeDraft {
    /// Time at which the represented event occurred.
    pub occurred_at: TimestampMs,
    /// Time at which the event was recorded.
    pub recorded_at: TimestampMs,
    /// Context statements in input order.
    pub context: Vec<TextStatement>,
    /// Observation.
    pub observation: TextStatement,
    /// Action, if any.
    pub action: Option<TextStatement>,
    /// Outcome, if any.
    pub outcome: Option<TextStatement>,
    /// Provenance source.
    pub source: SourceId,
}

/// The statement whose terms follow.
#[derive(Clone, Copy, Debug, PartialEq, Eq, Structural)]
pub enum ActiveStatement {
    /// The last context statement.
    Context,
    /// The observation.
    Observation,
    /// The action.
    Action,
    /// The outcome.
    Outcome,
}

impl ActiveStatement {
    /// The option of a term.
    pub open spec fn option_text(self) -> Seq<char> {
        match self {
            ActiveStatement::Context => "--context-term"@,
            ActiveStatement::Observation => "--term"@,
            ActiveStatement::Action => "--action-term"@,
            ActiveStatement::Outcome => "--outcome-term"@,
        }
    }

    /// The name of the role.
    pub open spec fn role_text(self) -> Seq<char> {
        match self {
            ActiveStatement::Context => "context"@,
            ActiveStatement::Observation => "observation"@,
            ActiveStatement::Action => "action"@,
            ActiveStatement::Outcome => "outcome"@,
        }
    }

    /// Returns the option of a term.
    pub fn term_option(self) -> (option: &'static str)
        ensures
            option@ == self.option_text(),
    {
        match self {
            ActiveStatement::Context => "--context-term",
            ActiveStatement::Observation => "--term",
            ActiveStatement::Action => "--action-term",
            ActiveStatement::Outcome => "--outcome-term",
        }
    }

    /// Returns the name of the role.
    pub fn description(self) -> (description: &'static str)
        ensures
            description@ == self.role_text(),
    {
        match self {
            ActiveStatement::Context => "context",
            ActiveStatement::Observation => "observation",
            ActiveStatement::Action => "action",
            ActiveStatement::Outcome => "outcome",
        }
    }
}

/// What the flags of an episode said so far.
pub ghost struct FlagState {
    /// Time at which the represented event occurred.
    pub occurred: Option<i64>,
    /// Time at which the event was recorded.
    pub recorded: Option<i64>,
    /// Provenance source.
    pub source: Option<u64>,
    /// Predicate of the observation.
    pub predicate: Option<Seq<char>>,
    /// Terms of the observation.
    pub terms: Seq<Seq<char>>,
    /// Context statements.
    pub context: Seq<StatementText>,
    /// Action.
    pub action: Option<StatementText>,
    /// Outcome.
    pub outcome: Option<StatementText>,
    /// The statement whose terms follow.
    pub active: Option<ActiveStatement>,
}

/// Nothing was said.
pub open spec fn no_flags() -> FlagState {
    FlagState {
        occurred: None,
        recorded: None,
        source: None,
        predicate: None,
        terms: Seq::empty(),
        context: Seq::empty(),
        action: None,
        outcome: None,
        active: None,
    }
}

/// The terms of a role.
pub open spec fn terms_of(state: FlagState, active: ActiveStatement) -> Seq<Seq<char>> {
    match active {
        ActiveStatement::Context => state.context.last().1,
        ActiveStatement::Observation => state.terms,
        ActiveStatement::Action => (state.action->0).1,
        ActiveStatement::Outcome => (state.outcome->0).1,
    }
}

/// The state with one more term of a role.
pub open spec fn with_term(state: FlagState, active: ActiveStatement, term: Seq<char>) -> FlagState {
    match active {
        ActiveStatement::Context => FlagState {
            context: state.context.drop_last().push(
                (state.context.last().0, state.context.last().1.push(term)),
            ),
            ..state
        },
        ActiveStatement::Observation => FlagState { terms: state.terms.push(term), ..state },
        ActiveStatement::Action => FlagState {
            action: Some(((state.action->0).0, (state.action->0).1.push(term))),
            ..state
        },
        ActiveStatement::Outcome => FlagState {
            outcome: Some(((state.outcome->0).0, (state.outcome->0).1.push(term))),
            ..state
        },
    }
}

/// The option gives a term.
pub open spec fn is_term_option(option: Seq<char>) -> bool {
    option == "--term"@ || option == "--context-term"@ || option == "--action-term"@ || option
        == "--outcome-term"@
}

/// What is wrong with a statement that has no term.
pub open spec fn lacks_terms(active: ActiveStatement) -> Seq<char> {
    active.role_text() + " requires at least one `"@ + active.option_text() + "` value"@
}

/// What is wrong with a repeated option.
pub open spec fn repeated(option: Seq<char>) -> Seq<char> {
    "`"@ + option + "` may be specified only once"@
}

/// The state after a term option.
pub open spec fn with_term_option(
    state: FlagState,
    option: Seq<char>,
    value: Option<Seq<char>>,
) -> Result<FlagState, Seq<char>> {
    match state.active {
        None => Err("`"@ + option + "` must immediately follow its statement and terms"@),
        Some(active) => if option != active.option_text() {
            Err(
                "`"@ + option + "` cannot be used in an active "@ + active.role_text()
                    + " statement; expected `"@ + active.option_text() + "`"@,
            )
        } else {
            match text_in(value, active.role_text() + " term"@) {
                Err(message) => Err(message),
                Ok(text) => Ok(with_term(state, active, text)),
            }
        },
    }
}

/// The state after an option that ends the statement before it.
pub open spec fn with_field(state: FlagState, option: Seq<char>, value: Option<Seq<char>>) -> Result<
    FlagState,
    Seq<char>,
> {
    let closed = FlagState { active: None, ..state };
    if option == "--occurred"@ {
        match i64_in(value, "occurred timestamp"@) {
            Err(message) => Err(message),
            Ok(number) => if state.occurred is Some {
                Err(repeated(option))
            } else {
                Ok(FlagState { occurred: Some(number), ..closed })
            },
        }
    } else if option == "--recorded"@ {
        match i64_in(value, "recorded timestamp"@) {
            Err(message) => Err(message),
            Ok(number) => if state.recorded is Some {
                Err(repeated(option))
            } else {
                Ok(FlagState { recorded: Some(number), ..closed })
            },
        }
    } else if option == "--source"@ {
        match u64_of(value, "source ID"@) {
            Err(message) => Err(message),
            Ok(number) => if state.source is Some {
                Err(repeated(option))
            } else {
                Ok(FlagState { source: Some(number), ..closed })
            },
        }
    } else {
        with_statement(state, option, value)
    }
}

/// The state after an option that starts a statement.
pub open spec fn with_statement(
    state: FlagState,
    option: Seq<char>,
    value: Option<Seq<char>>,
) -> Result<FlagState, Seq<char>> {
    if option == "--predicate"@ {
        match text_in(value, "predicate"@) {
            Err(message) => Err(message),
            Ok(text) => if state.predicate is Some {
                Err(repeated(option))
            } else {
                Ok(
                    FlagState {
                        predicate: Some(text),
                        active: Some(ActiveStatement::Observation),
                        ..state
                    },
                )
            },
        }
    } else if option == "--context"@ {
        match text_in(value, "context predicate"@) {
            Err(message) => Err(message),
            Ok(text) => Ok(
                FlagState {
                    context: state.context.push((text, Seq::empty())),
                    active: Some(ActiveStatement::Context),
                    ..state
                },
            ),
        }
    } else if option == "--action"@ {
        match text_in(value, "action predicate"@) {
            Err(message) => Err(message),
            Ok(text) => if state.action is Some {
                Err(repeated(option))
            } else {
                Ok(
                    FlagState {
                        action: Some((text, Seq::empty())),
                        active: Some(ActiveStatement::Action),
                        ..state
                    },
                )
            },
        }
    } else if option == "--outcome"@ {
        match text_in(value, "outcome predicate"@) {
            Err(message) => Err(message),
            Ok(text) => if state.outcome is Some {
                Err(repeated(option))
            } else {
                Ok(
                    FlagState {
                        outcome: Some((text, Seq::empty())),
                        active: Some(ActiveStatement::Outcome),
                        ..state
                    },
                )
            },
        }
    } else {
        Err("unknown episode option `"@ + option + "`"@)
    }
}

/// The state after an option with its value.
pub open spec fn with_option(state: FlagState, option: Seq<char>, value: Option<Seq<char>>) -> Result<
    FlagState,
    Seq<char>,
> {
    if is_term_option(option) {
        with_term_option(state, option, value)
    } else {
        match state.active {
            Some(active) => if terms_of(state, active).len() == 0 {
                Err(lacks_terms(active))
            } else {
                with_field(state, option, value)
            },
            None => with_field(state, option, value),
        }
    }
}

/// What the flags of an episode say behind a state, or what is wrong with them.
pub open spec fn read_flags(state: FlagState, tokens: Seq<Option<Seq<char>>>) -> Result<
    FlagState,
    Seq<char>,
>
    decreases tokens.len(),
{
    if tokens.len() == 0 {
        finished(state)
    } else {
        match tokens[0] {
            None => Err("episode options must be valid UTF-8"@),
            Some(option) => if tokens.len() < 2 {
                Err("`"@ + option + "` requires a value"@)
            } else {
                match with_option(state, option, tokens[1]) {
                    Err(message) => Err(message),
                    Ok(after) => read_flags(after, tokens.skip(2)),
                }
            },
        }
    }
}

/// The state of a complete episode, or what it lacks.
pub open spec fn finished(state: FlagState) -> Result<FlagState, Seq<char>> {
    if state.active is Some && terms_of(state, state.active->0).len() == 0 {
        Err(lacks_terms(state.active->0))
    } else if state.occurred is None {
        Err("episode requires `--occurred`"@)
    } else if state.recorded is None {
        Err("episode requires `--recorded`"@)
    } else if state.source is None {
        Err("episode requires `--source`"@)
    } else if state.predicate is None {
        Err("episode requires `--predicate`"@)
    } else {
        Ok(state)
    }
}

struct Flags {
    occurred_at: Option<TimestampMs>,
    recorded_at: Option<TimestampMs>,
    source: Option<SourceId>,
    predicate: Option<String>,
    terms: Vec<String>,
    context: Vec<TextStatement>,
    action: Option<TextStatement>,
    outcome: Option<TextStatement>,
    active: Option<ActiveStatement>,
}

spec fn number_of(timestamp: Option<TimestampMs>) -> Option<i64> {
    match timestamp {
        Some(timestamp) => Some(timestamp.0),
        None => None,
    }
}

spec fn source_number(source: Option<SourceId>) -> Option<u64> {
    match source {
        Some(source) => Some(source.0),
        None => None,
    }
}

impl Flags {
    spec fn state(&self) -> FlagState {
        FlagState {
            occurred: number_of(self.occurred_at),
            recorded: number_of(self.recorded_at),
            source: source_number(self.source),
            predicate: token_text(self.predicate),
            terms: contents(self.terms@),
            context: statement_texts(self.context@),
            action: optional_texts(self.action),
            outcome: optional_texts(self.outcome),
            active: self.active,
        }
    }

    spec fn wf(&self) -> bool {
        &&& self.active == Some(ActiveStatement::Context) ==> self.context@.len() > 0
        &&& self.active == Some(ActiveStatement::Action) ==> self.action is Some
        &&& self.active == Some(ActiveStatement::Outcome) ==> self.outcome is Some
    }

    fn new() -> (flags: Flags)
        ensures
            flags.wf(),
            flags.state() == no_flags(),
    {
        let flags = Flags {
            occurred_at: None,
            recorded_at: None,
            source: None,
            predicate: None,
            terms: Vec::new(),
            context: Vec::new(),
            action: None,
            outcome: None,
            active: None,
        };
        proof {
            assert(contents(flags.terms@) =~= Seq::empty());
            assert(statement_texts(flags.context@) =~= Seq::empty());
        }
        flags
    }

    fn term_count(&self, active: ActiveStatement) -> (count: usize)
        requires
            self.wf(),
            self.active == Some(active),
        ensures
            count == terms_of(self.state(), active).len(),
    {
        match active {
            ActiveStatement::Context => {
                let last = &self.context[self.context.len() - 1];
                assert(statement_texts(self.context@).last() == last@);
                assert(last@.1.len() == last.terms@.len());
                last.terms.len()
            },
            ActiveStatement::Observation => {
                assert(contents(self.terms@).len() == self.terms@.len());
                self.terms.len()
            },
            ActiveStatement::Action => match &self.action {
                Some(action) => {
                    assert(action@.1.len() == action.terms@.len());
                    action.terms.len()
                },
                None => 0,
            },
            ActiveStatement::Outcome => match &self.outcome {
                Some(outcome) => {
                    assert(outcome@.1.len() == outcome.terms@.len());
                    outcome.terms.len()
                },
                None => 0,
            },
        }
    }

    fn push_term(&mut self, active: ActiveStatement, text: String)
        requires
            old(self).wf(),
            old(self).active == Some(active),
        ensures
            final(self).wf(),
            final(self).state() == with_term(old(self).state(), active, text@),
    {
        let ghost before = *self;
        let ghost content = text@;
        match active {
            ActiveStatement::Context => {
                match self.context.pop() {
                    Some(last) => {
                        self.context.push(extended(last, text));
                    },
                    None => {},
                }
                assert(statement_texts(self.context@) =~= statement_texts(
                    before.context@,
                ).drop_last().push(
                    (
                        statement_texts(before.context@).last().0,
                        statement_texts(before.context@).last().1.push(content),
                    ),
                ));
            },
            ActiveStatement::Observation => {
                self.terms.push(text);
                assert(contents(self.terms@) =~= contents(before.terms@).push(content));
            },
            ActiveStatement::Action => {
                match self.action.take() {
                    Some(action) => {
                        self.action = Some(extended(action, text));
                    },
                    None => {},
                }
            },
            ActiveStatement::Outcome => {
                match self.outcome.take() {
                    Some(outcome) => {
                        self.outcome = Some(extended(outcome, text));
                    },
                    None => {},
                }
            },
        }
    }

    fn take_term(&mut self, option: &str, value: &Token) -> (result: Result<(), String>)
        requires
            old(self).wf(),
        ensures
            match (with_term_option(old(self).state(), option@, token_text(*value)), result) {
                (Ok(state), Ok(_)) => final(self).wf() && final(self).state() == state,
                (Err(expected), Err(message)) => message@ == expected,
                _ => false,
            },
    {
        let active = match self.active {
            Some(active) => active,
            None => {
                return Err(
                    message3("`", option, "` must immediately follow its statement and terms"),
                );
            },
        };
        if !same_text(option, active.term_option()) {
            let mut message = message3("`", option, "` cannot be used in an active ");
            message.append(active.description());
            message.append(" statement; expected `");
            message.append(active.term_option());
            message.append("`");
            return Err(message);
        }
        let mut description = active.description().to_owned();
        description.append(" term");
        match token_str(value, description.as_str()) {
            Ok(text) => {
                self.push_term(active, text.to_owned());
                Ok(())
            },
            Err(message) => Err(message),
        }
    }

    fn take_statement(&mut self, option: &str, value: &Token) -> (result: Result<(), String>)
        requires
            old(self).wf(),
        ensures
            match (with_statement(old(self).state(), option@, token_text(*value)), result) {
                (Ok(state), Ok(_)) => final(self).wf() && final(self).state() == state,
                (Err(expected), Err(message)) => message@ == expected,
                _ => false,
            },
    {
        let ghost before = *self;
        if same_text(option, "--predicate") {
            let text = match token_str(value, "predicate") {
                Ok(text) => text.to_owned(),
                Err(message) => {
                    return Err(message);
                },
            };
            if self.predicate.is_some() {
                return Err(message3("`", option, "` may be specified only once"));
            }
            self.predicate = Some(text);
            self.active = Some(ActiveStatement::Observation);
            Ok(())
        } else if same_text(option, "--context") {
            let text = match token_str(value, "context predicate") {
                Ok(text) => text.to_owned(),
                Err(message) => {
                    return Err(message);
                },
            };
            let ghost content = text@;
            self.context.push(started(text));
            self.active = Some(ActiveStatement::Context);
            assert(statement_texts(self.context@) =~= statement_texts(before.context@).push(
                (content, Seq::<Seq<char>>::empty()),
            ));
            Ok(())
        } else if same_text(option, "--action") {
            let text = match token_str(value, "action predicate") {
                Ok(text) => text.to_owned(),
                Err(message) => {
                    return Err(message);
                },
            };
            if self.action.is_some() {
                return Err(message3("`", option, "` may be specified only once"));
            }
            self.action = Some(started(text));
            self.active = Some(ActiveStatement::Action);
            Ok(())
        } else if same_text(option, "--outcome") {
            let text = match token_str(value, "outcome predicate") {
                Ok(text) => text.to_owned(),
                Err(message) => {
                    return Err(message);
                },
            };
            if self.outcome.is_some() {
                return Err(message3("`", option, "` may be specified only once"));
            }
            self.outcome = Some(started(text));
            self.active = Some(ActiveStatement::Outcome);
            Ok(())
        } else {
            Err(message3("unknown episode option `", option, "`"))
        }
    }

    fn take_field(&mut self, option: &str, value: &Token) -> (result: Result<(), String>)
        requires
            old(self).wf(),
        ensures
            match (with_field(old(self).state(), option@, token_text(*value)), result) {
                (Ok(state), Ok(_)) => final(self).wf() && final(self).state() == state,
                (Err(expected), Err(message)) => message@ == expected,
                _ => false,
            },
    {
        if same_text(option, "--occurred") {
            let number: i64 = match parse_i64_token(value, "occurred timestamp") {
                Ok(number) => number,
                Err(message) => {
                    return Err(message);
                },
            };
            if self.occurred_at.is_some() {
                return Err(message3("`", option, "` may be specified only once"));
            }
            self.occurred_at = Some(TimestampMs::new(number));
            self.active = None;
            Ok(())
        } else if same_text(option, "--recorded") {
            let number: i64 = match parse_i64_token(value, "recorded timestamp") {
                Ok(number) => number,
                Err(message) => {
                    return Err(message);
                },
            };
            if self.recorded_at.is_some() {
                return Err(message3("`", option, "` may be specified only once"));
            }
            self.recorded_at = Some(TimestampMs::new(number));
            self.active = None;
            Ok(())
        } else if same_text(option, "--source") {
            let number: u64 = match parse_u64_token(value, "source ID") {
                Ok(number) => number,
                Err(message) => {
                    return Err(message);
                },
            };
            if self.source.is_some() {
                return Err(message3("`", option, "` may be specified only once"));
            }
            self.source = Some(SourceId::new(number));
            self.active = None;
            Ok(())
        } else {
            self.take_statement(option, value)
        }
    }

    fn require_terms(&self) -> (result: Result<(), String>)
        requires
            self.wf(),
        ensures
            match (self.active, result) {
                (None, Ok(_)) => true,
                (Some(active), Ok(_)) => terms_of(self.state(), active).len() > 0,
                (Some(active), Err(message)) => terms_of(self.state(), active).len() == 0
                    && message@ == lacks_terms(active),
                _ => false,
            },
    {
        match self.active {
            Some(active) => {
                if self.term_count(active) == 0 {
                    let mut message = active.description().to_owned();
                    message.append(" requires at least one `");
                    message.append(active.term_option());
                    message.append("` value");
                    return Err(message);
                }
                Ok(())
            },
            None => Ok(()),
        }
    }

    fn take_option(&mut self, option: &str, value: &Token) -> (result: Result<(), String>)
        requires
            old(self).wf(),
        ensures
            match (with_option(old(self).state(), option@, token_text(*value)), result) {
                (Ok(state), Ok(_)) => final(self).wf() && final(self).state() == state,
                (Err(expected), Err(message)) => message@ == expected,
                _ => false,
            },
    {
        if same_text(option, "--term") || same_text(option, "--context-term") || same_text(
            option,
            "--action-term",
        ) || same_text(option, "--outcome-term") {
            return self.take_term(option, value);
        }
        match self.require_terms() {
            Ok(_) => {},
            Err(message) => {
                return Err(message);
            },
        }
        self.take_field(option, value)
    }
}

fn started(predicate: String) -> (statement: TextStatement)
    ensures
        statement@ == (predicate@, Seq::<Seq<char>>::empty()),
{
    let statement = TextStatement { predicate, terms: Vec::new() };
    assert(contents(statement.terms@) =~= Seq::empty());
    statement
}

fn extended(statement: TextStatement, text: String) -> (longer: TextStatement)
    ensures
        longer@ == (statement@.0, statement@.1.push(text@)),
{
    let ghost content = text@;
    let TextStatement { predicate, mut terms } = statement;
    let ghost listed = contents(terms@);
    terms.push(text);
    assert(contents(terms@) =~= listed.push(content));
    TextStatement { predicate, terms }
}

/// The draft holds what the flags say.
pub open spec fn holds_flags(draft: TextEpisodeDraft, state: FlagState) -> bool {
    &&& state.occurred == Some(draft.occurred_at.0)
    &&& state.recorded == Some(draft.recorded_at.0)
    &&& state.source == Some(draft.source.0)
    &&& state.predicate == Some(draft.observation@.0)
    &&& state.terms == draft.observation@.1
    &&& state.context == statement_texts(draft.context@)
    &&& state.action == optional_texts(draft.action)
    &&& state.outcome == optional_texts(draft.outcome)
}

/// Parses the flags of one episode: its times and source, an observation with
/// its terms, and context, action and outcome statements with theirs.
pub fn parse_episode_flags(tokens: &[Token]) -> (result: Result<TextEpisodeDraft, String>)
    ensures
        match (read_flags(no_flags(), token_texts(tokens@)), result) {
            (Ok(state), Ok(draft)) => holds_flags(draft, state),
            (Err(expected), Err(message)) => message@ == expected,
            _ => false,
        },
{
    let ghost all = token_texts(tokens@);
    let mut flags = Flags::new();
    let mut index: usize = 0;
    assert(all.skip(0) =~= all);
    while index < tokens.len()
        invariant
            index <= tokens@.len(),
            all == token_texts(tokens@),
            flags.wf(),
            read_flags(no_flags(), all) == read_flags(flags.state(), all.skip(index as int)),
        decreases tokens.len() - index,
    {
        let ghost rest = all.skip(index as int);
        proof {
            assert(rest[0] == token_text(tokens@[index as int]));
            if index + 1 < tokens@.len() {
                assert(rest[1] == token_text(tokens@[index + 1]));
                assert(rest.skip(2) =~= all.skip(index + 2));
            }
        }
        let option: &str = match &tokens[index] {
            Some(option) => option.as_str(),
            None => {
                return Err("episode options must be valid UTF-8".to_owned());
            },
        };
        if index + 1 == tokens.len() {
            return Err(message3("`", option, "` requires a value"));
        }
        match flags.take_option(option, &tokens[index + 1]) {
            Ok(_) => {},
            Err(message) => {
                return Err(message);
            },
        }
        index += 2;
    }
    assert(all.skip(index as int) =~= Seq::empty());
    match flags.require_terms() {
        Ok(_) => {},
        Err(message) => {
            return Err(message);
        },
    }
    let Flags {
        occurred_at,
        recorded_at,
        source,
        predicate,
        terms,
        context,
        action,
        outcome,
        active: _,
    } = flags;
    let occurred_at = match occurred_at {
        Some(occurred_at) => occurred_at,
        None => {
            return Err("episode requires `--occurred`".to_owned());
        },
    };
    let recorded_at = match recorded_at {
        Some(recorded_at) => recorded_at,
        None => {
            return Err("episode requires `--recorded`".to_owned());
        },
    };
    let source = match source {
        Some(source) => source,
        None => {
            return Err("episode requires `--source`".to_owned());
        },
    };
    let predicate = match predicate {
        Some(predicate) => predicate,
        None => {
            return Err("episode requires `--predicate`".to_owned());
        },
    };
    Ok(
        TextEpisodeDraft {
            occurred_at,
            recorded_at,
            context,
            observation: TextStatement { predicate, terms },
            action,
            outcome,
            source,
        },
    )
}

/// A draft without its texts: times, source and the number of terms of each statement.
#[derive(Clone, Debug, PartialEq, Eq)]
pub struct EpisodeShape {
    /// Time at which the represented event occurred.
    pub occurred_at: TimestampMs,
    /// Time at which the event was recorded.
    pub recorded_at: TimestampMs,
    /// Number of terms of each context statement.
    pub context_term_counts: Vec<usize>,
    /// Number of terms of the observation.
    pub observation_term_count: usize,
    /// Number of terms of the action.
    pub action_term_count: Option<usize>,
    /// Number of terms of the outcome.
    pub outcome_term_count: Option<usize>,
    /// Provenance source.
    pub source: SourceId,
}

/// The statement in a sequence of its own, if there is one.
pub open spec fn optional_list(statement: Option<TextStatement>) -> Seq<StatementText> {
    match statement {
        Some(statement) => seq![statement@],
        None => Seq::empty(),
    }
}

/// The statements of a draft: context, observation, action and outcome.
pub open spec fn draft_statements(draft: TextEpisodeDraft) -> Seq<StatementText> {
    statement_texts(draft.context@).push(draft.observation@) + optional_list(draft.action)
        + optional_list(draft.outcome)
}

/// The statements of drafts.
pub open spec fn all_statements(drafts: Seq<TextEpisodeDraft>) -> Seq<StatementText>
    decreases drafts.len(),
{
    if drafts.len() == 0 {
        Seq::empty()
    } else {
        all_statements(drafts.drop_last()) + draft_statements(drafts.last())
    }
}

/// The predicates of statements.
pub open spec fn predicate_texts(statements: Seq<StatementText>) -> Seq<Seq<char>> {
    statements.map_values(|statement: StatementText| statement.0)
}

/// The terms of statements, in order.
pub open spec fn term_texts(statements: Seq<StatementText>) -> Seq<Seq<char>>
    decreases statements.len(),
{
    if statements.len() == 0 {
        Seq::empty()
    } else {
        term_texts(statements.drop_last()) + statements.last().1
    }
}

/// The number of terms of a statement that may be absent.
pub open spec fn optional_count(statement: Option<TextStatement>) -> Option<usize> {
    match statement {
        Some(statement) => Some(statement.terms@.len() as usize),
        None => None,
    }
}

/// The shape counts the terms of the draft.
pub open spec fn shapes_draft(shape: EpisodeShape, draft: TextEpisodeDraft) -> bool {
    &&& shape.occurred_at == draft.occurred_at
    &&& shape.recorded_at == draft.recorded_at
    &&& shape.source == draft.source
    &&& shape.context_term_counts@.len() == draft.context@.len()
    &&& forall|i: int|
        0 <= i < draft.context@.len() ==> (#[trigger] shape.context_term_counts@[i])
            == draft.context@[i].terms@.len()
    &&& shape.observation_term_count == draft.observation.terms@.len()
    &&& shape.action_term_count == optional_count(draft.action)
    &&& shape.outcome_term_count == optional_count(draft.outcome)
}

fn flatten_statement(
    statement: &TextStatement,
    predicates: &mut Vec<String>,
    terms: &mut Vec<String>,
    Ghost(before): Ghost<Seq<StatementText>>,
) -> (count: usize)
    requires
        contents(old(predicates)@) == predicate_texts(before),
        contents(old(terms)@) == term_texts(before),
    ensures
        contents(final(predicates)@) == predicate_texts(before.push(statement@)),
        contents(final(terms)@) == term_texts(before.push(statement@)),
        count == statement.terms@.len(),
{
    let ghost listed = contents(predicates@);
    predicates.push(statement.predicate.clone());
    let ghost start = contents(terms@);
    let ghost added = contents(statement.terms@);
    let mut index: usize = 0;
    proof {
        let after = before.push(statement@);
        assert(after.drop_last() =~= before);
        assert(contents(predicates@) =~= listed.push(statement.predicate@));
        assert(predicate_texts(after) =~= listed.push(statement.predicate@));
        assert(start + added.take(0) =~= start);
    }
    while index < statement.terms.len()
        invariant
            index <= statement.terms@.len(),
            added == contents(statement.terms@),
            contents(terms@) == start + added.take(index as int),
        decreases statement.terms.len() - index,
    {
        let ghost earlier = contents(terms@);
        terms.push(statement.terms[index].clone());
        proof {
            assert(contents(terms@) =~= earlier.push(added[index as int]));
            assert(contents(terms@) =~= start + added.take(index + 1));
        }
        index += 1;
    }
    assert(added.take(index as int) =~= added);
    statement.terms.len()
}

/// Lists the predicates and terms of drafts in order, and keeps their shapes.
pub fn flatten_drafts(drafts: &[TextEpisodeDraft]) -> (flat: (
    Vec<String>,
    Vec<String>,
    Vec<EpisodeShape>,
))
    ensures
        contents(flat.0@) == predicate_texts(all_statements(drafts@)),
        contents(flat.1@) == term_texts(all_statements(drafts@)),
        flat.2@.len() == drafts@.len(),
        forall|i: int| 0 <= i < drafts@.len() ==> shapes_draft(#[trigger] flat.2@[i], drafts@[i]),
{
    let mut predicates: Vec<String> = Vec::new();
    let mut terms: Vec<String> = Vec::new();
    let mut shapes: Vec<EpisodeShape> = Vec::new();
    let ghost mut listed: Seq<StatementText> = Seq::empty();
    let mut index: usize = 0;
    proof {
        assert(drafts@.take(0) =~= Seq::empty());
        assert(contents(predicates@) =~= predicate_texts(listed));
        assert(contents(terms@) =~= term_texts(listed));
    }
    while index < drafts.len()
        invariant
            index <= drafts@.len(),
            listed == all_statements(drafts@.take(index as int)),
            contents(predicates@) == predicate_texts(listed),
            contents(terms@) == term_texts(listed),
            shapes@.len() == index,
            forall|i: int| 0 <= i < index ==> shapes_draft(#[trigger] shapes@[i], drafts@[i]),
        decreases drafts.len() - index,
    {
        let draft = &drafts[index];
        let ghost start = listed;
        let ghost context = statement_texts(draft.context@);
        let mut context_term_counts: Vec<usize> = Vec::new();
        let mut place: usize = 0;
        assert(start + context.take(0) =~= start);
        while place < draft.context.len()
            invariant
                place <= draft.context@.len(),
                context == statement_texts(draft.context@),
                listed == start + context.take(place as int),
                contents(predicates@) == predicate_texts(listed),
                contents(terms@) == term_texts(listed),
                context_term_counts@.len() == place,
                forall|i: int|
                    0 <= i < place ==> (#[trigger] context_term_counts@[i])
                        == draft.context@[i].terms@.len(),
            decreases draft.context.len() - place,
        {
            let statement = &draft.context[place];
            let count: usize = flatten_statement(
                statement,
                &mut predicates,
                &mut terms,
                Ghost(listed),
            );
            context_term_counts.push(count);
            proof {
                listed = listed.push(statement@);
                assert(listed =~= start + context.take(place + 1));
            }
            place += 1;
        }
        assert(context.take(place as int) =~= context);
        let observation_term_count: usize = flatten_statement(
            &draft.observation,
            &mut predicates,
            &mut terms,
            Ghost(listed),
        );
        proof {
            listed = listed.push(draft.observation@);
        }
        let action_term_count: Option<usize> = match &draft.action {
            Some(action) => {
                let count: usize = flatten_statement(
                    action,
                    &mut predicates,
                    &mut terms,
                    Ghost(listed),
                );
                proof {
                    listed = listed.push(action@);
                }
                Some(count)
            },
            None => None,
        };
        let outcome_term_count: Option<usize> = match &draft.outcome {
            Some(outcome) => {
                let count: usize = flatten_statement(
                    outcome,
                    &mut predicates,
                    &mut terms,
                    Ghost(listed),
                );
                proof {
                    listed = listed.push(outcome@);
                }
                Some(count)
            },
            None => None,
        };
        proof {
            let part = drafts@.take(index + 1);
            assert(part.drop_last() =~= drafts@.take(index as int));
            assert(part.last() == *draft);
            assert(listed =~= start + draft_statements(*draft));
        }
        shapes.push(
            EpisodeShape {
                occurred_at: draft.occurred_at,
                recorded_at: draft.recorded_at,
                context_term_counts,
                observation_term_count,
                action_term_count,
                outcome_term_count,
                source: draft.source,
            },
        );
        index += 1;
    }
    assert(drafts@.take(index as int) =~= drafts@);
    (predicates, terms, shapes)
}

/// How many predicates and terms were taken.
pub type Taken = (nat, nat);

/// A statement's word and what is taken behind it.
pub open spec fn next_statement(
    predicates: Seq<PredicateId>,
    terms: Seq<TermId>,
    taken: Taken,
    count: nat,
) -> Result<(Seq<int>, Taken), Seq<char>> {
    if taken.0 >= predicates.len() {
        Err("predicate interning returned an incomplete result"@)
    } else if taken.1 + count > terms.len() {
        Err("term interning returned an incomplete result"@)
    } else if count == 0 {
        Err(ModelError::EmptyArguments.text())
    } else {
        Ok(
            (
                statement_word(
                    predicates[taken.0 as int],
                    terms.subrange(taken.1 as int, (taken.1 + count) as int),
                ),
                (taken.0 + 1, taken.1 + count),
            ),
        )
    }
}

/// The words of statements with the term counts, and what is taken behind them.
pub open spec fn next_statements(
    predicates: Seq<PredicateId>,
    terms: Seq<TermId>,
    taken: Taken,
    counts: Seq<usize>,
) -> Result<(Seq<Seq<int>>, Taken), Seq<char>>
    decreases counts.len(),
{
    if counts.len() == 0 {
        Ok((Seq::empty(), taken))
    } else {
        match next_statements(predicates, terms, taken, counts.drop_last()) {
            Err(message) => Err(message),
            Ok((found, reached)) => match next_statement(
                predicates,
                terms,
                reached,
                counts.last() as nat,
            ) {
                Err(message) => Err(message),
                Ok((word, end)) => Ok((found.push(word), end)),
            },
        }
    }
}

/// The word of a statement that may be absent, and what is taken behind it.
pub open spec fn next_optional(
    predicates: Seq<PredicateId>,
    terms: Seq<TermId>,
    taken: Taken,
    count: Option<usize>,
) -> Result<(Option<Seq<int>>, Taken), Seq<char>> {
    match count {
        None => Ok((None, taken)),
        Some(count) => match next_statement(predicates, terms, taken, count as nat) {
            Err(message) => Err(message),
            Ok((word, end)) => Ok((Some(word), end)),
        },
    }
}

/// The words of an episode's statements.
pub ghost struct DraftWords {
    /// Context statements.
    pub context: Seq<Seq<int>>,
    /// Observation.
    pub observation: Seq<int>,
    /// Action.
    pub action: Option<Seq<int>>,
    /// Outcome.
    pub outcome: Option<Seq<int>>,
}

/// The words of a shape's statements, and what is taken behind them.
pub open spec fn next_draft(
    predicates: Seq<PredicateId>,
    terms: Seq<TermId>,
    taken: Taken,
    shape: EpisodeShape,
) -> Result<(DraftWords, Taken), Seq<char>> {
    match next_statements(predicates, terms, taken, shape.context_term_counts@) {
        Err(message) => Err(message),
        Ok((context, taken)) => match next_statement(
            predicates,
            terms,
            taken,
            shape.observation_term_count as nat,
        ) {
            Err(message) => Err(message),
            Ok((observation, taken)) => match next_optional(
                predicates,
                terms,
                taken,
                shape.action_term_count,
            ) {
                Err(message) => Err(message),
                Ok((action, taken)) => match next_optional(
                    predicates,
                    terms,
                    taken,
                    shape.outcome_term_count,
                ) {
                    Err(message) => Err(message),
                    Ok((outcome, taken)) => Ok(
                        (DraftWords { context, observation, action, outcome }, taken),
                    ),
                },
            },
        },
    }
}

/// The words of each shape's statements.
pub open spec fn next_drafts(
    predicates: Seq<PredicateId>,
    terms: Seq<TermId>,
    shapes: Seq<EpisodeShape>,
) -> Result<(Seq<DraftWords>, Taken), Seq<char>>
    decreases shapes.len(),
{
    if shapes.len() == 0 {
        Ok((Seq::empty(), (0, 0)))
    } else {
        match next_drafts(predicates, terms, shapes.drop_last()) {
            Err(message) => Err(message),
            Ok((found, taken)) => match next_draft(predicates, terms, taken, shapes.last()) {
                Err(message) => Err(message),
                Ok((draft, end)) => Ok((found.push(draft), end)),
            },
        }
    }
}

fn resolve_statement(
    predicates: &[PredicateId],
    terms: &[TermId],
    taken: (usize, usize),
    count: usize,
) -> (result: Result<(Statement, (usize, usize)), String>)
    requires
        taken.0 <= predicates@.len(),
        taken.1 <= terms@.len(),
    ensures
        match (
            next_statement(
                predicates@,
                terms@,
                (taken.0 as nat, taken.1 as nat),
                count as nat,
            ),
            result,
        ) {
            (Ok((word, end)), Ok((statement, reached))) => {
                &&& statement.word() == word
                &&& reached.0 == end.0
                &&& reached.1 == end.1
                &&& reached.0 <= predicates@.len()
                &&& reached.1 <= terms@.len()
            },
            (Err(expected), Err(message)) => message@ == expected,
            _ => false,
        },
{
    if taken.0 == predicates.len() {
        return Err("predicate interning returned an incomplete result".to_owned());
    }
    if terms.len() - taken.1 < count {
        return Err("term interning returned an incomplete result".to_owned());
    }
    let end: usize = taken.1 + count;
    let mut arguments: Vec<TermId> = Vec::new();
    let mut index: usize = taken.1;
    while index < end
        invariant
            taken.1 <= index <= end <= terms@.len(),
            arguments@ =~= terms@.subrange(taken.1 as int, index as int),
        decreases end - index,
    {
        arguments.push(terms[index]);
        index += 1;
    }
    match Statement::new(predicates[taken.0], arguments) {
        Ok(statement) => Ok((statement, (taken.0 + 1, end))),
        Err(error) => Err(error.to_string()),
    }
}

proof fn lemma_statements_stop(
    predicates: Seq<PredicateId>,
    terms: Seq<TermId>,
    taken: Taken,
    counts: Seq<usize>,
    end: int,
)
    requires
        0 <= end <= counts.len(),
        next_statements(predicates, terms, taken, counts.take(end)) is Err,
    ensures
        next_statements(predicates, terms, taken, counts) == next_statements(
            predicates,
            terms,
            taken,
            counts.take(end),
        ),
    decreases counts.len(),
{
    if end < counts.len() {
        assert(counts.drop_last().take(end) =~= counts.take(end));
        lemma_statements_stop(predicates, terms, taken, counts.drop_last(), end);
    } else {
        assert(counts.take(end) =~= counts);
    }
}

fn resolve_statements(
    predicates: &[PredicateId],
    terms: &[TermId],
    taken: (usize, usize),
    counts: &Vec<usize>,
) -> (result: Result<(Vec<Statement>, (usize, usize)), String>)
    requires
        taken.0 <= predicates@.len(),
        taken.1 <= terms@.len(),
    ensures
        match (
            next_statements(
                predicates@,
                terms@,
                (taken.0 as nat, taken.1 as nat),
                counts@,
            ),
            result,
        ) {
            (Ok((found, end)), Ok((statements, reached))) => {
                &&& words(statements@) == found
                &&& reached.0 == end.0
                &&& reached.1 == end.1
                &&& reached.0 <= predicates@.len()
                &&& reached.1 <= terms@.len()
            },
            (Err(expected), Err(message)) => message@ == expected,
            _ => false,
        },
{
    let ghost first = (taken.0 as nat, taken.1 as nat);
    let mut statements: Vec<Statement> = Vec::new();
    let mut reached: (usize, usize) = taken;
    let mut index: usize = 0;
    proof {
        assert(counts@.take(0) =~= Seq::empty());
        assert(words(statements@) =~= Seq::empty());
    }
    while index < counts.len()
        invariant
            index <= counts@.len(),
            first == (taken.0 as nat, taken.1 as nat),
            reached.0 <= predicates@.len(),
            reached.1 <= terms@.len(),
            next_statements(predicates@, terms@, first, counts@.take(index as int)) == Ok::<
                (Seq<Seq<int>>, Taken),
                Seq<char>,
            >((words(statements@), (reached.0 as nat, reached.1 as nat))),
        decreases counts.len() - index,
    {
        proof {
            let part = counts@.take(index + 1);
            assert(part.drop_last() =~= counts@.take(index as int));
            assert(part.last() == counts@[index as int]);
            if next_statements(predicates@, terms@, first, part) is Err {
                lemma_statements_stop(predicates@, terms@, first, counts@, index + 1);
            }
        }
        match resolve_statement(predicates, terms, reached, counts[index]) {
            Err(message) => {
                return Err(message);
            },
            Ok((statement, end)) => {
                let ghost before = words(statements@);
                let ghost word = statement.word();
                statements.push(statement);
                assert(words(statements@) =~= before.push(word));
                reached = end;
            },
        }
        index += 1;
    }
    assert(counts@.take(index as int) =~= counts@);
    Ok((statements, reached))
}

fn resolve_optional(
    predicates: &[PredicateId],
    terms: &[TermId],
    taken: (usize, usize),
    count: Option<usize>,
) -> (result: Result<(Option<Statement>, (usize, usize)), String>)
    requires
        taken.0 <= predicates@.len(),
        taken.1 <= terms@.len(),
    ensures
        match (
            next_optional(predicates@, terms@, (taken.0 as nat, taken.1 as nat), count),
            result,
        ) {
            (Ok((word, end)), Ok((statement, reached))) => {
                &&& optional_word(statement) == word
                &&& reached.0 == end.0
                &&& reached.1 == end.1
                &&& reached.0 <= predicates@.len()
                &&& reached.1 <= terms@.len()
            },
            (Err(expected), Err(message)) => message@ == expected,
            _ => false,
        },
{
    match count {
        None => Ok((None, taken)),
        Some(count) => match resolve_statement(predicates, terms, taken, count) {
            Ok((statement, reached)) => Ok((Some(statement), reached)),
            Err(message) => Err(message),
        },
    }
}

/// The draft has the shape's times and source and the statements' words.
pub open spec fn drafts_words(draft: EpisodeDraft, shape: EpisodeShape, found: DraftWords) -> bool {
    &&& draft.occurred_at == shape.occurred_at
    &&& draft.recorded_at == shape.recorded_at
    &&& draft.source == shape.source
    &&& words(draft.context@) == found.context
    &&& draft.observation.word() == found.observation
    &&& optional_word(draft.action) == found.action
    &&& optional_word(draft.outcome) == found.outcome
}

fn resolve_draft(
    predicates: &[PredicateId],
    terms: &[TermId],
    taken: (usize, usize),
    shape: &EpisodeShape,
) -> (result: Result<(EpisodeDraft, (usize, usize)), String>)
    requires
        taken.0 <= predicates@.len(),
        taken.1 <= terms@.len(),
    ensures
        match (
            next_draft(predicates@, terms@, (taken.0 as nat, taken.1 as nat), *shape),
            result,
        ) {
            (Ok((found, end)), Ok((draft, reached))) => {
                &&& drafts_words(draft, *shape, found)
                &&& reached.0 == end.0
                &&& reached.1 == end.1
                &&& reached.0 <= predicates@.len()
                &&& reached.1 <= terms@.len()
            },
            (Err(expected), Err(message)) => message@ == expected,
            _ => false,
        },
{
    let (context, taken) = match resolve_statements(
        predicates,
        terms,
        taken,
        &shape.context_term_counts,
    ) {
        Ok(found) => found,
        Err(message) => {
            return Err(message);
        },
    };
    let (observation, taken) = match resolve_statement(
        predicates,
        terms,
        taken,
        shape.observation_term_count,
    ) {
        Ok(found) => found,
        Err(message) => {
            return Err(message);
        },
    };
    let (action, taken) = match resolve_optional(
        predicates,
        terms,
        taken,
        shape.action_term_count,
    ) {
        Ok(found) => found,
        Err(message) => {
            return Err(message);
        },
    };
    let (outcome, taken) = match resolve_optional(
        predicates,
        terms,
        taken,
        shape.outcome_term_count,
    ) {
        Ok(found) => found,
        Err(message) => {
            return Err(message);
        },
    };
    Ok(
        (
            EpisodeDraft {
                occurred_at: shape.occurred_at,
                recorded_at: shape.recorded_at,
                context,
                observation,
                action,
                outcome,
                source: shape.source,
            },
            taken,
        ),
    )
}

proof fn lemma_drafts_stop(
    predicates: Seq<PredicateId>,
    terms: Seq<TermId>,
    shapes: Seq<EpisodeShape>,
    end: int,
)
    requires
        0 <= end <= shapes.len(),
        next_drafts(predicates, terms, shapes.take(end)) is Err,
    ensures
        next_drafts(predicates, terms, shapes) == next_drafts(predicates, terms, shapes.take(end)),
    decreases shapes.len(),
{
    if end < shapes.len() {
        assert(shapes.drop_last().take(end) =~= shapes.take(end));
        lemma_drafts_stop(predicates, terms, shapes.drop_last(), end);
    } else {
        assert(shapes.take(end) =~= shapes);
    }
}

/// Gives the shapes their predicates and terms, which come in the order of the texts.
pub fn resolve_drafts(shapes: &[EpisodeShape], predicates: &[PredicateId], terms: &[TermId]) -> (result:
    Result<Vec<EpisodeDraft>, String>)
    ensures
        match (next_drafts(predicates@, terms@, shapes@), result) {
            (Ok((found, taken)), Ok(drafts)) => {
                &&& drafts@.len() == shapes@.len()
                &&& forall|i: int|
                    0 <= i < drafts@.len() ==> drafts_words(
                        #[trigger] drafts@[i],
                        shapes@[i],
                        found[i],
                    )
            },
            (Err(expected), Err(message)) => message@ == expected,
            _ => false,
        },
{
    let mut drafts: Vec<EpisodeDraft> = Vec::new();
    let ghost mut found: Seq<DraftWords> = Seq::empty();
    let mut taken: (usize, usize) = (0, 0);
    let mut index: usize = 0;
    assert(shapes@.take(0) =~= Seq::empty());
    while index < shapes.len()
        invariant
            index <= shapes@.len(),
            taken.0 <= predicates@.len(),
            taken.1 <= terms@.len(),
            drafts@.len() == index,
            found.len() == index,
            next_drafts(predicates@, terms@, shapes@.take(index as int)) == Ok::<
                (Seq<DraftWords>, Taken),
                Seq<char>,
            >((found, (taken.0 as nat, taken.1 as nat))),
            forall|i: int|
                0 <= i < drafts@.len() ==> drafts_words(
                    #[trigger] drafts@[i],
                    shapes@[i],
                    found[i],
                ),
        decreases shapes.len() - index,
    {
        let shape = &shapes[index];
        proof {
            let part = shapes@.take(index + 1);
            assert(part.drop_last() =~= shapes@.take(index as int));
            assert(part.last() == *shape);
            if next_drafts(predicates@, terms@, part) is Err {
                lemma_drafts_stop(predicates@, terms@, shapes@, index + 1);
            }
        }
        match resolve_draft(predicates, terms, taken, shape) {
            Err(message) => {
                return Err(message);
            },
            Ok((draft, end)) => {
                proof {
                    let words = next_draft(
                        predicates@,
                        terms@,
                        (taken.0 as nat, taken.1 as nat),
                        *shape,
                    )->Ok_0.0;
                    found = found.push(words);
                }
                drafts.push(draft);
                taken = end;
            },
        }
        index += 1;
    }
    assert(shapes@.take(index as int) =~= shapes@);
    Ok(drafts)
}

} // verus!
