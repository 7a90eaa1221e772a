//! Recall reports of statement episodes.

use vstd::prelude::*;
use vstd::string::*;

use crate::cli::report::{ascending_symbols, unresolved, ReportSymbols};
use crate::attribute::numbers;
use crate::episode::Episode;
use crate::model::{SymbolId, TermId};
use crate::order::{increasing, words, Lexical};
use crate::statement::{EpisodeAtom, EpisodeContent, Statement};
use crate::text::{decimal, push_decimal, push_signed_decimal, signed_decimal};

verus! {

/// A symbol without a text.
#[derive(Clone, Copy, Debug, PartialEq, Eq, Structural)]
pub enum Gap {
    /// A predicate.
    Predicate(u64),
    /// A term.
    Term(u64),
}

/// What is wrong with a symbol without a text.
pub open spec fn gap_text(gap: Gap) -> Seq<char> {
    match gap {
        Gap::Predicate(id) => unresolved("predicate symbol"@, id),
        Gap::Term(id) => unresolved("term symbol"@, id),
    }
}

fn gap_message(gap: Gap) -> (message: String)
    ensures
        message@ == gap_text(gap),
{
    let mut message = "stored episode references unresolved ".to_owned();
    match gap {
        Gap::Predicate(id) => {
            message.append("predicate symbol");
            message.append(" ");
            push_decimal(&mut message, id);
        },
        Gap::Term(id) => {
            message.append("term symbol");
            message.append(" ");
            push_decimal(&mut message, id);
        },
    }
    message
}

/// A statement that may be absent, in a sequence of its own.
pub open spec fn optional_list(word: Option<Seq<int>>) -> Seq<Seq<int>> {
    match word {
        Some(word) => seq![word],
        None => Seq::empty(),
    }
}

/// The statements of an episode: context, observation, action and outcome.
pub open spec fn episode_words(content: EpisodeContent) -> Seq<Seq<int>> {
    content.context.push(content.observation) + optional_list(content.action) + optional_list(
        content.outcome,
    )
}

/// The predicates of statements.
pub open spec fn predicates_of(all: Seq<Seq<int>>) -> Seq<u64> {
    all.map_values(|word: Seq<int>| word[0] as u64)
}

/// The arguments of a statement.
pub open spec fn arguments_of(word: Seq<int>) -> Seq<u64> {
    word.skip(1).map_values(|term: int| term as u64)
}

/// The arguments of statements, in order.
pub open spec fn terms_of(all: Seq<Seq<int>>) -> Seq<u64>
    decreases all.len(),
{
    if all.len() == 0 {
        Seq::empty()
    } else {
        terms_of(all.drop_last()) + arguments_of(all.last())
    }
}

/// The statements of reported episodes.
pub open spec fn reported_words(episodes: Seq<(&EpisodeAtom, u32)>) -> Seq<Seq<int>>
    decreases episodes.len(),
{
    if episodes.len() == 0 {
        Seq::empty()
    } else {
        reported_words(episodes.drop_last()) + episode_words(episodes.last().0.content())
    }
}

proof fn lemma_arguments(statement: Statement, arguments: Seq<TermId>)
    requires
        statement.word() == seq![statement.word()[0]] + arguments.map_values(
            |term: TermId| term.0 as int,
        ),
    ensures
        arguments_of(statement.word()).len() == arguments.len(),
        forall|i: int|
            0 <= i < arguments.len() ==> (#[trigger] arguments_of(statement.word())[i])
                == arguments[i].0,
{
    let word = statement.word();
    assert(word.skip(1) =~= arguments.map_values(|term: TermId| term.0 as int));
}

fn collect_statement(
    statement: &Statement,
    predicates: &mut Vec<u64>,
    terms: &mut Vec<u64>,
    Ghost(before): Ghost<Seq<Seq<int>>>,
)
    requires
        old(predicates)@ == predicates_of(before),
        old(terms)@ == terms_of(before),
    ensures
        final(predicates)@ == predicates_of(before.push(statement.word())),
        final(terms)@ == terms_of(before.push(statement.word())),
{
    let ghost after = before.push(statement.word());
    predicates.push(statement.predicate().get());
    let arguments = statement.arguments();
    let ghost start = terms@;
    let ghost added = arguments_of(statement.word());
    let mut index: usize = 0;
    proof {
        assert(after.drop_last() =~= before);
        assert(predicates@ =~= predicates_of(after));
        lemma_arguments(*statement, arguments@);
        assert(start + added.take(0) =~= start);
    }
    while index < arguments.len()
        invariant
            index <= arguments@.len(),
            added.len() == arguments@.len(),
            forall|i: int| 0 <= i < arguments@.len() ==> (#[trigger] added[i]) == arguments@[i].0,
            terms@ == start + added.take(index as int),
        decreases arguments.len() - index,
    {
        terms.push(arguments[index].get());
        assert(added[index as int] == arguments@[index as int].0);
        assert(terms@ =~= start + added.take(index + 1));
        index += 1;
    }
    assert(added.take(index as int) =~= added);
}

/// Lists the predicates and the terms of reported episodes, each once and in
/// ascending order.
pub fn recall_symbols(episodes: &[(&EpisodeAtom, u32)]) -> (ids: (Vec<SymbolId>, Vec<SymbolId>))
    ensures
        increasing(numbers(ids.0@)),
        increasing(numbers(ids.1@)),
        forall|id: u64| #[trigger]
            numbers(ids.0@).contains(id) <==> predicates_of(reported_words(episodes@)).contains(id),
        forall|id: u64| #[trigger]
            numbers(ids.1@).contains(id) <==> terms_of(reported_words(episodes@)).contains(id),
{
    let mut predicates: Vec<u64> = Vec::new();
    let mut terms: Vec<u64> = Vec::new();
    let ghost mut listed: Seq<Seq<int>> = Seq::empty();
    let mut index: usize = 0;
    proof {
        assert(episodes@.take(0) =~= Seq::empty());
        assert(predicates@ =~= predicates_of(listed));
    }
    while index < episodes.len()
        invariant
            index <= episodes@.len(),
            listed == reported_words(episodes@.take(index as int)),
            predicates@ == predicates_of(listed),
            terms@ == terms_of(listed),
        decreases episodes.len() - index,
    {
        let episode = episodes[index].0;
        let ghost start = listed;
        let context = episode.context();
        let ghost all = words(context@);
        let mut place: usize = 0;
        assert(start + all.take(0) =~= start);
        while place < context.len()
            invariant
                place <= context@.len(),
                all == words(context@),
                listed == start + all.take(place as int),
                predicates@ == predicates_of(listed),
                terms@ == terms_of(listed),
            decreases context.len() - place,
        {
            collect_statement(&context[place], &mut predicates, &mut terms, Ghost(listed));
            proof {
                listed = listed.push(context@[place as int].word());
                assert(listed =~= start + all.take(place + 1));
            }
            place += 1;
        }
        assert(all.take(place as int) =~= all);
        let observation = episode.observation();
        collect_statement(observation, &mut predicates, &mut terms, Ghost(listed));
        proof {
            listed = listed.push(observation.word());
        }
        match episode.action() {
            Some(action) => {
                collect_statement(action, &mut predicates, &mut terms, Ghost(listed));
                proof {
                    listed = listed.push(action.word());
                }
            },
            None => {},
        }
        match episode.outcome() {
            Some(outcome) => {
                collect_statement(outcome, &mut predicates, &mut terms, Ghost(listed));
                proof {
                    listed = listed.push(outcome.word());
                }
            },
            None => {},
        }
        proof {
            let part = episodes@.take(index + 1);
            assert(part.drop_last() =~= episodes@.take(index as int));
            assert(part.last() == episodes@[index as int]);
            assert(listed =~= start + episode_words(episode.content()));
        }
        index += 1;
    }
    assert(episodes@.take(index as int) =~= episodes@);
    (ascending_symbols(predicates.as_slice()), ascending_symbols(terms.as_slice()))
}

/// The labels of a role's lines.
pub ghost struct Labels {
    /// Label of the predicate.
    pub predicate: Seq<char>,
    /// Label of a term.
    pub term: Seq<char>,
}

/// The lines of terms, or the first one without a text.
pub open spec fn term_lines(
    before: Seq<char>,
    label: Seq<char>,
    ids: Seq<u64>,
    texts: Map<u64, Seq<char>>,
) -> Result<Seq<char>, Gap>
    decreases ids.len(),
{
    if ids.len() == 0 {
        Ok(before)
    } else {
        match term_lines(before, label, ids.drop_last(), texts) {
            Err(gap) => Err(gap),
            Ok(text) => if texts.contains_key(ids.last()) {
                Ok(text + label + " "@ + texts[ids.last()] + "\n"@)
            } else {
                Err(Gap::Term(ids.last()))
            },
        }
    }
}

/// The lines of a statement, or the first symbol without a text.
pub open spec fn statement_lines(
    before: Seq<char>,
    labels: Labels,
    word: Seq<int>,
    predicates: Map<u64, Seq<char>>,
    terms: Map<u64, Seq<char>>,
) -> Result<Seq<char>, Gap> {
    let predicate = word[0] as u64;
    if predicates.contains_key(predicate) {
        term_lines(
            before + labels.predicate + " "@ + predicates[predicate] + "\n"@,
            labels.term,
            arguments_of(word),
            terms,
        )
    } else {
        Err(Gap::Predicate(predicate))
    }
}

/// The lines of statements of one role, or the first symbol without a text.
pub open spec fn role_lines(
    before: Seq<char>,
    labels: Labels,
    all: Seq<Seq<int>>,
    predicates: Map<u64, Seq<char>>,
    terms: Map<u64, Seq<char>>,
) -> Result<Seq<char>, Gap>
    decreases all.len(),
{
    if all.len() == 0 {
        Ok(before)
    } else {
        match role_lines(before, labels, all.drop_last(), predicates, terms) {
            Err(gap) => Err(gap),
            Ok(text) => statement_lines(text, labels, all.last(), predicates, terms),
        }
    }
}

/// The labels of context lines.
pub open spec fn context_labels() -> Labels {
    Labels { predicate: "context"@, term: "context-term"@ }
}

/// The labels of observation lines.
pub open spec fn observation_labels() -> Labels {
    Labels { predicate: "predicate"@, term: "term"@ }
}

/// The labels of action lines.
pub open spec fn action_labels() -> Labels {
    Labels { predicate: "action"@, term: "action-term"@ }
}

/// The labels of outcome lines.
pub open spec fn outcome_labels() -> Labels {
    Labels { predicate: "outcome"@, term: "outcome-term"@ }
}

/// The lines of a hit before its statements.
pub open spec fn header_lines(before: Seq<char>, sequence: u64, ppm: u32, content: EpisodeContent) -> Seq<
    char,
> {
    before + "sequence "@ + decimal(sequence as nat) + "\nactivation_ppm "@ + decimal(ppm as nat)
        + "\noccurred "@ + signed_decimal(content.occurred_at.0 as int) + "\nrecorded "@
        + signed_decimal(content.recorded_at.0 as int) + "\nsource "@ + decimal(
        content.source.0 as nat,
    ) + "\n"@
}

/// The lines of one hit behind a text, or the first symbol without a text.
pub open spec fn hit_lines(
    before: Seq<char>,
    episode: EpisodeAtom,
    ppm: u32,
    predicates: Map<u64, Seq<char>>,
    terms: Map<u64, Seq<char>>,
) -> Result<Seq<char>, Gap> {
    let content = episode.content();
    match role_lines(
        header_lines(before, episode.identifier().position(), ppm, content),
        context_labels(),
        content.context,
        predicates,
        terms,
    ) {
        Err(gap) => Err(gap),
        Ok(text) => match statement_lines(
            text,
            observation_labels(),
            content.observation,
            predicates,
            terms,
        ) {
            Err(gap) => Err(gap),
            Ok(text) => match role_lines(
                text,
                action_labels(),
                optional_list(content.action),
                predicates,
                terms,
            ) {
                Err(gap) => Err(gap),
                Ok(text) => role_lines(
                    text,
                    outcome_labels(),
                    optional_list(content.outcome),
                    predicates,
                    terms,
                ),
            },
        },
    }
}

/// The lines of hits, with a blank line between them, or the first symbol
/// without a text.
pub open spec fn report_lines(
    episodes: Seq<(&EpisodeAtom, u32)>,
    predicates: Map<u64, Seq<char>>,
    terms: Map<u64, Seq<char>>,
) -> Result<Seq<char>, Gap>
    decreases episodes.len(),
{
    if episodes.len() == 0 {
        Ok(Seq::empty())
    } else {
        match report_lines(episodes.drop_last(), predicates, terms) {
            Err(gap) => Err(gap),
            Ok(text) => hit_lines(
                if episodes.len() == 1 {
                    text
                } else {
                    text.push('\n')
                },
                *episodes.last().0,
                episodes.last().1,
                predicates,
                terms,
            ),
        }
    }
}

proof fn lemma_terms_stop(
    before: Seq<char>,
    label: Seq<char>,
    ids: Seq<u64>,
    texts: Map<u64, Seq<char>>,
    end: int,
)
    requires
        0 <= end <= ids.len(),
        term_lines(before, label, ids.take(end), texts) is Err,
    ensures
        term_lines(before, label, ids, texts) == term_lines(before, label, ids.take(end), texts),
    decreases ids.len(),
{
    if end < ids.len() {
        assert(ids.drop_last().take(end) =~= ids.take(end));
        lemma_terms_stop(before, label, ids.drop_last(), texts, end);
    } else {
        assert(ids.take(end) =~= ids);
    }
}

proof fn lemma_role_stops(
    before: Seq<char>,
    labels: Labels,
    all: Seq<Seq<int>>,
    predicates: Map<u64, Seq<char>>,
    terms: Map<u64, Seq<char>>,
    end: int,
)
    requires
        0 <= end <= all.len(),
        role_lines(before, labels, all.take(end), predicates, terms) is Err,
    ensures
        role_lines(before, labels, all, predicates, terms) == role_lines(
            before,
            labels,
            all.take(end),
            predicates,
            terms,
        ),
    decreases all.len(),
{
    if end < all.len() {
        assert(all.drop_last().take(end) =~= all.take(end));
        lemma_role_stops(before, labels, all.drop_last(), predicates, terms, end);
    } else {
        assert(all.take(end) =~= all);
    }
}

proof fn lemma_report_stops(
    episodes: Seq<(&EpisodeAtom, u32)>,
    predicates: Map<u64, Seq<char>>,
    terms: Map<u64, Seq<char>>,
    end: int,
)
    requires
        0 <= end <= episodes.len(),
        report_lines(episodes.take(end), predicates, terms) is Err,
    ensures
        report_lines(episodes, predicates, terms) == report_lines(
            episodes.take(end),
            predicates,
            terms,
        ),
    decreases episodes.len(),
{
    if end < episodes.len() {
        assert(episodes.drop_last().take(end) =~= episodes.take(end));
        lemma_report_stops(episodes.drop_last(), predicates, terms, end);
    } else {
        assert(episodes.take(end) =~= episodes);
    }
}

/// Appends the lines of one statement.
pub fn write_statement(
    output: &mut String,
    predicate_label: &str,
    term_label: &str,
    statement: &Statement,
    predicates: &ReportSymbols,
    terms: &ReportSymbols,
) -> (result: Result<(), String>)
    ensures
        match (
            statement_lines(
                old(output)@,
                Labels { predicate: predicate_label@, term: term_label@ },
                statement.word(),
                predicates.texts(),
                terms.texts(),
            ),
            result,
        ) {
            (Ok(text), Ok(_)) => final(output)@ == text,
            (Err(gap), Err(message)) => message@ == gap_text(gap),
            _ => false,
        },
{
    let predicate: u64 = statement.predicate().get();
    match predicates.get(predicate) {
        Some(text) => {
            output.append(predicate_label);
            output.append(" ");
            output.append(text);
            output.append("\n");
        },
        None => {
            return Err(gap_message(Gap::Predicate(predicate)));
        },
    }
    let arguments = statement.arguments();
    let ghost start = output@;
    let ghost ids = arguments_of(statement.word());
    let mut index: usize = 0;
    proof {
        lemma_arguments(*statement, arguments@);
        assert(ids.take(0) =~= Seq::empty());
    }
    while index < arguments.len()
        invariant
            index <= arguments@.len(),
            ids == arguments_of(statement.word()),
            ids.len() == arguments@.len(),
            predicate == statement.word()[0],
            predicates.texts().contains_key(predicate),
            start == old(output)@ + predicate_label@ + " "@ + predicates.texts()[predicate]
                + "\n"@,
            forall|i: int| 0 <= i < arguments@.len() ==> (#[trigger] ids[i]) == arguments@[i].0,
            term_lines(start, term_label@, ids.take(index as int), terms.texts()) == Ok::<
                Seq<char>,
                Gap,
            >(output@),
        decreases arguments.len() - index,
    {
        let id: u64 = arguments[index].get();
        proof {
            let part = ids.take(index + 1);
            assert(part.drop_last() =~= ids.take(index as int));
            assert(part.last() == ids[index as int]);
            if term_lines(start, term_label@, part, terms.texts()) is Err {
                lemma_terms_stop(start, term_label@, ids, terms.texts(), index + 1);
            }
        }
        match terms.get(id) {
            Some(text) => {
                output.append(term_label);
                output.append(" ");
                output.append(text);
                output.append("\n");
            },
            None => {
                return Err(gap_message(Gap::Term(id)));
            },
        }
        index += 1;
    }
    assert(ids.take(index as int) =~= ids);
    Ok(())
}

fn write_context(
    output: &mut String,
    context: &[Statement],
    predicates: &ReportSymbols,
    terms: &ReportSymbols,
) -> (result: Result<(), String>)
    ensures
        match (
            role_lines(
                old(output)@,
                context_labels(),
                words(context@),
                predicates.texts(),
                terms.texts(),
            ),
            result,
        ) {
            (Ok(text), Ok(_)) => final(output)@ == text,
            (Err(gap), Err(message)) => message@ == gap_text(gap),
            _ => false,
        },
{
    let ghost start = output@;
    let ghost all = words(context@);
    let mut index: usize = 0;
    assert(all.take(0) =~= Seq::empty());
    while index < context.len()
        invariant
            index <= context@.len(),
            all == words(context@),
            start == old(output)@,
            role_lines(
                start,
                context_labels(),
                all.take(index as int),
                predicates.texts(),
                terms.texts(),
            ) == Ok::<Seq<char>, Gap>(output@),
        decreases context.len() - index,
    {
        proof {
            let part = all.take(index + 1);
            assert(part.drop_last() =~= all.take(index as int));
            assert(part.last() == context@[index as int].word());
            if role_lines(start, context_labels(), part, predicates.texts(), terms.texts()) is Err {
                lemma_role_stops(
                    start,
                    context_labels(),
                    all,
                    predicates.texts(),
                    terms.texts(),
                    index + 1,
                );
            }
        }
        match write_statement(
            output,
            "context",
            "context-term",
            &context[index],
            predicates,
            terms,
        ) {
            Ok(_) => {},
            Err(message) => {
                return Err(message);
            },
        }
        index += 1;
    }
    assert(all.take(index as int) =~= all);
    Ok(())
}

proof fn lemma_single_role(
    before: Seq<char>,
    labels: Labels,
    word: Seq<int>,
    predicates: Map<u64, Seq<char>>,
    terms: Map<u64, Seq<char>>,
)
    ensures
        role_lines(before, labels, seq![word], predicates, terms) == statement_lines(
            before,
            labels,
            word,
            predicates,
            terms,
        ),
        role_lines(before, labels, Seq::empty(), predicates, terms) == Ok::<Seq<char>, Gap>(before),
{
    assert(seq![word].drop_last() =~= Seq::empty());
    assert(role_lines(before, labels, seq![word].drop_last(), predicates, terms) == Ok::<
        Seq<char>,
        Gap,
    >(before));
}

/// Appends the lines of one hit.
pub fn write_recall_hit(
    output: &mut String,
    episode: &EpisodeAtom,
    activation_ppm: u32,
    predicates: &ReportSymbols,
    terms: &ReportSymbols,
) -> (result: Result<(), String>)
    ensures
        match (
            hit_lines(
                old(output)@,
                *episode,
                activation_ppm,
                predicates.texts(),
                terms.texts(),
            ),
            result,
        ) {
            (Ok(text), Ok(_)) => final(output)@ == text,
            (Err(gap), Err(message)) => message@ == gap_text(gap),
            _ => false,
        },
{
    output.append("sequence ");
    push_decimal(output, episode.id().sequence());
    output.append("\nactivation_ppm ");
    push_decimal(output, activation_ppm as u64);
    output.append("\noccurred ");
    push_signed_decimal(output, episode.occurred_at().get());
    output.append("\nrecorded ");
    push_signed_decimal(output, episode.recorded_at().get());
    output.append("\nsource ");
    push_decimal(output, episode.source().get());
    output.append("\n");
    match write_context(output, episode.context(), predicates, terms) {
        Ok(_) => {},
        Err(message) => {
            return Err(message);
        },
    }
    match write_statement(
        output,
        "predicate",
        "term",
        episode.observation(),
        predicates,
        terms,
    ) {
        Ok(_) => {},
        Err(message) => {
            return Err(message);
        },
    }
    match episode.action() {
        Some(action) => {
            proof {
                lemma_single_role(
                    output@,
                    action_labels(),
                    action.word(),
                    predicates.texts(),
                    terms.texts(),
                );
            }
            match write_statement(output, "action", "action-term", action, predicates, terms) {
                Ok(_) => {},
                Err(message) => {
                    return Err(message);
                },
            }
        },
        None => {},
    }
    match episode.outcome() {
        Some(outcome) => {
            proof {
                lemma_single_role(
                    output@,
                    outcome_labels(),
                    outcome.word(),
                    predicates.texts(),
                    terms.texts(),
                );
            }
            write_statement(output, "outcome", "outcome-term", outcome, predicates, terms)
        },
        None => Ok(()),
    }
}

/// Formats hits, with a blank line between them.
pub fn format_recall(
    episodes: &[(&EpisodeAtom, u32)],
    predicates: &ReportSymbols,
    terms: &ReportSymbols,
) -> (result: Result<String, String>)
    ensures
        match (report_lines(episodes@, predicates.texts(), terms.texts()), result) {
            (Ok(expected), Ok(text)) => text@ == expected,
            (Err(gap), Err(message)) => message@ == gap_text(gap),
            _ => false,
        },
{
    let mut output = String::new();
    let mut index: usize = 0;
    assert(episodes@.take(0) =~= Seq::empty());
    while index < episodes.len()
        invariant
            index <= episodes@.len(),
            report_lines(episodes@.take(index as int), predicates.texts(), terms.texts()) == Ok::<
                Seq<char>,
                Gap,
            >(output@),
        decreases episodes.len() - index,
    {
        proof {
            let part = episodes@.take(index + 1);
            assert(part.drop_last() =~= episodes@.take(index as int));
            assert(part.last() == episodes@[index as int]);
            if report_lines(part, predicates.texts(), terms.texts()) is Err {
                lemma_report_stops(episodes@, predicates.texts(), terms.texts(), index + 1);
            }
        }
        if index != 0 {
            output.push('\n');
        }
        let (episode, ppm) = episodes[index];
        match write_recall_hit(&mut output, episode, ppm, predicates, terms) {
            Ok(_) => {},
            Err(message) => {
                return Err(message);
            },
        }
        index += 1;
    }
    assert(episodes@.take(index as int) =~= episodes@);
    Ok(output)
}

} // verus!
