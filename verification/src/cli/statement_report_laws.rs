//! What a report of statement episodes shows, and how `--quiet` is taken out.

use vstd::prelude::*;
use vstd::string::*;

use crate::cli::statement_add::without_quiet;
use crate::cli::statement_report::{
    arguments_of, hit_lines, predicates_of, report_lines, reported_words, role_lines,
    statement_lines, term_lines, terms_of, Labels,
};
use crate::episode::Episode;
use crate::sqlite::prepare_laws::have_texts;
use crate::statement::{EpisodeAtom, EpisodeContent};
use crate::text::{decimal, joined, signed_decimal};

verus! {

/// A label and a text on a line.
pub open spec fn labelled(label: Seq<char>, text: Seq<char>) -> Seq<char> {
    label + seq![' '] + text + seq!['\n']
}

/// The lines of a statement: its predicate, and each of its terms behind it.
pub open spec fn shown_statement(
    label: Seq<char>,
    term_label: Seq<char>,
    word: Seq<int>,
    predicates: Map<u64, Seq<char>>,
    terms: Map<u64, Seq<char>>,
) -> Seq<char> {
    labelled(label, predicates[word[0] as u64]) + arguments_of(word).map_values(
        |term: u64| labelled(term_label, terms[term]),
    ).flatten()
}

/// Every symbol of a statement has a text.
pub open spec fn statement_has_texts(
    word: Seq<int>,
    predicates: Map<u64, Seq<char>>,
    terms: Map<u64, Seq<char>>,
) -> bool {
    predicates.contains_key(word[0] as u64) && have_texts(arguments_of(word), terms)
}

/// Every symbol of the statements has a text.
pub open spec fn statements_have_texts(
    all: Seq<Seq<int>>,
    predicates: Map<u64, Seq<char>>,
    terms: Map<u64, Seq<char>>,
) -> bool {
    forall|i: int|
        0 <= i < all.len() ==> statement_has_texts(#[trigger] all[i], predicates, terms)
}

/// The arguments of a statement are what follows its predicate.
pub proof fn law_arguments_follow_the_predicate(word: Seq<int>, place: int)
    requires
        word.len() >= 1,
    ensures
        arguments_of(word).len() == word.len() - 1,
        0 <= place < word.len() - 1 ==> arguments_of(word)[place] == word[place + 1] as u64,
{
}

/// The terms of statements are collected statement by statement.
pub proof fn law_terms_are_collected_in_order(all: Seq<Seq<int>>)
    ensures
        terms_of(all) == all.map_values(|word: Seq<int>| arguments_of(word)).flatten(),
    decreases all.len(),
{
    let line = |word: Seq<int>| arguments_of(word);
    let lists = all.map_values(line);
    lists.lemma_flatten_and_flatten_alt_are_equivalent();
    if all.len() > 0 {
        law_terms_are_collected_in_order(all.drop_last());
        assert(all.drop_last().map_values(line) =~= lists.drop_last());
        lists.drop_last().lemma_flatten_and_flatten_alt_are_equivalent();
    }
}

/// The statements of a report are those of each episode, episode by episode:
/// the context, the observation, the action and the outcome. Their predicates
/// are asked for in that order.
pub proof fn law_reports_collect_every_statement(episodes: Seq<(&EpisodeAtom, u32)>)
    ensures
        reported_words(episodes) == episodes.map_values(
            |hit: (&EpisodeAtom, u32)| statements_of(hit.0.content()),
        ).flatten(),
        predicates_of(reported_words(episodes)).len() == reported_words(episodes).len(),
        forall|i: int|
            0 <= i < reported_words(episodes).len() ==> predicates_of(reported_words(episodes))[i]
                == (#[trigger] reported_words(episodes)[i])[0] as u64,
    decreases episodes.len(),
{
    let line = |hit: (&EpisodeAtom, u32)| statements_of(hit.0.content());
    let lists = episodes.map_values(line);
    lists.lemma_flatten_and_flatten_alt_are_equivalent();
    if episodes.len() > 0 {
        law_reports_collect_every_statement(episodes.drop_last());
        assert(episodes.drop_last().map_values(line) =~= lists.drop_last());
        lists.drop_last().lemma_flatten_and_flatten_alt_are_equivalent();
        let content = episodes.last().0.content();
        assert(crate::cli::statement_report::episode_words(content) =~= statements_of(content));
    }
}

/// The context statements, the observation, the action and the outcome.
pub open spec fn statements_of(content: EpisodeContent) -> Seq<Seq<int>> {
    content.context + seq![content.observation] + (match content.action {
        Some(word) => seq![word],
        None => Seq::empty(),
    }) + (match content.outcome {
        Some(word) => seq![word],
        None => Seq::empty(),
    })
}

proof fn lemma_line(before: Seq<char>, label: Seq<char>, text: Seq<char>)
    ensures
        before + label + " "@ + text + "\n"@ == before + labelled(label, text),
{
    reveal_strlit(" ");
    reveal_strlit("\n");
    assert(" "@ =~= seq![' ']);
    assert("\n"@ =~= seq!['\n']);
    assert(before + label + " "@ + text + "\n"@ =~= before + labelled(label, text));
}

proof fn lemma_term_lines(
    before: Seq<char>,
    label: Seq<char>,
    ids: Seq<u64>,
    terms: Map<u64, Seq<char>>,
)
    ensures
        term_lines(before, label, ids, terms) is Ok <==> have_texts(ids, terms),
        term_lines(before, label, ids, terms) matches Ok(text) ==> text == before + ids.map_values(
            |term: u64| labelled(label, terms[term]),
        ).flatten(),
    decreases ids.len(),
{
    let line = |term: u64| labelled(label, terms[term]);
    let lines = ids.map_values(line);
    lines.lemma_flatten_and_flatten_alt_are_equivalent();
    if ids.len() == 0 {
        assert(before + lines.flatten() =~= before);
    } else {
        let rest = ids.drop_last();
        lemma_term_lines(before, label, rest, terms);
        assert(ids[ids.len() - 1] == ids.last());
        assert(rest.map_values(line) =~= lines.drop_last());
        lines.drop_last().lemma_flatten_and_flatten_alt_are_equivalent();
        if have_texts(ids, terms) {
            assert forall|j: int| 0 <= j < rest.len() implies terms.contains_key(
                #[trigger] rest[j],
            ) by {
                assert(terms.contains_key(ids[j]));
            }
        }
        if term_lines(before, label, ids, terms) is Ok {
            let text = term_lines(before, label, rest, terms)->Ok_0;
            let last = labelled(label, terms[ids.last()]);
            assert forall|j: int| 0 <= j < ids.len() implies terms.contains_key(
                #[trigger] ids[j],
            ) by {
                if j < rest.len() {
                    assert(terms.contains_key(rest[j]));
                }
            }
            lemma_line(text, label, terms[ids.last()]);
            assert(lines.last() == last);
            assert((before + lines.drop_last().flatten_alt()) + last =~= before + (
            lines.drop_last().flatten_alt() + last));
        }
    }
}

/// A statement is shown whole: its predicate on a line, and each of its terms on
/// a line behind it. It is shown exactly if every symbol has a text.
pub proof fn law_statements_are_shown_whole(
    before: Seq<char>,
    labels: Labels,
    word: Seq<int>,
    predicates: Map<u64, Seq<char>>,
    terms: Map<u64, Seq<char>>,
)
    ensures
        statement_lines(before, labels, word, predicates, terms) is Ok <==> statement_has_texts(
            word,
            predicates,
            terms,
        ),
        statement_lines(before, labels, word, predicates, terms) matches Ok(text) ==> text
            == before + shown_statement(labels.predicate, labels.term, word, predicates, terms),
{
    let predicate = word[0] as u64;
    if predicates.contains_key(predicate) {
        lemma_line(before, labels.predicate, predicates[predicate]);
        let head = before + labelled(labels.predicate, predicates[predicate]);
        lemma_term_lines(head, labels.term, arguments_of(word), terms);
        let lines = arguments_of(word).map_values(
            |term: u64| labelled(labels.term, terms[term]),
        ).flatten();
        assert(head + lines =~= before + shown_statement(
            labels.predicate,
            labels.term,
            word,
            predicates,
            terms,
        ));
    }
}

/// The lines of statements in one role.
pub open spec fn shown_statements(
    label: Seq<char>,
    term_label: Seq<char>,
    all: Seq<Seq<int>>,
    predicates: Map<u64, Seq<char>>,
    terms: Map<u64, Seq<char>>,
) -> Seq<char> {
    all.map_values(
        |word: Seq<int>| shown_statement(label, term_label, word, predicates, terms),
    ).flatten()
}

/// The statements of a role are shown one after the other.
pub proof fn law_roles_are_shown_whole(
    before: Seq<char>,
    labels: Labels,
    all: Seq<Seq<int>>,
    predicates: Map<u64, Seq<char>>,
    terms: Map<u64, Seq<char>>,
)
    ensures
        role_lines(before, labels, all, predicates, terms) is Ok <==> statements_have_texts(
            all,
            predicates,
            terms,
        ),
        role_lines(before, labels, all, predicates, terms) matches Ok(text) ==> text == before
            + shown_statements(labels.predicate, labels.term, all, predicates, terms),
    decreases all.len(),
{
    let line = |word: Seq<int>|
        shown_statement(labels.predicate, labels.term, word, predicates, terms);
    let lines = all.map_values(line);
    lines.lemma_flatten_and_flatten_alt_are_equivalent();
    if all.len() == 0 {
        assert(before + lines.flatten() =~= before);
    } else {
        let rest = all.drop_last();
        let last = all.last();
        law_roles_are_shown_whole(before, labels, rest, predicates, terms);
        assert(all[all.len() - 1] == last);
        assert(rest.map_values(line) =~= lines.drop_last());
        lines.drop_last().lemma_flatten_and_flatten_alt_are_equivalent();
        if statements_have_texts(all, predicates, terms) {
            assert forall|i: int| 0 <= i < rest.len() implies statement_has_texts(
                #[trigger] rest[i],
                predicates,
                terms,
            ) by {
                assert(statement_has_texts(all[i], predicates, terms));
            }
        }
        if role_lines(before, labels, rest, predicates, terms) is Ok {
            let text = role_lines(before, labels, rest, predicates, terms)->Ok_0;
            law_statements_are_shown_whole(text, labels, last, predicates, terms);
            let block = shown_statement(labels.predicate, labels.term, last, predicates, terms);
            assert(lines.last() == block);
            assert((before + lines.drop_last().flatten_alt()) + block =~= before + (
            lines.drop_last().flatten_alt() + block));
        }
        if role_lines(before, labels, all, predicates, terms) is Ok {
            assert forall|i: int| 0 <= i < all.len() implies statement_has_texts(
                #[trigger] all[i],
                predicates,
                terms,
            ) by {
                if i < rest.len() {
                    assert(statement_has_texts(rest[i], predicates, terms));
                }
            }
        }
    }
}

/// The block of a hit: its sequence, its activation, both times, its source, and
/// its statements under the labels of their roles.
pub open spec fn shown_hit(
    episode: EpisodeAtom,
    ppm: u32,
    predicates: Map<u64, Seq<char>>,
    terms: Map<u64, Seq<char>>,
) -> Seq<char> {
    let content = episode.content();
    labelled("sequence"@, decimal(episode.identifier().position() as nat)) + labelled(
        "activation_ppm"@,
        decimal(ppm as nat),
    ) + labelled("occurred"@, signed_decimal(content.occurred_at.0 as int)) + labelled(
        "recorded"@,
        signed_decimal(content.recorded_at.0 as int),
    ) + labelled("source"@, decimal(content.source.0 as nat)) + shown_statements(
        "context"@,
        "context-term"@,
        content.context,
        predicates,
        terms,
    ) + shown_statement("predicate"@, "term"@, content.observation, predicates, terms) + (
    match content.action {
        Some(word) => shown_statement("action"@, "action-term"@, word, predicates, terms),
        None => Seq::empty(),
    }) + (match content.outcome {
        Some(word) => shown_statement("outcome"@, "outcome-term"@, word, predicates, terms),
        None => Seq::empty(),
    })
}

/// Every symbol of an episode has a text.
pub open spec fn episode_has_texts(
    episode: EpisodeAtom,
    predicates: Map<u64, Seq<char>>,
    terms: Map<u64, Seq<char>>,
) -> bool {
    let content = episode.content();
    &&& statements_have_texts(content.context, predicates, terms)
    &&& statement_has_texts(content.observation, predicates, terms)
    &&& content.action matches Some(word) ==> statement_has_texts(word, predicates, terms)
    &&& content.outcome matches Some(word) ==> statement_has_texts(word, predicates, terms)
}

proof fn lemma_header(
    before: Seq<char>,
    a: Seq<char>,
    b: Seq<char>,
    c: Seq<char>,
    d: Seq<char>,
    e: Seq<char>,
)
    ensures
        before + "sequence "@ + a + "\nactivation_ppm "@ + b + "\noccurred "@ + c + "\nrecorded "@
            + d + "\nsource "@ + e + "\n"@ == before + (labelled("sequence"@, a) + labelled(
            "activation_ppm"@,
            b,
        ) + labelled("occurred"@, c) + labelled("recorded"@, d) + labelled("source"@, e)),
{
    reveal_strlit("sequence ");
    reveal_strlit("sequence");
    reveal_strlit("\nactivation_ppm ");
    reveal_strlit("activation_ppm");
    reveal_strlit("\noccurred ");
    reveal_strlit("occurred");
    reveal_strlit("\nrecorded ");
    reveal_strlit("recorded");
    reveal_strlit("\nsource ");
    reveal_strlit("source");
    reveal_strlit("\n");
    assert("sequence "@ =~= "sequence"@ + seq![' ']);
    assert("\nactivation_ppm "@ =~= seq!['\n'] + "activation_ppm"@ + seq![' ']);
    assert("\noccurred "@ =~= seq!['\n'] + "occurred"@ + seq![' ']);
    assert("\nrecorded "@ =~= seq!['\n'] + "recorded"@ + seq![' ']);
    assert("\nsource "@ =~= seq!['\n'] + "source"@ + seq![' ']);
    assert("\n"@ =~= seq!['\n']);
    let one = before + "sequence "@ + a + "\nactivation_ppm "@;
    assert(one =~= before + labelled("sequence"@, a) + "activation_ppm"@ + seq![' ']);
    let two = one + b + "\noccurred "@;
    assert(two =~= before + (labelled("sequence"@, a) + labelled("activation_ppm"@, b))
        + "occurred"@ + seq![' ']);
    let three = two + c + "\nrecorded "@;
    assert(three =~= before + (labelled("sequence"@, a) + labelled("activation_ppm"@, b) + labelled(
        "occurred"@,
        c,
    )) + "recorded"@ + seq![' ']);
    let four = three + d + "\nsource "@;
    assert(four =~= before + (labelled("sequence"@, a) + labelled("activation_ppm"@, b) + labelled(
        "occurred"@,
        c,
    ) + labelled("recorded"@, d)) + "source"@ + seq![' ']);
    assert(four + e + "\n"@ =~= before + (labelled("sequence"@, a) + labelled(
        "activation_ppm"@,
        b,
    ) + labelled("occurred"@, c) + labelled("recorded"@, d) + labelled("source"@, e)));
}

proof fn lemma_optional(
    label: Seq<char>,
    term_label: Seq<char>,
    word: Option<Seq<int>>,
    predicates: Map<u64, Seq<char>>,
    terms: Map<u64, Seq<char>>,
)
    ensures
        ({
            let all = crate::cli::statement_report::optional_list(word);
            &&& shown_statements(label, term_label, all, predicates, terms) == match word {
                Some(word) => shown_statement(label, term_label, word, predicates, terms),
                None => Seq::empty(),
            }
            &&& statements_have_texts(all, predicates, terms) <==> (word matches Some(word)
                ==> statement_has_texts(word, predicates, terms))
        }),
{
    let all = crate::cli::statement_report::optional_list(word);
    let line = |word: Seq<int>| shown_statement(label, term_label, word, predicates, terms);
    let lines = all.map_values(line);
    lines.lemma_flatten_and_flatten_alt_are_equivalent();
    match word {
        Some(word) => {
            let block = shown_statement(label, term_label, word, predicates, terms);
            assert(all[0] == word);
            assert(lines.drop_last() =~= Seq::empty());
            assert(lines.drop_last().flatten_alt() =~= Seq::empty());
            assert(lines.last() == block);
            assert(Seq::<char>::empty() + block =~= block);
        },
        None => {
            assert(lines.flatten() =~= Seq::empty());
        },
    }
}

/// A hit is shown whole, and exactly if every symbol has a text.
pub proof fn law_statement_hits_are_shown_whole(
    before: Seq<char>,
    episode: EpisodeAtom,
    ppm: u32,
    predicates: Map<u64, Seq<char>>,
    terms: Map<u64, Seq<char>>,
)
    ensures
        hit_lines(before, episode, ppm, predicates, terms) is Ok <==> episode_has_texts(
            episode,
            predicates,
            terms,
        ),
        hit_lines(before, episode, ppm, predicates, terms) matches Ok(text) ==> text == before
            + shown_hit(episode, ppm, predicates, terms),
{
    let content = episode.content();
    let a = decimal(episode.identifier().position() as nat);
    let b = decimal(ppm as nat);
    let c = signed_decimal(content.occurred_at.0 as int);
    let d = signed_decimal(content.recorded_at.0 as int);
    let e = decimal(content.source.0 as nat);
    lemma_header(before, a, b, c, d, e);
    let header = labelled("sequence"@, a) + labelled("activation_ppm"@, b) + labelled(
        "occurred"@,
        c,
    ) + labelled("recorded"@, d) + labelled("source"@, e);
    let context = Labels { predicate: "context"@, term: "context-term"@ };
    let observation = Labels { predicate: "predicate"@, term: "term"@ };
    let action = Labels { predicate: "action"@, term: "action-term"@ };
    let outcome = Labels { predicate: "outcome"@, term: "outcome-term"@ };
    let actions = crate::cli::statement_report::optional_list(content.action);
    let outcomes = crate::cli::statement_report::optional_list(content.outcome);
    let first = before + header;
    law_roles_are_shown_whole(first, context, content.context, predicates, terms);
    lemma_optional("action"@, "action-term"@, content.action, predicates, terms);
    lemma_optional("outcome"@, "outcome-term"@, content.outcome, predicates, terms);
    if statements_have_texts(content.context, predicates, terms) {
        let one = shown_statements("context"@, "context-term"@, content.context, predicates, terms);
        let second = first + one;
        law_statements_are_shown_whole(second, observation, content.observation, predicates, terms);
        if statement_has_texts(content.observation, predicates, terms) {
            let two = shown_statement(
                "predicate"@,
                "term"@,
                content.observation,
                predicates,
                terms,
            );
            let third = second + two;
            law_roles_are_shown_whole(third, action, actions, predicates, terms);
            if statements_have_texts(actions, predicates, terms) {
                let three = shown_statements("action"@, "action-term"@, actions, predicates, terms);
                let fourth = third + three;
                law_roles_are_shown_whole(fourth, outcome, outcomes, predicates, terms);
                let four = shown_statements(
                    "outcome"@,
                    "outcome-term"@,
                    outcomes,
                    predicates,
                    terms,
                );
                assert(fourth + four =~= before + (header + one + two + three + four));
            }
        }
    }
}

/// A report shows every hit whole, in order, with an empty line between two hits.
pub proof fn law_statement_reports_show_every_hit(
    episodes: Seq<(&EpisodeAtom, u32)>,
    predicates: Map<u64, Seq<char>>,
    terms: Map<u64, Seq<char>>,
)
    ensures
        report_lines(episodes, predicates, terms) is Ok <==> all_have_texts(
            episodes,
            predicates,
            terms,
        ),
        report_lines(episodes, predicates, terms) matches Ok(text) ==> text == joined(
            episodes.map_values(
                |hit: (&EpisodeAtom, u32)| shown_hit(*hit.0, hit.1, predicates, terms),
            ),
            seq!['\n'],
        ),
    decreases episodes.len(),
{
    let show = |hit: (&EpisodeAtom, u32)| shown_hit(*hit.0, hit.1, predicates, terms);
    let blocks = episodes.map_values(show);
    if episodes.len() > 0 {
        let rest = episodes.drop_last();
        let last = episodes.last();
        assert(episodes[episodes.len() - 1] == last);
        law_statement_reports_show_every_hit(rest, predicates, terms);
        assert(rest.map_values(show) =~= blocks.drop_last());
        let block = shown_hit(*last.0, last.1, predicates, terms);
        assert(blocks.last() == block);
        if all_have_texts(episodes, predicates, terms) {
            assert forall|i: int| 0 <= i < rest.len() implies episode_has_texts(
                *(#[trigger] rest[i]).0,
                predicates,
                terms,
            ) by {
                assert(rest[i] == episodes[i]);
            }
        }
        if report_lines(rest, predicates, terms) is Ok {
            let text = report_lines(rest, predicates, terms)->Ok_0;
            let before = if episodes.len() == 1 {
                text
            } else {
                text.push('\n')
            };
            law_statement_hits_are_shown_whole(before, *last.0, last.1, predicates, terms);
            if episodes.len() == 1 {
                assert(before + block =~= block);
            } else {
                assert(before + block =~= text + seq!['\n'] + block);
            }
        }
        if report_lines(episodes, predicates, terms) is Ok {
            assert forall|i: int| 0 <= i < episodes.len() implies episode_has_texts(
                *(#[trigger] episodes[i]).0,
                predicates,
                terms,
            ) by {
                if i < rest.len() {
                    assert(rest[i] == episodes[i]);
                }
            }
        }
    }
}

/// Every symbol of the episodes has a text.
pub open spec fn all_have_texts(
    episodes: Seq<(&EpisodeAtom, u32)>,
    predicates: Map<u64, Seq<char>>,
    terms: Map<u64, Seq<char>>,
) -> bool {
    forall|i: int|
        0 <= i < episodes.len() ==> episode_has_texts(
            *(#[trigger] episodes[i]).0,
            predicates,
            terms,
        )
}

/// Options with their values, none of them `--quiet`.
pub open spec fn option_pairs(tokens: Seq<Option<Seq<char>>>) -> bool {
    &&& tokens.len() % 2 == 0
    &&& forall|i: int|
        0 <= i < tokens.len() && i % 2 == 0 ==> (#[trigger] tokens[i]) != Some("--quiet"@)
}

proof fn lemma_pairs_are_kept(
    kept: Seq<Option<Seq<char>>>,
    quiet: bool,
    tokens: Seq<Option<Seq<char>>>,
    rest: Seq<Option<Seq<char>>>,
)
    requires
        option_pairs(tokens),
    ensures
        without_quiet(kept, quiet, tokens + rest) == without_quiet(kept + tokens, quiet, rest),
    decreases tokens.len(),
{
    if tokens.len() == 0 {
        assert(tokens + rest =~= rest);
        assert(kept + tokens =~= kept);
    } else {
        let all = tokens + rest;
        let others = tokens.skip(2);
        let longer = kept.push(tokens[0]).push(tokens[1]);
        assert(tokens[0] != Some("--quiet"@));
        assert(all[0] == tokens[0] && all[1] == tokens[1]);
        assert(all.skip(2) =~= others + rest);
        assert forall|i: int| 0 <= i < others.len() && i % 2 == 0 implies (#[trigger] others[i])
            != Some("--quiet"@) by {
            assert(others[i] == tokens[i + 2]);
        }
        lemma_pairs_are_kept(longer, quiet, others, rest);
        assert(longer + others =~= kept + tokens);
    }
}

/// `--quiet` is taken out wherever it stands between the options, and all else
/// is kept; a second one is refused.
pub proof fn law_quiet_is_taken_out(
    before: Seq<Option<Seq<char>>>,
    after: Seq<Option<Seq<char>>>,
    rest: Seq<Option<Seq<char>>>,
)
    requires
        option_pairs(before),
        option_pairs(after),
    ensures
        ({
            let quiet = seq![Some("--quiet"@)];
            &&& without_quiet(Seq::empty(), false, before) == Ok::<
                (Seq<Option<Seq<char>>>, bool),
                Seq<char>,
            >((before, false))
            &&& without_quiet(Seq::empty(), false, before + (quiet + after)) == Ok::<
                (Seq<Option<Seq<char>>>, bool),
                Seq<char>,
            >((before + after, true))
            &&& without_quiet(
                Seq::empty(),
                false,
                before + (quiet + (after + (quiet + rest))),
            ) is Err
        }),
{
    let none = Seq::<Option<Seq<char>>>::empty();
    let quiet = seq![Some("--quiet"@)];
    lemma_pairs_are_kept(none, false, before, none);
    assert(before + none =~= before);
    assert(none + before =~= before);
    let one = quiet + after;
    lemma_pairs_are_kept(none, false, before, one);
    assert(one[0] == Some("--quiet"@));
    assert(one.skip(1) =~= after);
    lemma_pairs_are_kept(before, true, after, none);
    assert(after + none =~= after);
    let tail = quiet + rest;
    let two = quiet + (after + tail);
    lemma_pairs_are_kept(none, false, before, two);
    assert(two[0] == Some("--quiet"@));
    assert(two.skip(1) =~= after + tail);
    lemma_pairs_are_kept(before, true, after, tail);
    assert(tail[0] == Some("--quiet"@));
}

} // verus!
