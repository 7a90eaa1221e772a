//! What the program does for the arguments that ask for it.

use vstd::prelude::*;
use vstd::string::*;

use crate::cli::args::{answers, request_in, targets_in, Command, Page};
use crate::cli::attributes::{
    attribute_texts, no_flags, read_flags, AttributeText, FlagState,
};
use crate::cli::number::u64_in_text;
use crate::model::TimestampMs;
use crate::text::{decimal, joined, signed_decimal};
use crate::text_laws::{
    law_decimal_texts_are_read_back, law_joined_parts_are_parted_again,
    law_signed_texts_are_read_back,
};

verus! {

proof fn lemma_commands_differ()
    ensures
        "init"@ != "-h"@,
        "init"@ != "--help"@,
        "init"@ != "--version"@,
        "check"@ != "-h"@,
        "check"@ != "--help"@,
        "check"@ != "--version"@,
        "check"@ != "init"@,
        "add"@ != "-h"@,
        "add"@ != "--help"@,
        "add"@ != "--version"@,
        "add"@ != "init"@,
        "add"@ != "check"@,
        "recall"@ != "-h"@,
        "recall"@ != "--help"@,
        "recall"@ != "--version"@,
        "recall"@ != "init"@,
        "recall"@ != "check"@,
        "recall"@ != "add"@,
        "feedback"@ != "-h"@,
        "feedback"@ != "--help"@,
        "feedback"@ != "--version"@,
        "feedback"@ != "init"@,
        "feedback"@ != "check"@,
        "feedback"@ != "add"@,
        "feedback"@ != "recall"@,
        "--version"@ != "-h"@,
        "--version"@ != "--help"@,
{
    reveal_strlit("init");
    reveal_strlit("check");
    reveal_strlit("add");
    reveal_strlit("recall");
    reveal_strlit("feedback");
    reveal_strlit("-h");
    reveal_strlit("--help");
    reveal_strlit("--version");
    assert("init"@[0] == 'i' && "check"@[0] == 'c' && "add"@[0] == 'a');
    assert("recall"@[0] == 'r' && "feedback"@[0] == 'f');
    assert("-h"@[0] == '-' && "--help"@[0] == '-' && "--version"@[0] == '-');
    assert("-h"@.len() == 2 && "--help"@.len() == 6 && "--version"@.len() == 9);
}

proof fn lemma_options_differ()
    ensures
        "--helpful"@ != "--unhelpful"@,
        "--from"@ != "--query"@,
        "--attribute"@ != "--many"@,
        "--attribute"@ != "--quiet"@,
        "--attribute"@ != "--value"@,
        "--attribute"@ != "--timestamp"@,
        "--timestamp"@ != "--many"@,
        "--timestamp"@ != "--quiet"@,
        "--timestamp"@ != "--value"@,
        "--quiet"@ != "--many"@,
        "--value"@ != "--quiet"@,
{
    reveal_strlit("--helpful");
    reveal_strlit("--unhelpful");
    reveal_strlit("--from");
    reveal_strlit("--query");
    reveal_strlit("--attribute");
    reveal_strlit("--timestamp");
    reveal_strlit("--many");
    reveal_strlit("--quiet");
    reveal_strlit("--value");
    assert("--helpful"@[2] == 'h' && "--unhelpful"@[2] == 'u');
    assert("--from"@[2] == 'f' && "--query"@[2] == 'q');
    assert("--attribute"@[2] == 'a' && "--timestamp"@[2] == 't' && "--many"@[2] == 'm');
    assert("--quiet"@[2] == 'q' && "--value"@[2] == 'v');
}

/// The command line of an assessment.
pub open spec fn feedback_line(
    path: Option<Seq<char>>,
    source: Option<Seq<char>>,
    flag: Seq<char>,
    targets: Option<Seq<char>>,
) -> Seq<Option<Seq<char>>> {
    seq![Some("feedback"@), path, Some("--from"@), source, Some(flag), targets]
}

/// The decimal texts of numbers, parted by commas.
pub open spec fn number_list(numbers: Seq<u64>) -> Seq<char> {
    joined(numbers.map_values(|number: u64| decimal(number as nat)), seq![','])
}

proof fn lemma_numbers_are_listed(numbers: Seq<u64>)
    requires
        numbers.len() > 0,
    ensures
        targets_in(Some(number_list(numbers))) == Ok::<Seq<u64>, Seq<char>>(numbers),
{
    let parts = numbers.map_values(|number: u64| decimal(number as nat));
    assert forall|i: int, j: int| 0 <= i < parts.len() && 0 <= j < parts[i].len() implies (
    #[trigger] parts[i][j]) != ',' by {
        crate::text_laws::lemma_decimal_is_read_back(numbers[i] as nat);
        assert('0' <= decimal(numbers[i] as nat)[j] <= '9');
    }
    law_joined_parts_are_parted_again(parts, ',');
    let text = number_list(numbers);
    assert(text.len() > 0) by {
        if text.len() == 0 {
            assert(crate::text::pieces(text, ',') =~= seq![Seq::empty()]);
            assert(parts[0] == Seq::<char>::empty());
            crate::text_laws::lemma_decimal_is_read_back(numbers[0] as nat);
        }
    }
    lemma_sequences_of_numbers(numbers);
}

proof fn lemma_sequences_of_numbers(numbers: Seq<u64>)
    ensures
        crate::cli::args::sequences_in(numbers.map_values(|number: u64| decimal(number as nat)))
            == Ok::<Seq<u64>, Seq<char>>(numbers),
    decreases numbers.len(),
{
    let spell = |number: u64| decimal(number as nat);
    let parts = numbers.map_values(spell);
    if numbers.len() > 0 {
        let rest = numbers.drop_last();
        lemma_sequences_of_numbers(rest);
        assert(rest.map_values(spell) =~= parts.drop_last());
        law_decimal_texts_are_read_back(numbers.last() as nat);
        assert(parts.last() == decimal(numbers.last() as nat));
        assert(rest.push(numbers.last()) =~= numbers);
    } else {
        assert(numbers =~= Seq::empty());
    }
}

/// An assessment that is accepted behind `--helpful` is a helpful one, from the
/// given source to the given targets, and it is accepted if both are numbers.
pub proof fn law_helpful_feedback_is_helpful(
    path: Option<Seq<char>>,
    source: Option<Seq<char>>,
    targets: Option<Seq<char>>,
    result: Result<Command, String>,
)
    requires
        answers(result, request_in(feedback_line(path, source, "--helpful"@, targets))),
    ensures
        result matches Ok(command) ==> (command matches Command::Feedback {
            source_sequence,
            target_sequences,
            helpful,
        } && helpful && source is Some && u64_in_text(source->0) == Some(source_sequence)
            && targets_in(targets) == Ok::<Seq<u64>, Seq<char>>(target_sequences@)),
        result is Ok <==> source is Some && u64_in_text(source->0) is Some && targets_in(targets)
            is Ok,
{
    let line = feedback_line(path, source, "--helpful"@, targets);
    lemma_commands_differ();
    lemma_options_differ();
    let rest = line.skip(1);
    assert(rest[1] == line[2] && rest[2] == line[3] && rest[3] == line[4] && rest[4] == line[5]);
}

/// An assessment that is accepted behind `--unhelpful` is an unhelpful one, from
/// the given source to the given targets, and it is accepted if both are numbers.
pub proof fn law_unhelpful_feedback_is_unhelpful(
    path: Option<Seq<char>>,
    source: Option<Seq<char>>,
    targets: Option<Seq<char>>,
    result: Result<Command, String>,
)
    requires
        answers(result, request_in(feedback_line(path, source, "--unhelpful"@, targets))),
    ensures
        result matches Ok(command) ==> (command matches Command::Feedback {
            source_sequence,
            target_sequences,
            helpful,
        } && !helpful && source is Some && u64_in_text(source->0) == Some(source_sequence)
            && targets_in(targets) == Ok::<Seq<u64>, Seq<char>>(target_sequences@)),
        result is Ok <==> source is Some && u64_in_text(source->0) is Some && targets_in(targets)
            is Ok,
{
    let line = feedback_line(path, source, "--unhelpful"@, targets);
    lemma_commands_differ();
    lemma_options_differ();
    let rest = line.skip(1);
    assert(rest[1] == line[2] && rest[2] == line[3] && rest[3] == line[4] && rest[4] == line[5]);
}

/// Numbers that are written out are assessed: every target of the list in its
/// order, from the source.
pub proof fn law_feedback_reaches_the_listed_targets(
    path: Option<Seq<char>>,
    source: u64,
    targets: Seq<u64>,
    helpful: bool,
    result: Result<Command, String>,
)
    requires
        targets.len() > 0,
        answers(
            result,
            request_in(
                feedback_line(
                    path,
                    Some(decimal(source as nat)),
                    if helpful {
                        "--helpful"@
                    } else {
                        "--unhelpful"@
                    },
                    Some(number_list(targets)),
                ),
            ),
        ),
    ensures
        result matches Ok(Command::Feedback {
            source_sequence,
            target_sequences,
            helpful: assessment,
        }) && source_sequence == source && target_sequences@ == targets && assessment == helpful,
{
    law_decimal_texts_are_read_back(source as nat);
    lemma_numbers_are_listed(targets);
    if helpful {
        law_helpful_feedback_is_helpful(
            path,
            Some(decimal(source as nat)),
            Some(number_list(targets)),
            result,
        );
    } else {
        law_unhelpful_feedback_is_unhelpful(
            path,
            Some(decimal(source as nat)),
            Some(number_list(targets)),
            result,
        );
    }
}

/// An assessment under any other option is refused.
pub proof fn law_other_assessments_are_refused(
    path: Option<Seq<char>>,
    source: Option<Seq<char>>,
    flag: Seq<char>,
    targets: Option<Seq<char>>,
    result: Result<Command, String>,
)
    requires
        flag != "--helpful"@,
        flag != "--unhelpful"@,
        answers(result, request_in(feedback_line(path, source, flag, targets))),
    ensures
        result is Err,
{
    let line = feedback_line(path, source, flag, targets);
    lemma_commands_differ();
    let rest = line.skip(1);
    assert(rest[1] == line[2] && rest[3] == line[4]);
}

/// A query is recalled as it was given, for ten hits or for as many as the
/// limit says.
pub proof fn law_queries_are_recalled_as_given(
    path: Option<Seq<char>>,
    query: Seq<char>,
    limit: usize,
    plain: Result<Command, String>,
    limited: Result<Command, String>,
)
    requires
        answers(plain, request_in(seq![Some("recall"@), path, Some("--query"@), Some(query)])),
        answers(
            limited,
            request_in(
                seq![
                    Some("recall"@),
                    path,
                    Some("--query"@),
                    Some(query),
                    Some("--limit"@),
                    Some(decimal(limit as nat)),
                ],
            ),
        ),
    ensures
        plain matches Ok(Command::Recall { query: text, limit: hits }) && text@ == query && hits
            == 10,
        limited matches Ok(Command::Recall { query: text, limit: hits }) && text@ == query && hits
            == limit,
{
    lemma_commands_differ();
    lemma_options_differ();
    law_decimal_texts_are_read_back(limit as nat);
    let short = seq![Some("recall"@), path, Some("--query"@), Some(query)];
    let long = seq![
        Some("recall"@),
        path,
        Some("--query"@),
        Some(query),
        Some("--limit"@),
        Some(decimal(limit as nat)),
    ];
    let short_options = short.skip(1).skip(1);
    let long_options = long.skip(1).skip(1);
    assert(short_options[0] == short[2] && short_options[1] == short[3]);
    assert(long_options[0] == long[2] && long_options[1] == long[3] && long_options[2] == long[4]
        && long_options[3] == long[5]);
}

/// A source episode is recalled from as it was given, for ten hits or for as
/// many as the limit says.
pub proof fn law_sources_are_recalled_as_given(
    path: Option<Seq<char>>,
    source: u64,
    limit: usize,
    plain: Result<Command, String>,
    limited: Result<Command, String>,
)
    requires
        answers(
            plain,
            request_in(
                seq![Some("recall"@), path, Some("--from"@), Some(decimal(source as nat))],
            ),
        ),
        answers(
            limited,
            request_in(
                seq![
                    Some("recall"@),
                    path,
                    Some("--from"@),
                    Some(decimal(source as nat)),
                    Some("--limit"@),
                    Some(decimal(limit as nat)),
                ],
            ),
        ),
    ensures
        plain matches Ok(Command::RecallFrom { source_sequence, limit: hits }) && source_sequence
            == source && hits == 10,
        limited matches Ok(Command::RecallFrom { source_sequence, limit: hits })
            && source_sequence == source && hits == limit,
{
    lemma_commands_differ();
    lemma_options_differ();
    law_decimal_texts_are_read_back(source as nat);
    law_decimal_texts_are_read_back(limit as nat);
    let number = Some(decimal(source as nat));
    let short = seq![Some("recall"@), path, Some("--from"@), number];
    let long = seq![
        Some("recall"@),
        path,
        Some("--from"@),
        number,
        Some("--limit"@),
        Some(decimal(limit as nat)),
    ];
    let short_options = short.skip(1).skip(1);
    let long_options = long.skip(1).skip(1);
    assert(short_options[0] == short[2] && short_options[1] == short[3]);
    assert(long_options[0] == long[2] && long_options[1] == long[3] && long_options[2] == long[4]
        && long_options[3] == long[5]);
}

/// `init` and `check` with one path create and audit a store; without exactly
/// one argument they are refused.
pub proof fn law_stores_are_created_and_audited(
    path: Option<Seq<char>>,
    more: Seq<Option<Seq<char>>>,
    created: Result<Command, String>,
    audited: Result<Command, String>,
    overfull: Result<Command, String>,
)
    requires
        path != Some("-h"@),
        path != Some("--help"@),
        more.len() != 1,
        answers(created, request_in(seq![Some("init"@), path])),
        answers(audited, request_in(seq![Some("check"@), path])),
        answers(overfull, request_in(seq![Some("init"@)] + more)) || answers(
            overfull,
            request_in(seq![Some("check"@)] + more),
        ),
    ensures
        created matches Ok(Command::Init),
        audited matches Ok(Command::Check),
        overfull is Err,
{
    lemma_commands_differ();
    let create = seq![Some("init"@), path];
    let audit = seq![Some("check"@), path];
    assert(create.skip(1)[0] == path && audit.skip(1)[0] == path);
    let first = seq![Some("init"@)] + more;
    let second = seq![Some("check"@)] + more;
    assert(first.skip(1) =~= more && second.skip(1) =~= more);
    assert(first[0] == Some("init"@) && second[0] == Some("check"@));
}

/// Help and the version are printed when they are asked for, each command its
/// own help.
pub proof fn law_help_is_printed(
    flag: Seq<char>,
    root: Result<Command, String>,
    version: Result<Command, String>,
    init: Result<Command, String>,
    check: Result<Command, String>,
    add: Result<Command, String>,
    recall: Result<Command, String>,
    feedback: Result<Command, String>,
)
    requires
        flag == "-h"@ || flag == "--help"@,
        answers(root, request_in(seq![Some(flag)])),
        answers(version, request_in(seq![Some("--version"@)])),
        answers(init, request_in(seq![Some("init"@), Some(flag)])),
        answers(check, request_in(seq![Some("check"@), Some(flag)])),
        answers(add, request_in(seq![Some("add"@), Some(flag)])),
        answers(recall, request_in(seq![Some("recall"@), Some(flag)])),
        answers(feedback, request_in(seq![Some("feedback"@), Some(flag)])),
    ensures
        root matches Ok(Command::Print(Page::Root)),
        version matches Ok(Command::Print(Page::Version)),
        init matches Ok(Command::Print(Page::Init)),
        check matches Ok(Command::Print(Page::Check)),
        add matches Ok(Command::Print(Page::Add)),
        recall matches Ok(Command::Print(Page::Recall)),
        feedback matches Ok(Command::Print(Page::Feedback)),
{
    lemma_commands_differ();
    assert(seq![Some("init"@), Some(flag)].skip(1)[0] == Some(flag));
    assert(seq![Some("check"@), Some(flag)].skip(1)[0] == Some(flag));
    assert(seq![Some("add"@), Some(flag)].skip(1)[0] == Some(flag));
    assert(seq![Some("recall"@), Some(flag)].skip(1)[0] == Some(flag));
    assert(seq![Some("feedback"@), Some(flag)].skip(1)[0] == Some(flag));
}

/// Only the five commands are carried out.
pub proof fn law_unknown_commands_are_refused(
    tokens: Seq<Option<Seq<char>>>,
    result: Result<Command, String>,
)
    requires
        tokens.len() > 0 ==> tokens[0] != Some("init"@) && tokens[0] != Some("check"@)
            && tokens[0] != Some("add"@) && tokens[0] != Some("recall"@) && tokens[0] != Some(
            "feedback"@,
        ),
        tokens.len() == 1 ==> tokens[0] != Some("-h"@) && tokens[0] != Some("--help"@)
            && tokens[0] != Some("--version"@),
        answers(result, request_in(tokens)),
    ensures
        result is Err,
{
}

/// The options of values.
pub open spec fn value_flags(values: Seq<Seq<char>>) -> Seq<Option<Seq<char>>>
    decreases values.len(),
{
    if values.len() == 0 {
        Seq::empty()
    } else {
        seq![Some("--value"@), Some(values[0])] + value_flags(values.drop_first())
    }
}

/// The options of attributes: each with its key and its values.
pub open spec fn attribute_flags(attributes: Seq<AttributeText>) -> Seq<Option<Seq<char>>>
    decreases attributes.len(),
{
    if attributes.len() == 0 {
        Seq::empty()
    } else {
        seq![Some("--attribute"@), Some(attributes[0].0)] + value_flags(attributes[0].1)
            + attribute_flags(attributes.drop_first())
    }
}

/// The options of a timestamp.
pub open spec fn timestamp_flags(timestamp: Option<i64>) -> Seq<Option<Seq<char>>> {
    match timestamp {
        Some(timestamp) => seq![Some("--timestamp"@), Some(signed_decimal(timestamp as int))],
        None => Seq::empty(),
    }
}

/// The options that suppress output.
pub open spec fn quiet_flags(quiet: bool) -> Seq<Option<Seq<char>>> {
    if quiet {
        seq![Some("--quiet"@)]
    } else {
        Seq::empty()
    }
}

proof fn lemma_values_are_read(
    state: FlagState,
    values: Seq<Seq<char>>,
    rest: Seq<Option<Seq<char>>>,
    allow_quiet: bool,
)
    requires
        state.open,
        state.attributes.len() > 0,
    ensures
        read_flags(state, value_flags(values) + rest, allow_quiet) == read_flags(
            FlagState {
                attributes: state.attributes.drop_last().push(
                    (state.attributes.last().0, state.attributes.last().1 + values),
                ),
                ..state
            },
            rest,
            allow_quiet,
        ),
    decreases values.len(),
{
    let last = state.attributes.last();
    if values.len() == 0 {
        assert(value_flags(values) + rest =~= rest);
        assert(last.1 + values =~= last.1);
        assert(state.attributes.drop_last().push((last.0, last.1 + values)) =~= state.attributes);
    } else {
        lemma_options_differ();
        let tokens = value_flags(values) + rest;
        let next = FlagState {
            attributes: state.attributes.drop_last().push((last.0, last.1.push(values[0]))),
            ..state
        };
        assert(tokens[0] == Some("--value"@) && tokens[1] == Some(values[0]));
        assert(tokens.skip(2) =~= value_flags(values.drop_first()) + rest);
        lemma_values_are_read(next, values.drop_first(), rest, allow_quiet);
        assert(next.attributes.drop_last() =~= state.attributes.drop_last());
        assert(last.1.push(values[0]) + values.drop_first() =~= last.1 + values);
    }
}

proof fn lemma_attributes_are_read(
    state: FlagState,
    attributes: Seq<AttributeText>,
    allow_quiet: bool,
)
    requires
        !state.open || state.attributes.last().1.len() > 0,
        forall|i: int| 0 <= i < attributes.len() ==> (#[trigger] attributes[i]).1.len() > 0,
        state.attributes.len() + attributes.len() > 0,
    ensures
        read_flags(state, attribute_flags(attributes), allow_quiet) == Ok::<
            FlagState,
            Seq<char>,
        >(
            FlagState {
                attributes: state.attributes + attributes,
                open: state.open || attributes.len() > 0,
                ..state
            },
        ),
    decreases attributes.len(),
{
    if attributes.len() == 0 {
        assert(state.attributes + attributes =~= state.attributes);
    } else {
        lemma_options_differ();
        let first = attributes[0];
        let others = attributes.drop_first();
        let tokens = attribute_flags(attributes);
        let opened = FlagState {
            attributes: state.attributes.push((first.0, Seq::empty())),
            open: true,
            ..state
        };
        let filled = FlagState {
            attributes: state.attributes.push(first),
            open: true,
            ..state
        };
        assert(tokens[0] == Some("--attribute"@) && tokens[1] == Some(first.0));
        assert(tokens.skip(2) =~= value_flags(first.1) + attribute_flags(others));
        lemma_values_are_read(opened, first.1, attribute_flags(others), allow_quiet);
        assert(opened.attributes.drop_last() =~= state.attributes);
        assert(Seq::<Seq<char>>::empty() + first.1 =~= first.1);
        assert forall|i: int| 0 <= i < others.len() implies (#[trigger] others[i]).1.len() > 0 by {
            assert(others[i] == attributes[i + 1]);
        }
        lemma_attributes_are_read(filled, others, allow_quiet);
        assert(state.attributes.push(first) + others =~= state.attributes + attributes);
    }
}

/// The options of an episode are read back as its timestamp and its attributes,
/// every one with its key and all of its values in their order.
pub proof fn law_episode_options_are_read_back(
    timestamp: Option<i64>,
    attributes: Seq<AttributeText>,
    quiet: bool,
    allow_quiet: bool,
)
    requires
        attributes.len() > 0,
        forall|i: int| 0 <= i < attributes.len() ==> (#[trigger] attributes[i]).1.len() > 0,
        quiet ==> allow_quiet,
    ensures
        read_flags(
            no_flags(),
            quiet_flags(quiet) + timestamp_flags(timestamp) + attribute_flags(attributes),
            allow_quiet,
        ) == Ok::<FlagState, Seq<char>>(
            (FlagState { timestamp, attributes, open: true, quiet }),
        ),
{
    lemma_options_differ();
    let last = attribute_flags(attributes);
    let middle = timestamp_flags(timestamp) + last;
    let all = quiet_flags(quiet) + timestamp_flags(timestamp) + last;
    let start = FlagState { quiet, ..no_flags() };
    if quiet {
        assert(all[0] == Some("--quiet"@));
        assert(all.skip(1) =~= middle);
    } else {
        assert(all =~= middle);
    }
    assert(read_flags(no_flags(), all, allow_quiet) == read_flags(start, middle, allow_quiet));
    let timed = FlagState { timestamp, ..start };
    match timestamp {
        Some(value) => {
            law_signed_texts_are_read_back(value as int);
            assert(middle[0] == Some("--timestamp"@));
            assert(middle[1] == Some(signed_decimal(value as int)));
            assert(middle.skip(2) =~= last);
        },
        None => {
            assert(middle =~= last);
        },
    }
    lemma_attributes_are_read(timed, attributes, allow_quiet);
    assert(Seq::<AttributeText>::empty() + attributes =~= attributes);
}

/// `add` with the options of an episode appends that episode, and says so
/// unless it is told to be quiet.
pub proof fn law_episodes_are_added_as_given(
    path: Option<Seq<char>>,
    timestamp: Option<i64>,
    attributes: Seq<AttributeText>,
    quiet: bool,
    result: Result<Command, String>,
)
    requires
        attributes.len() > 0,
        forall|i: int| 0 <= i < attributes.len() ==> (#[trigger] attributes[i]).1.len() > 0,
        answers(
            result,
            request_in(
                seq![Some("add"@), path] + (quiet_flags(quiet) + timestamp_flags(timestamp)
                    + attribute_flags(attributes)),
            ),
        ),
    ensures
        result matches Ok(Command::Add { draft, quiet: silent }) && silent == quiet
            && draft.timestamp == (match timestamp {
            Some(value) => Some(TimestampMs(value)),
            None => None,
        }) && draft.attributes@.len() == attributes.len() && forall|i: int|
            0 <= i < attributes.len() ==> {
                let attribute = #[trigger] draft.attributes@[i];
                &&& attribute.key@ == attributes[i].0
                &&& attribute.values@.len() == attributes[i].1.len()
                &&& forall|j: int|
                    0 <= j < attributes[i].1.len() ==> (#[trigger] attribute.values@[j])@
                        == attributes[i].1[j]
            },
{
    lemma_commands_differ();
    lemma_options_differ();
    let flags = quiet_flags(quiet) + timestamp_flags(timestamp) + attribute_flags(attributes);
    let tokens = seq![Some("add"@), path] + flags;
    let rest = tokens.skip(1);
    law_episode_options_are_read_back(timestamp, attributes, quiet, true);
    assert(rest.skip(1) =~= flags);
    assert(tokens[0] == Some("add"@));
    assert(flags.len() > 0);
    assert(rest[1] == flags[0]);
    assert(attribute_flags(attributes)[0] == Some("--attribute"@));
    let draft = (result->Ok_0)->draft;
    assert(attribute_texts(draft.attributes@) == attributes);
    assert forall|i: int| 0 <= i < attributes.len() implies {
        let attribute = #[trigger] draft.attributes@[i];
        &&& attribute.key@ == attributes[i].0
        &&& attribute.values@.len() == attributes[i].1.len()
        &&& forall|j: int|
            0 <= j < attributes[i].1.len() ==> (#[trigger] attribute.values@[j])@
                == attributes[i].1[j]
    } by {
        let attribute = draft.attributes@[i];
        assert(attribute_texts(draft.attributes@)[i] == attribute@);
        assert forall|j: int| 0 <= j < attributes[i].1.len() implies (
        #[trigger] attribute.values@[j])@ == attributes[i].1[j] by {
            assert(attribute@.1[j] == attribute.values@[j]@);
        }
    }
}

/// `add --many` appends the rows of standard input, quietly if it is told so.
pub proof fn law_rows_are_added_as_given(
    path: Option<Seq<char>>,
    plain: Result<Command, String>,
    silent: Result<Command, String>,
)
    requires
        answers(plain, request_in(seq![Some("add"@), path, Some("--many"@)])),
        answers(
            silent,
            request_in(seq![Some("add"@), path, Some("--many"@), Some("--quiet"@)]),
        ),
    ensures
        plain matches Ok(Command::AddMany { quiet }) && !quiet,
        silent matches Ok(Command::AddMany { quiet }) && quiet,
{
    lemma_commands_differ();
    lemma_options_differ();
    let short = seq![Some("add"@), path, Some("--many"@)];
    let long = seq![Some("add"@), path, Some("--many"@), Some("--quiet"@)];
    assert(short.skip(1)[1] == Some("--many"@) && long.skip(1)[1] == Some("--many"@));
    assert(short.skip(1).skip(2) =~= Seq::empty());
    let options = long.skip(1).skip(2);
    assert(options =~= seq![Some("--quiet"@)]);
    assert(options.drop_last() =~= Seq::empty());
    reveal_with_fuel(crate::cli::args::many_options, 3);
}

} // verus!
