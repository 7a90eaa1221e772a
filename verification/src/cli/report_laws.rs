//! What a report shows, and which rows of standard input become episodes.

use vstd::prelude::*;
use vstd::string::*;

use crate::attribute::EpisodeAtom;
use crate::cli::args_laws::{
    attribute_flags, law_episode_options_are_read_back, timestamp_flags,
};
use crate::cli::attributes::{no_flags, read_flags, AttributeText, FlagState};
use crate::cli::report::{
    attribute_lines, hit_lines, report_lines, reported_symbols, sequence_lines, unresolved,
    value_lines,
};
use crate::cli::rows::{row_in, rows_in, shell_words, word_tokens};
use crate::episode::Episode;
use crate::model::AtomId;
use crate::sqlite::prepare::symbols_of;
use crate::sqlite::prepare_laws::{all_have_texts, have_texts};
use crate::text::{decimal, joined, signed_decimal};

verus! {

/// The line of a value.
pub open spec fn value_line(id: u64, texts: Map<u64, Seq<char>>) -> Seq<char> {
    "value "@ + texts[id] + seq!['\n']
}

/// The lines of a key and its values.
pub open spec fn group_lines(group: (u64, Seq<u64>), texts: Map<u64, Seq<char>>) -> Seq<char> {
    "attribute "@ + texts[group.0] + seq!['\n'] + group.1.map_values(
        |value: u64| value_line(value, texts),
    ).flatten()
}

proof fn lemma_value_lines(before: Seq<char>, values: Seq<u64>, texts: Map<u64, Seq<char>>)
    ensures
        value_lines(before, values, texts) is Ok <==> have_texts(values, texts),
        value_lines(before, values, texts) matches Ok(text) ==> text == before
            + values.map_values(|value: u64| value_line(value, texts)).flatten(),
    decreases values.len(),
{
    reveal_strlit("\n");
    let line = |value: u64| value_line(value, texts);
    let lines = values.map_values(line);
    lines.lemma_flatten_and_flatten_alt_are_equivalent();
    if values.len() == 0 {
        assert(before + lines.flatten() =~= before);
    } else {
        let rest = values.drop_last();
        lemma_value_lines(before, rest, texts);
        assert(values[values.len() - 1] == values.last());
        assert(rest.map_values(line) =~= lines.drop_last());
        rest.map_values(line).lemma_flatten_and_flatten_alt_are_equivalent();
        if have_texts(values, texts) {
            assert forall|j: int| 0 <= j < rest.len() implies texts.contains_key(
                #[trigger] rest[j],
            ) by {
                assert(texts.contains_key(values[j]));
            }
        }
        if value_lines(before, values, texts) is Ok {
            let text = value_lines(before, rest, texts)->Ok_0;
            let last = value_line(values.last(), texts);
            assert forall|j: int| 0 <= j < values.len() implies texts.contains_key(
                #[trigger] values[j],
            ) by {
                if j < rest.len() {
                    assert(texts.contains_key(rest[j]));
                }
            }
            assert("\n"@ =~= seq!['\n']);
            assert(text + "value "@ + texts[values.last()] + "\n"@ =~= text + last);
            assert(lines.last() == last);
            assert((before + lines.drop_last().flatten_alt()) + last =~= before + (
            lines.drop_last().flatten_alt() + last));
        }
    }
}

/// The attributes of an episode are shown whole: each key on a line, and each of
/// its values on a line behind it. They are shown exactly if every symbol has a text.
pub proof fn law_attributes_are_shown_whole(
    before: Seq<char>,
    all: Seq<(u64, Seq<u64>)>,
    texts: Map<u64, Seq<char>>,
)
    ensures
        attribute_lines(before, all, texts) is Ok <==> all_have_texts(all, texts),
        attribute_lines(before, all, texts) matches Ok(text) ==> text == before + all.map_values(
            |group: (u64, Seq<u64>)| group_lines(group, texts),
        ).flatten(),
    decreases all.len(),
{
    reveal_strlit("\n");
    let line = |group: (u64, Seq<u64>)| group_lines(group, texts);
    let lines = all.map_values(line);
    lines.lemma_flatten_and_flatten_alt_are_equivalent();
    if all.len() == 0 {
        assert(before + lines.flatten() =~= before);
    } else {
        let rest = all.drop_last();
        let last = all.last();
        assert(all[all.len() - 1] == last);
        law_attributes_are_shown_whole(before, rest, texts);
        assert(rest.map_values(line) =~= lines.drop_last());
        rest.map_values(line).lemma_flatten_and_flatten_alt_are_equivalent();
        if all_have_texts(all, texts) {
            assert forall|i: int| 0 <= i < rest.len() implies texts.contains_key(
                (#[trigger] rest[i]).0,
            ) && have_texts(rest[i].1, texts) by {
                assert(texts.contains_key(all[i].0));
            }
        }
        if attribute_lines(before, rest, texts) is Ok && texts.contains_key(last.0) {
            let text = attribute_lines(before, rest, texts)->Ok_0;
            let head = text + "attribute "@ + texts[last.0] + "\n"@;
            lemma_value_lines(head, last.1, texts);
            let values = last.1.map_values(|value: u64| value_line(value, texts)).flatten();
            assert("\n"@ =~= seq!['\n']);
            assert(head + values =~= text + group_lines(last, texts));
            assert(lines.last() == group_lines(last, texts));
            let start = lines.drop_last().flatten_alt();
            assert((before + start) + group_lines(last, texts) =~= before + (start + group_lines(
                last,
                texts,
            )));
        }
        if attribute_lines(before, all, texts) is Ok {
            assert forall|i: int| 0 <= i < all.len() implies texts.contains_key(
                (#[trigger] all[i]).0,
            ) && have_texts(all[i].1, texts) by {
                if i < rest.len() {
                    assert(texts.contains_key(rest[i].0));
                }
            }
        }
    }
}

/// The block of one hit: its sequence, its activation and its timestamp, each on
/// a line, and its attributes.
pub open spec fn hit_block(
    episode: EpisodeAtom,
    ppm: u32,
    texts: Map<u64, Seq<char>>,
) -> Seq<char> {
    "sequence "@ + decimal(episode.identifier().position() as nat) + seq!['\n']
        + "activation_ppm "@ + decimal(ppm as nat) + seq!['\n'] + "timestamp "@ + signed_decimal(
        episode.content().timestamp.0 as int,
    ) + seq!['\n'] + episode.groups().map_values(
        |group: (u64, Seq<u64>)| group_lines(group, texts),
    ).flatten()
}

/// A hit is shown by its block behind the text before it.
pub proof fn law_hits_are_shown_whole(
    before: Seq<char>,
    episode: EpisodeAtom,
    ppm: u32,
    texts: Map<u64, Seq<char>>,
)
    ensures
        hit_lines(before, episode, ppm, texts) is Ok <==> all_have_texts(episode.groups(), texts),
        hit_lines(before, episode, ppm, texts) matches Ok(text) ==> text == before + hit_block(
            episode,
            ppm,
            texts,
        ),
{
    reveal_strlit("\n");
    reveal_strlit("\nactivation_ppm ");
    reveal_strlit("\ntimestamp ");
    reveal_strlit("activation_ppm ");
    reveal_strlit("timestamp ");
    let number = decimal(episode.identifier().position() as nat);
    let share = decimal(ppm as nat);
    let time = signed_decimal(episode.content().timestamp.0 as int);
    let head = before + "sequence "@ + number + "\nactivation_ppm "@ + share + "\ntimestamp "@
        + time + "\n"@;
    law_attributes_are_shown_whole(head, episode.groups(), texts);
    let groups = episode.groups().map_values(
        |group: (u64, Seq<u64>)| group_lines(group, texts),
    ).flatten();
    assert("\n"@ =~= seq!['\n']);
    assert("\nactivation_ppm "@ =~= seq!['\n'] + "activation_ppm "@);
    assert("\ntimestamp "@ =~= seq!['\n'] + "timestamp "@);
    assert(head + groups =~= before + hit_block(episode, ppm, texts));
}

/// A report shows every hit in order, with a blank line between two of them, and
/// nothing without hits. It is given exactly if every symbol has a text.
pub proof fn law_reports_show_every_hit(
    episodes: Seq<(&EpisodeAtom, u32)>,
    texts: Map<u64, Seq<char>>,
)
    ensures
        report_lines(episodes, texts) is Ok <==> forall|i: int|
            0 <= i < episodes.len() ==> all_have_texts((#[trigger] episodes[i]).0.groups(), texts),
        report_lines(episodes, texts) matches Ok(text) ==> text == joined(
            episodes.map_values(
                |hit: (&EpisodeAtom, u32)| hit_block(*hit.0, hit.1, texts),
            ),
            seq!['\n'],
        ),
    decreases episodes.len(),
{
    let show = |hit: (&EpisodeAtom, u32)| hit_block(*hit.0, hit.1, texts);
    let blocks = episodes.map_values(show);
    if episodes.len() > 0 {
        let rest = episodes.drop_last();
        let last = episodes.last();
        assert(episodes[episodes.len() - 1] == last);
        law_reports_show_every_hit(rest, texts);
        assert(rest.map_values(show) =~= blocks.drop_last());
        assert(blocks.last() == hit_block(*last.0, last.1, texts));
        if forall|i: int|
            0 <= i < episodes.len() ==> all_have_texts((#[trigger] episodes[i]).0.groups(), texts) {
            assert forall|i: int| 0 <= i < rest.len() implies all_have_texts(
                (#[trigger] rest[i]).0.groups(),
                texts,
            ) by {
                assert(rest[i] == episodes[i]);
                assert(all_have_texts(episodes[i].0.groups(), texts));
            }
        }
        if report_lines(rest, texts) is Ok {
            let text = report_lines(rest, texts)->Ok_0;
            let before = if episodes.len() == 1 {
                text
            } else {
                text.push('\n')
            };
            law_hits_are_shown_whole(before, *last.0, last.1, texts);
            let block = hit_block(*last.0, last.1, texts);
            if episodes.len() == 1 {
                assert(before + block =~= block);
            } else {
                assert(before + block =~= text + seq!['\n'] + block);
            }
        }
        if report_lines(episodes, texts) is Ok {
            assert forall|i: int| 0 <= i < episodes.len() implies all_have_texts(
                (#[trigger] episodes[i]).0.groups(),
                texts,
            ) by {
                if i < rest.len() {
                    assert(rest[i] == episodes[i]);
                    assert(all_have_texts(rest[i].0.groups(), texts));
                }
            }
        }
    }
}

/// The sequences of added episodes are shown one to a line, in order.
pub proof fn law_added_sequences_are_shown(ids: Seq<AtomId>)
    ensures
        sequence_lines(ids) == ids.map_values(
            |id: AtomId| decimal(id.position() as nat) + seq!['\n'],
        ).flatten(),
    decreases ids.len(),
{
    reveal_strlit("\n");
    let line = |id: AtomId| decimal(id.position() as nat) + seq!['\n'];
    let lines = ids.map_values(line);
    lines.lemma_flatten_and_flatten_alt_are_equivalent();
    if ids.len() > 0 {
        let rest = ids.drop_last();
        law_added_sequences_are_shown(rest);
        assert(rest.map_values(line) =~= lines.drop_last());
        rest.map_values(line).lemma_flatten_and_flatten_alt_are_equivalent();
        assert("\n"@ =~= seq!['\n']);
        assert(lines.last() == decimal(ids.last().position() as nat) + seq!['\n']);
        assert(sequence_lines(rest) + decimal(ids.last().position() as nat) + "\n"@
            =~= lines.drop_last().flatten_alt() + lines.last());
    }
}

/// A line without words is no episode, a line with the options of an episode is
/// that episode behind those of the lines before it, and a line that is wrong
/// makes the whole input wrong.
pub proof fn law_rows_become_episodes(
    lines: Seq<Seq<char>>,
    line: Seq<char>,
    timestamp: Option<i64>,
    attributes: Seq<AttributeText>,
)
    requires
        attributes.len() > 0,
        forall|i: int| 0 <= i < attributes.len() ==> (#[trigger] attributes[i]).1.len() > 0,
    ensures
        rows_in(Seq::empty()) == Ok::<Seq<FlagState>, Seq<char>>(Seq::empty()),
        shell_words(line) == Some(Seq::<Seq<char>>::empty()) ==> rows_in(lines.push(line))
            == rows_in(lines),
        rows_in(lines) is Ok && shell_words(line) is Some && word_tokens(shell_words(line)->0)
            == timestamp_flags(timestamp) + attribute_flags(attributes) ==> rows_in(
            lines.push(line),
        ) == Ok::<Seq<FlagState>, Seq<char>>(
            rows_in(lines)->Ok_0.push(
                (FlagState { timestamp, attributes, open: true, quiet: false }),
            ),
        ),
        shell_words(line) is None ==> rows_in(lines.push(line)) is Err,
        rows_in(lines) is Err ==> rows_in(lines.push(line)) == rows_in(lines),
{
    assert(lines.push(line).drop_last() =~= lines);
    law_episode_options_are_read_back(timestamp, attributes, false, false);
    let flags = timestamp_flags(timestamp) + attribute_flags(attributes);
    assert(Seq::<Option<Seq<char>>>::empty() + timestamp_flags(timestamp) =~= timestamp_flags(
        timestamp,
    ));
    assert(attribute_flags(attributes).len() > 0);
    if shell_words(line) is Some && word_tokens(shell_words(line)->0) == flags {
        assert(shell_words(line)->0.len() == flags.len());
    }
}

/// A line that is wrong is told with its number, counted from one.
pub proof fn law_wrong_rows_are_told_by_their_number(
    lines: Seq<Seq<char>>,
    line: Seq<char>,
    message: Seq<char>,
)
    requires
        rows_in(lines) is Ok,
    ensures
        shell_words(line) is None ==> rows_in(lines.push(line)) == Err::<Seq<FlagState>, Seq<char>>(
            "add --many line "@ + decimal(lines.len() + 1) + ": "@ + "invalid shell quoting"@,
        ),
        shell_words(line) is Some && shell_words(line)->0.len() > 0 && read_flags(
            no_flags(),
            word_tokens(shell_words(line)->0),
            false,
        ) == Err::<FlagState, Seq<char>>(message) ==> rows_in(lines.push(line)) == Err::<
            Seq<FlagState>,
            Seq<char>,
        >("add --many line "@ + decimal(lines.len() + 1) + ": "@ + message),
{
    assert(lines.push(line).drop_last() =~= lines);
}

/// A symbol is asked for a report exactly if it is a key or a value of one of
/// the episodes.
pub proof fn law_reports_ask_for_every_symbol(episodes: Seq<(&EpisodeAtom, u32)>, id: u64)
    ensures
        reported_symbols(episodes).contains(id) <==> exists|i: int|
            0 <= i < episodes.len() && symbols_of((#[trigger] episodes[i]).0.groups()).contains(id),
    decreases episodes.len(),
{
    if episodes.len() > 0 {
        let rest = episodes.drop_last();
        let last = symbols_of(episodes.last().0.groups());
        law_reports_ask_for_every_symbol(rest, id);
        let before = reported_symbols(rest);
        let all = reported_symbols(episodes);
        assert(all == before + last);
        assert(episodes[episodes.len() - 1] == episodes.last());
        if before.contains(id) {
            assert(all[before.index_of(id)] == id);
            let i = choose|i: int|
                0 <= i < rest.len() && symbols_of((#[trigger] rest[i]).0.groups()).contains(id);
            assert(episodes[i] == rest[i]);
        }
        if last.contains(id) {
            assert(all[before.len() + last.index_of(id)] == id);
        }
        if all.contains(id) {
            let k = all.index_of(id);
            if k < before.len() {
                assert(before[k] == id);
            } else {
                assert(last[k - before.len()] == id);
            }
        }
        if exists|i: int|
            0 <= i < episodes.len() && symbols_of((#[trigger] episodes[i]).0.groups()).contains(
                id,
            ) {
            let i = choose|i: int|
                0 <= i < episodes.len() && symbols_of((#[trigger] episodes[i]).0.groups()).contains(
                    id,
                );
            if i < rest.len() {
                assert(rest[i] == episodes[i]);
            }
        }
    }
}

/// A symbol without a text is told by its kind and its number.
pub proof fn law_unresolved_symbols_are_told(kind: Seq<char>, id: u64)
    ensures
        unresolved(kind, id) == "stored episode references unresolved "@ + kind + " "@ + decimal(
            id as nat,
        ),
{
}

} // verus!
