//! Episode rows of standard input.

use vstd::prelude::*;
use vstd::string::*;

use crate::cli::attributes::{
    holds_flags, no_flags, parse_episode_flags, read_flags, FlagState, TextEpisodeDraft,
};
use crate::cli::number::{token_texts, Token};
use crate::text::{decimal, push_decimal};
use crate::text_table::contents;

verus! {

/// The words of a line by the quoting rules of a POSIX shell, as the crate
/// `shlex` splits it; `None` if the quoting is erroneous.
pub uninterp spec fn shell_words(line: Seq<char>) -> Option<Seq<Seq<char>>>;

/// Words that may be absent, by their characters.
pub open spec fn optional_contents(words: Option<Vec<String>>) -> Option<Seq<Seq<char>>> {
    match words {
        Some(words) => Some(contents(words@)),
        None => None,
    }
}

/// Calls `shlex::split`, whose result depends on the line alone.
#[verifier::external_body]
fn split_words(line: &str) -> (words: Option<Vec<String>>)
    ensures
        optional_contents(words) == shell_words(line@),
{
    shlex::split(line)
}

/// The start of a message about a line.
pub open spec fn line_text(line_number: nat) -> Seq<char> {
    "add --many line "@ + decimal(line_number) + ": "@
}

/// Words as arguments.
pub open spec fn word_tokens(words: Seq<Seq<char>>) -> Seq<Option<Seq<char>>> {
    words.map_values(|word: Seq<char>| Some(word))
}

/// What a row says, `None` if it has no words, or what is wrong with it.
pub open spec fn row_in(line_number: nat, words: Option<Seq<Seq<char>>>) -> Result<
    Option<FlagState>,
    Seq<char>,
> {
    match words {
        None => Err(line_text(line_number) + "invalid shell quoting"@),
        Some(words) => if words.len() == 0 {
            Ok(None)
        } else {
            match read_flags(no_flags(), word_tokens(words), false) {
                Err(message) => Err(line_text(line_number) + message),
                Ok(state) => Ok(Some(state)),
            }
        },
    }
}

/// The row's outcome holds what the words say.
pub open spec fn holds_row(
    result: Result<Option<TextEpisodeDraft>, String>,
    expected: Result<Option<FlagState>, Seq<char>>,
) -> bool {
    match (expected, result) {
        (Ok(None), Ok(None)) => true,
        (Ok(Some(state)), Ok(Some(draft))) => holds_flags(draft, false, state),
        (Err(expected), Err(message)) => message@ == expected,
        _ => false,
    }
}

proof fn lemma_rows_stay_loud(
    state: FlagState,
    tokens: Seq<Option<Seq<char>>>,
)
    requires
        read_flags(state, tokens, false) is Ok,
    ensures
        read_flags(state, tokens, false)->Ok_0.quiet == state.quiet,
    decreases tokens.len(),
{
    if tokens.len() > 0 {
        let option = tokens[0]->0;
        if option != "--quiet"@ {
            let after = crate::cli::attributes::with_option(state, option, tokens[1])->Ok_0;
            lemma_rows_stay_loud(after, tokens.skip(2));
        }
    }
}

/// Parses the words of one row; a row without words is no episode.
pub fn parse_row(line_number: usize, words: Option<Vec<String>>) -> (result: Result<
    Option<TextEpisodeDraft>,
    String,
>)
    ensures
        holds_row(result, row_in(line_number as nat, optional_contents(words))),
{
    let ghost given = optional_contents(words);
    let words = match words {
        Some(words) => words,
        None => {
            let mut message = "add --many line ".to_owned();
            push_decimal(&mut message, line_number as u64);
            message.append(": ");
            message.append("invalid shell quoting");
            return Err(message);
        },
    };
    assert(contents(words@).len() == words@.len());
    if words.len() == 0 {
        return Ok(None);
    }
    let mut tokens: Vec<Token> = Vec::new();
    let mut index: usize = 0;
    while index < words.len()
        invariant
            index <= words@.len(),
            tokens@.len() == index,
            forall|i: int|
                0 <= i < index ==> (#[trigger] tokens@[i]) is Some && (tokens@[i]->0)@
                    == words@[i]@,
        decreases words.len() - index,
    {
        tokens.push(Some(words[index].clone()));
        index += 1;
    }
    proof {
        assert(token_texts(tokens@) =~= word_tokens(contents(words@)));
    }
    match parse_episode_flags(tokens.as_slice(), false) {
        Ok((draft, _)) => {
            proof {
                lemma_rows_stay_loud(no_flags(), token_texts(tokens@));
            }
            Ok(Some(draft))
        },
        Err(error) => {
            let mut message = "add --many line ".to_owned();
            push_decimal(&mut message, line_number as u64);
            message.append(": ");
            message.append(error.as_str());
            Err(message)
        },
    }
}

/// Parses one line of standard input.
pub fn parse_line(line_number: usize, line: &str) -> (result: Result<
    Option<TextEpisodeDraft>,
    String,
>)
    ensures
        holds_row(result, row_in(line_number as nat, shell_words(line@))),
{
    parse_row(line_number, split_words(line))
}

/// What the rows say, without those that have no words, or the first error.
pub open spec fn rows_in(lines: Seq<Seq<char>>) -> Result<Seq<FlagState>, Seq<char>>
    decreases lines.len(),
{
    if lines.len() == 0 {
        Ok(Seq::empty())
    } else {
        match rows_in(lines.drop_last()) {
            Err(message) => Err(message),
            Ok(states) => match row_in(lines.len(), shell_words(lines.last())) {
                Err(message) => Err(message),
                Ok(None) => Ok(states),
                Ok(Some(state)) => Ok(states.push(state)),
            },
        }
    }
}

proof fn lemma_rows_stop(lines: Seq<Seq<char>>, end: int)
    requires
        0 <= end <= lines.len(),
        rows_in(lines.take(end)) is Err,
    ensures
        rows_in(lines) == rows_in(lines.take(end)),
    decreases lines.len(),
{
    if end < lines.len() {
        assert(lines.drop_last().take(end) =~= lines.take(end));
        lemma_rows_stop(lines.drop_last(), end);
    } else {
        assert(lines.take(end) =~= lines);
    }
}

/// The drafts hold what the rows say.
pub open spec fn hold_rows(drafts: Seq<TextEpisodeDraft>, states: Seq<FlagState>) -> bool {
    &&& drafts.len() == states.len()
    &&& forall|i: int|
        0 <= i < drafts.len() ==> holds_flags(#[trigger] drafts[i], false, states[i])
}

/// Parses every line of standard input.
pub fn parse_lines(lines: &[String]) -> (result: Result<Vec<TextEpisodeDraft>, String>)
    ensures
        match (rows_in(contents(lines@)), result) {
            (Ok(states), Ok(drafts)) => hold_rows(drafts@, states),
            (Err(expected), Err(message)) => message@ == expected,
            _ => false,
        },
{
    let ghost all = contents(lines@);
    let ghost mut states: Seq<FlagState> = Seq::empty();
    let mut drafts: Vec<TextEpisodeDraft> = Vec::new();
    let mut index: usize = 0;
    assert(all.take(0) =~= Seq::empty());
    while index < lines.len()
        invariant
            index <= lines@.len(),
            all == contents(lines@),
            rows_in(all.take(index as int)) == Ok::<Seq<FlagState>, Seq<char>>(states),
            hold_rows(drafts@, states),
        decreases lines.len() - index,
    {
        proof {
            let part = all.take(index + 1);
            assert(part.drop_last() =~= all.take(index as int));
            assert(part.last() == lines@[index as int]@);
            if rows_in(part) is Err {
                lemma_rows_stop(all, index + 1);
            }
        }
        match parse_line(index + 1, lines[index].as_str()) {
            Err(message) => {
                return Err(message);
            },
            Ok(None) => {},
            Ok(Some(draft)) => {
                proof {
                    let state = row_in(
                        (index + 1) as nat,
                        shell_words(lines@[index as int]@),
                    )->Ok_0->0;
                    states = states.push(state);
                }
                drafts.push(draft);
            },
        }
        index += 1;
    }
    assert(all.take(index as int) =~= all);
    Ok(drafts)
}

/// Requires at least one episode row.
pub fn require_drafts(drafts: &[TextEpisodeDraft]) -> (result: Result<(), String>)
    ensures
        match result {
            Ok(_) => drafts@.len() > 0,
            Err(message) => drafts@.len() == 0 && message@
                == "add --many requires at least one non-empty input line"@,
        },
{
    if drafts.len() == 0 {
        return Err("add --many requires at least one non-empty input line".to_owned());
    }
    Ok(())
}

} // verus!
