//! Options of `add` for statement episodes.

use vstd::prelude::*;
use vstd::string::*;

use crate::cli::number::{token_text, token_texts, Token};
use crate::cli::statements::{
    holds_flags, no_flags, parse_episode_flags, read_flags, FlagState, TextEpisodeDraft,
};
use crate::text::same_text;

verus! {

/// The tokens that belong to the episode behind those kept, and whether
/// `--quiet` occurs where an option is expected. The token after an option is
/// its value, whatever it says.
pub open spec fn without_quiet(
    kept: Seq<Option<Seq<char>>>,
    quiet: bool,
    tokens: Seq<Option<Seq<char>>>,
) -> Result<(Seq<Option<Seq<char>>>, bool), Seq<char>>
    decreases tokens.len(),
{
    if tokens.len() == 0 {
        Ok((kept, quiet))
    } else if tokens[0] == Some("--quiet"@) {
        if quiet {
            Err("`--quiet` may be specified only once"@)
        } else {
            without_quiet(kept, true, tokens.skip(1))
        }
    } else if tokens.len() == 1 {
        Ok((kept.push(tokens[0]), quiet))
    } else {
        without_quiet(kept.push(tokens[0]).push(tokens[1]), quiet, tokens.skip(2))
    }
}

fn copy_token(token: &Token) -> (copy: Token)
    ensures
        token_text(copy) == token_text(*token),
{
    match token {
        Some(text) => Some(text.clone()),
        None => None,
    }
}

fn is_quiet(token: &Token) -> (result: bool)
    ensures
        result == (token_text(*token) == Some("--quiet"@)),
{
    match token {
        Some(text) => same_text(text.as_str(), "--quiet"),
        None => false,
    }
}

/// Takes `--quiet` out of the options of `add`.
pub fn extract_quiet(tokens: &[Token]) -> (result: Result<(Vec<Token>, bool), String>)
    ensures
        match (without_quiet(Seq::empty(), false, token_texts(tokens@)), result) {
            (Ok((kept, quiet)), Ok(found)) => token_texts(found.0@) == kept && found.1 == quiet,
            (Err(expected), Err(message)) => message@ == expected,
            _ => false,
        },
{
    let ghost texts = token_texts(tokens@);
    let mut kept: Vec<Token> = Vec::new();
    let mut quiet = false;
    let mut index: usize = 0;
    proof {
        assert(texts.skip(0) =~= texts);
        assert(token_texts(kept@) =~= Seq::empty());
    }
    while index < tokens.len()
        invariant
            index <= tokens@.len(),
            texts == token_texts(tokens@),
            without_quiet(token_texts(kept@), quiet, texts.skip(index as int)) == without_quiet(
                Seq::empty(),
                false,
                texts,
            ),
        decreases tokens.len() - index,
    {
        let ghost before = token_texts(kept@);
        let ghost rest = texts.skip(index as int);
        assert(rest[0] == token_text(tokens@[index as int]));
        if is_quiet(&tokens[index]) {
            if quiet {
                return Err("`--quiet` may be specified only once".to_owned());
            }
            quiet = true;
            index += 1;
            assert(rest.skip(1) =~= texts.skip(index as int));
        } else {
            kept.push(copy_token(&tokens[index]));
            assert(token_texts(kept@) =~= before.push(rest[0]));
            index += 1;
            if index < tokens.len() {
                kept.push(copy_token(&tokens[index]));
                assert(rest[1] == token_text(tokens@[index as int]));
                assert(token_texts(kept@) =~= before.push(rest[0]).push(rest[1]));
                index += 1;
                assert(rest.skip(2) =~= texts.skip(index as int));
            }
        }
    }
    Ok((kept, quiet))
}

/// What the options of `add` say: the episode's flags and `--quiet`.
pub open spec fn added_flags(tokens: Seq<Option<Seq<char>>>) -> Result<
    (FlagState, bool),
    Seq<char>,
> {
    match without_quiet(Seq::empty(), false, tokens) {
        Err(message) => Err(message),
        Ok((kept, quiet)) => match read_flags(no_flags(), kept) {
            Err(message) => Err(message),
            Ok(state) => Ok((state, quiet)),
        },
    }
}

/// Reads the options of `add` for one statement episode.
pub fn parse_add_options(tokens: &[Token]) -> (result: Result<(TextEpisodeDraft, bool), String>)
    ensures
        match (added_flags(token_texts(tokens@)), result) {
            (Ok((state, quiet)), Ok(found)) => holds_flags(found.0, state) && found.1 == quiet,
            (Err(expected), Err(message)) => message@ == expected,
            _ => false,
        },
{
    match extract_quiet(tokens) {
        Ok((kept, quiet)) => match parse_episode_flags(kept.as_slice()) {
            Ok(draft) => Ok((draft, quiet)),
            Err(message) => Err(message),
        },
        Err(message) => Err(message),
    }
}

} // verus!
