//! Tokens and decimal numbers of the command line.

use vstd::prelude::*;
use vstd::string::*;

use crate::text::list_chars;

verus! {

/// One argument; `None` if it is not valid UTF-8.
pub type Token = Option<String>;

/// An argument's characters.
pub open spec fn token_text(token: Token) -> Option<Seq<char>> {
    match token {
        Some(text) => Some(text@),
        None => None,
    }
}

/// The characters of arguments.
pub open spec fn token_texts(tokens: Seq<Token>) -> Seq<Option<Seq<char>>> {
    tokens.map_values(|token: Token| token_text(token))
}

/// The outcome of a parse, with the message by its characters.
pub open spec fn outcome<T>(result: Result<T, String>) -> Result<T, Seq<char>> {
    match result {
        Ok(value) => Ok(value),
        Err(message) => Err(message@),
    }
}

/// Joins two texts.
pub fn message2(first: &str, second: &str) -> (text: String)
    ensures
        text@ == first@ + second@,
{
    let mut text = first.to_owned();
    text.append(second);
    text
}

/// Joins three texts.
pub fn message3(first: &str, second: &str, third: &str) -> (text: String)
    ensures
        text@ == first@ + second@ + third@,
{
    let mut text = first.to_owned();
    text.append(second);
    text.append(third);
    text
}

/// The character is a decimal digit.
pub open spec fn is_digit(character: char) -> bool {
    '0' <= character <= '9'
}

/// Every character is a decimal digit, and there is one.
pub open spec fn all_digits(text: Seq<char>) -> bool {
    text.len() > 0 && forall|i: int| 0 <= i < text.len() ==> is_digit(#[trigger] text[i])
}

/// The number that decimal digits spell.
pub open spec fn digits_value(text: Seq<char>) -> nat
    decreases text.len(),
{
    if text.len() == 0 {
        0
    } else {
        10 * digits_value(text.drop_last()) + (text.last() as nat - 48) as nat
    }
}

/// The number that a text spells, with an optional plus sign.
pub open spec fn unsigned_value(text: Seq<char>) -> Option<nat> {
    let digits = if text.len() > 0 && text[0] == '+' {
        text.skip(1)
    } else {
        text
    };
    if all_digits(digits) {
        Some(digits_value(digits))
    } else {
        None
    }
}

/// The number that a text spells, with an optional sign.
pub open spec fn signed_value(text: Seq<char>) -> Option<int> {
    if text.len() > 0 && text[0] == '-' {
        if all_digits(text.skip(1)) {
            Some(-(digits_value(text.skip(1)) as int))
        } else {
            None
        }
    } else {
        match unsigned_value(text) {
            Some(value) => Some(value as int),
            None => None,
        }
    }
}

/// The unsigned 64-bit number that a text spells.
pub open spec fn u64_in_text(text: Seq<char>) -> Option<u64> {
    match unsigned_value(text) {
        Some(value) => if value <= u64::MAX {
            Some(value as u64)
        } else {
            None
        },
        None => None,
    }
}

/// The signed 64-bit number that a text spells.
pub open spec fn i64_in_text(text: Seq<char>) -> Option<i64> {
    match signed_value(text) {
        Some(value) => if i64::MIN <= value <= i64::MAX {
            Some(value as i64)
        } else {
            None
        },
        None => None,
    }
}

/// The machine-sized number that a text spells.
pub open spec fn usize_in_text(text: Seq<char>) -> Option<usize> {
    match unsigned_value(text) {
        Some(value) => if value <= usize::MAX {
            Some(value as usize)
        } else {
            None
        },
        None => None,
    }
}

proof fn lemma_prefix_value(text: Seq<char>, end: int)
    requires
        0 <= end <= text.len(),
    ensures
        digits_value(text.take(end)) <= digits_value(text),
    decreases text.len(),
{
    if end < text.len() {
        assert(text.drop_last().take(end) =~= text.take(end));
        lemma_prefix_value(text.drop_last(), end);
    } else {
        assert(text.take(end) =~= text);
    }
}

/// Reads decimal digits from a position on.
fn parse_digits(characters: &[char], start: usize) -> (value: Option<u64>)
    requires
        start <= characters@.len(),
    ensures
        value == if all_digits(characters@.skip(start as int)) && digits_value(
            characters@.skip(start as int),
        ) <= u64::MAX {
            Some(digits_value(characters@.skip(start as int)) as u64)
        } else {
            None::<u64>
        },
{
    let ghost digits = characters@.skip(start as int);
    if start == characters.len() {
        return None;
    }
    let mut value: u64 = 0;
    let mut index: usize = start;
    assert(digits.take(0) =~= Seq::empty());
    while index < characters.len()
        invariant
            start <= index <= characters@.len(),
            digits == characters@.skip(start as int),
            forall|i: int| 0 <= i < index - start ==> is_digit(#[trigger] digits[i]),
            value == digits_value(digits.take(index - start)),
        decreases characters.len() - index,
    {
        let character = characters[index];
        let ghost part = digits.take(index + 1 - start);
        proof {
            assert(part.drop_last() =~= digits.take(index - start));
            assert(part.last() == character);
            assert(digits[index - start] == character);
            lemma_prefix_value(digits, index + 1 - start);
        }
        if !('0' <= character && character <= '9') {
            return None;
        }
        let digit: u64 = character as u64 - 48;
        let next: u128 = value as u128 * 10 + digit as u128;
        if next > u64::MAX as u128 {
            return None;
        }
        value = next as u64;
        index += 1;
    }
    assert(digits.take(index - start) =~= digits);
    Some(value)
}

/// Parses an unsigned number.
pub fn parse_u64(text: &str) -> (value: Option<u64>)
    ensures
        value == u64_in_text(text@),
{
    let characters = list_chars(text);
    assert(characters@.skip(0) =~= characters@);
    if characters.len() > 0 && characters[0] == '+' {
        parse_digits(characters.as_slice(), 1)
    } else {
        parse_digits(characters.as_slice(), 0)
    }
}

/// Parses a machine-sized number.
pub fn parse_usize(text: &str) -> (value: Option<usize>)
    ensures
        value == usize_in_text(text@),
{
    match parse_u64(text) {
        Some(value) => if value <= usize::MAX as u64 {
            Some(value as usize)
        } else {
            None
        },
        None => None,
    }
}

/// Parses a signed number.
pub fn parse_i64(text: &str) -> (value: Option<i64>)
    ensures
        value == i64_in_text(text@),
{
    let characters = list_chars(text);
    if characters.len() > 0 && characters[0] == '-' {
        match parse_digits(characters.as_slice(), 1) {
            Some(magnitude) => if magnitude < 0x8000_0000_0000_0000 {
                Some(-(magnitude as i64))
            } else if magnitude == 0x8000_0000_0000_0000 {
                Some(i64::MIN)
            } else {
                None
            },
            None => None,
        }
    } else {
        match parse_u64(text) {
            Some(value) => if value <= i64::MAX as u64 {
                Some(value as i64)
            } else {
                None
            },
            None => None,
        }
    }
}

/// The text of an argument, or what is wrong with it.
pub open spec fn text_in(token: Option<Seq<char>>, description: Seq<char>) -> Result<
    Seq<char>,
    Seq<char>,
> {
    match token {
        Some(text) => Ok(text),
        None => Err(description + " must be valid UTF-8"@),
    }
}

/// The signed number of an argument, or what is wrong with it.
pub open spec fn i64_in(token: Option<Seq<char>>, description: Seq<char>) -> Result<
    i64,
    Seq<char>,
> {
    match text_in(token, description) {
        Err(message) => Err(message),
        Ok(text) => match i64_in_text(text) {
            Some(value) => Ok(value),
            None => Err("invalid "@ + description),
        },
    }
}

/// The unsigned number of an argument, or what is wrong with it.
pub open spec fn u64_of(token: Option<Seq<char>>, description: Seq<char>) -> Result<
    u64,
    Seq<char>,
> {
    match text_in(token, description) {
        Err(message) => Err(message),
        Ok(text) => match u64_in_text(text) {
            Some(value) => Ok(value),
            None => Err("invalid "@ + description),
        },
    }
}

/// The machine-sized number of an argument, or what is wrong with it.
pub open spec fn usize_in(token: Option<Seq<char>>, description: Seq<char>) -> Result<
    usize,
    Seq<char>,
> {
    match text_in(token, description) {
        Err(message) => Err(message),
        Ok(text) => match usize_in_text(text) {
            Some(value) => Ok(value),
            None => Err("invalid "@ + description),
        },
    }
}

/// Reads the text of an argument.
pub fn token_str<'a>(token: &'a Token, description: &str) -> (result: Result<&'a str, String>)
    ensures
        match (text_in(token_text(*token), description@), result) {
            (Ok(expected), Ok(text)) => text@ == expected,
            (Err(expected), Err(message)) => message@ == expected,
            _ => false,
        },
{
    match token {
        Some(text) => Ok(text.as_str()),
        None => Err(message2(description, " must be valid UTF-8")),
    }
}

/// Reads a signed number.
pub fn parse_i64_token(token: &Token, description: &str) -> (result: Result<i64, String>)
    ensures
        outcome(result) == i64_in(token_text(*token), description@),
{
    match token_str(token, description) {
        Err(message) => Err(message),
        Ok(text) => match parse_i64(text) {
            Some(value) => Ok(value),
            None => Err(message2("invalid ", description)),
        },
    }
}

/// Reads an unsigned number.
pub fn parse_u64_token(token: &Token, description: &str) -> (result: Result<u64, String>)
    ensures
        outcome(result) == u64_of(token_text(*token), description@),
{
    match token_str(token, description) {
        Err(message) => Err(message),
        Ok(text) => match parse_u64(text) {
            Some(value) => Ok(value),
            None => Err(message2("invalid ", description)),
        },
    }
}

/// Reads a machine-sized number.
pub fn parse_usize_token(token: &Token, description: &str) -> (result: Result<usize, String>)
    ensures
        outcome(result) == usize_in(token_text(*token), description@),
{
    match token_str(token, description) {
        Err(message) => Err(message),
        Ok(text) => match parse_usize(text) {
            Some(value) => Ok(value),
            None => Err(message2("invalid ", description)),
        },
    }
}

} // verus!
