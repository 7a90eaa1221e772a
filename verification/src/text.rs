//! Decimal and hexadecimal text of integers, and character-level helpers.

use vstd::prelude::*;
use vstd::string::*;
use vstd::utf8::{decode_utf8, encode_utf8, is_scalar, valid_utf8};

use crate::bytes::byte_word;
use crate::order::{lexically_less_at, Lexical, Relation};

verus! {

/// The failure of `std::str::from_utf8`, of which nothing is read.
#[verifier::external_type_specification]
#[verifier::external_body]
pub struct ExUtf8Error(core::str::Utf8Error);

/// `std::str::from_utf8` accepts exactly the valid UTF-8 bytes and gives the
/// text that they encode.
pub assume_specification<'a>[ core::str::from_utf8 ](bytes: &'a [u8]) -> (text: Result<
    &'a str,
    core::str::Utf8Error,
>)
    ensures
        text is Ok <==> valid_utf8(bytes@),
        text matches Ok(text) ==> text@ == decode_utf8(bytes@),
;

/// `char::from_u32` gives the character of a Unicode scalar value, and nothing
/// for any other number.
pub assume_specification[ char::from_u32 ](scalar: u32) -> (character: Option<char>)
    ensures
        character is Some <==> is_scalar(scalar),
        character matches Some(character) ==> character as u32 == scalar,
;

/// `String::push` appends one character to the end of the text.
pub assume_specification[ String::push ](text: &mut String, character: char)
    ensures
        final(text)@ == old(text)@.push(character),
;

/// The character of one digit below sixteen, with lowercase letters.
pub open spec fn digit_char(digit: nat) -> char {
    if digit < 10 {
        (48 + digit) as char
    } else {
        (87 + digit) as char
    }
}

/// Canonical decimal digits of a natural number, most significant first.
pub open spec fn decimal(value: nat) -> Seq<char>
    decreases value,
{
    if value < 10 {
        seq![digit_char(value)]
    } else {
        decimal(value / 10).push(digit_char(value % 10))
    }
}

/// Canonical decimal text of an integer, with a leading minus below zero.
pub open spec fn signed_decimal(value: int) -> Seq<char> {
    if value < 0 {
        seq!['-'] + decimal((-value) as nat)
    } else {
        decimal(value as nat)
    }
}

/// The lowest `width` hexadecimal digits of a number, most significant first.
pub open spec fn hexadecimal(value: nat, width: nat) -> Seq<char>
    decreases width,
{
    if width == 0 {
        Seq::empty()
    } else {
        hexadecimal(value / 16, (width - 1) as nat).push(digit_char(value % 16))
    }
}

/// Returns the character of one digit below sixteen.
pub fn digit_character(digit: u8) -> (character: char)
    requires
        digit < 16,
    ensures
        character == digit_char(digit as nat),
{
    if digit < 10 {
        (48u8 + digit) as char
    } else {
        (87u8 + digit) as char
    }
}

/// Appends the decimal text of an unsigned number.
pub fn push_decimal(text: &mut String, value: u64)
    ensures
        final(text)@ == old(text)@ + decimal(value as nat),
    decreases value,
{
    if value < 10 {
        text.push(digit_character(value as u8));
        assert(text@ =~= old(text)@ + decimal(value as nat));
    } else {
        push_decimal(text, value / 10);
        text.push(digit_character((value % 10) as u8));
        assert(text@ =~= old(text)@ + decimal(value as nat));
    }
}

/// Appends the decimal text of a signed number.
pub fn push_signed_decimal(text: &mut String, value: i64)
    ensures
        final(text)@ == old(text)@ + signed_decimal(value as int),
{
    if value < 0 {
        text.push('-');
        let magnitude: u64 = if value == i64::MIN {
            0x8000_0000_0000_0000
        } else {
            (-value) as u64
        };
        push_decimal(text, magnitude);
        assert(text@ =~= old(text)@ + signed_decimal(value as int));
    } else {
        push_decimal(text, value as u64);
    }
}

/// Appends the lowest `width` hexadecimal digits of a number.
pub fn push_hexadecimal(text: &mut String, value: u64, width: u8)
    ensures
        final(text)@ == old(text)@ + hexadecimal(value as nat, width as nat),
    decreases width,
{
    if width == 0 {
        assert(text@ =~= old(text)@ + hexadecimal(value as nat, width as nat));
    } else {
        push_hexadecimal(text, value / 16, width - 1);
        text.push(digit_character((value % 16) as u8));
        assert(text@ =~= old(text)@ + hexadecimal(value as nat, width as nat));
    }
}

/// Lists the characters of a text.
pub fn list_chars(text: &str) -> (characters: Vec<char>)
    ensures
        characters@ == text@,
{
    let mut characters: Vec<char> = Vec::new();
    for character in iter: text.chars()
        invariant
            iter.seq() == text@,
            characters@ =~= text@.take(iter.index() as int),
    {
        characters.push(character);
    }
    assert(text@.take(text@.len() as int) =~= text@);
    characters
}

/// Number of bytes of a text in UTF-8.
pub fn byte_length(text: &str) -> (length: usize)
    ensures
        length == encode_utf8(text@).len(),
{
    text.as_bytes().len()
}

/// The word that orders texts: their UTF-8 bytes.
pub open spec fn text_word(text: Seq<char>) -> Seq<int> {
    byte_word(encode_utf8(text))
}

/// Texts with the same word are equal.
pub proof fn lemma_text_word_injective(first: Seq<char>, second: Seq<char>)
    requires
        text_word(first) == text_word(second),
    ensures
        first == second,
{
    let a = encode_utf8(first);
    let b = encode_utf8(second);
    assert(a.len() == byte_word(a).len());
    assert(b.len() == byte_word(b).len());
    assert forall|i: int| 0 <= i < a.len() implies a[i] == b[i] by {
        assert(byte_word(a)[i] == byte_word(b)[i]);
    }
    assert(a =~= b);
    vstd::utf8::encode_utf8_decode_utf8(first);
    vstd::utf8::encode_utf8_decode_utf8(second);
}

/// Places one text before, at or after another, by their UTF-8 bytes.
pub fn text_relation(first: &str, second: &str) -> (relation: Relation)
    ensures
        crate::order::relates(text_word(first@), text_word(second@), relation),
{
    let a = first.as_bytes();
    let b = second.as_bytes();
    let ghost word_a = text_word(first@);
    let ghost word_b = text_word(second@);
    let mut index: usize = 0;
    while index < a.len() && index < b.len()
        invariant
            index <= a@.len(),
            index <= b@.len(),
            word_a == byte_word(a@),
            word_b == byte_word(b@),
            word_a == text_word(first@),
            word_b == text_word(second@),
            forall|i: int| 0 <= i < index ==> word_a[i] == word_b[i],
        decreases a.len() - index,
    {
        if a[index] < b[index] {
            assert(lexically_less_at(word_a, word_b, index as int));
            return Relation::Less;
        }
        if b[index] < a[index] {
            assert(lexically_less_at(word_b, word_a, index as int));
            return Relation::Greater;
        }
        index += 1;
    }
    if a.len() < b.len() {
        assert(lexically_less_at(word_a, word_b, index as int));
        Relation::Less
    } else if b.len() < a.len() {
        assert(lexically_less_at(word_b, word_a, index as int));
        Relation::Greater
    } else {
        assert(word_a =~= word_b);
        Relation::Equal
    }
}

/// Compares two texts.
pub fn same_text(first: &str, second: &str) -> (same: bool)
    ensures
        same == (first@ == second@),
{
    let relation = text_relation(first, second);
    proof {
        if relation == Relation::Equal {
            lemma_text_word_injective(first@, second@);
        } else {
            if text_word(first@) == text_word(second@) {
                crate::order::lemma_lexical_asymmetric(text_word(first@), text_word(second@));
            }
        }
    }
    relation == Relation::Equal
}

impl Lexical for String {
    open spec fn word(&self) -> Seq<int> {
        text_word(self@)
    }

    fn relation(&self, other: &Self) -> (relation: Relation) {
        text_relation(self.as_str(), other.as_str())
    }
}

/// The characters with the Unicode 16 property `White_Space`.
pub open spec fn whitespace(character: char) -> bool {
    ||| '\u{0009}' <= character <= '\u{000D}'
    ||| character == '\u{0020}'
    ||| character == '\u{0085}'
    ||| character == '\u{00A0}'
    ||| character == '\u{1680}'
    ||| '\u{2000}' <= character <= '\u{200A}'
    ||| character == '\u{2028}'
    ||| character == '\u{2029}'
    ||| character == '\u{202F}'
    ||| character == '\u{205F}'
    ||| character == '\u{3000}'
}

/// Tests for the Unicode 16 property `White_Space`.
pub fn is_unicode_16_whitespace(character: char) -> (result: bool)
    ensures
        result == whitespace(character),
{
    ('\u{0009}' <= character && character <= '\u{000D}') || character == '\u{0020}' || character
        == '\u{0085}' || character == '\u{00A0}' || character == '\u{1680}' || ('\u{2000}'
        <= character && character <= '\u{200A}') || character == '\u{2028}' || character
        == '\u{2029}' || character == '\u{202F}' || character == '\u{205F}' || character
        == '\u{3000}'
}

/// The text with each run of whitespace between words made one space, and none
/// at its ends.
pub open spec fn squeezed(text: Seq<char>) -> Seq<char>
    decreases text.len(),
{
    if text.len() == 0 {
        Seq::empty()
    } else {
        let before = squeezed(text.drop_last());
        if whitespace(text.last()) {
            before
        } else if before.len() > 0 && whitespace(text[text.len() - 2]) {
            before.push(' ').push(text.last())
        } else {
            before.push(text.last())
        }
    }
}

/// Makes each run of whitespace between words one space, and none at the ends.
pub fn squeeze(characters: &[char]) -> (text: String)
    ensures
        text@ == squeezed(characters@),
{
    let mut text = String::new();
    let mut parted = false;
    let mut index: usize = 0;
    assert(characters@.take(0) =~= Seq::empty());
    while index < characters.len()
        invariant
            index <= characters@.len(),
            text@ == squeezed(characters@.take(index as int)),
            index > 0 ==> parted == whitespace(characters@[index - 1]),
            index == 0 ==> !parted && text@.len() == 0,
        decreases characters.len() - index,
    {
        let character = characters[index];
        let ghost part = characters@.take(index + 1);
        proof {
            assert(part.drop_last() =~= characters@.take(index as int));
            assert(part.last() == character);
            if index > 0 {
                assert(part[part.len() - 2] == characters@[index - 1]);
            }
        }
        if is_unicode_16_whitespace(character) {
            parted = true;
        } else {
            if parted && !text.as_str().is_empty() {
                text.push(' ');
            }
            text.push(character);
            parted = false;
        }
        index += 1;
    }
    assert(characters@.take(characters@.len() as int) =~= characters@);
    text
}

/// Texts in a row with a separator between them.
pub open spec fn joined(parts: Seq<Seq<char>>, separator: Seq<char>) -> Seq<char>
    decreases parts.len(),
{
    if parts.len() == 0 {
        Seq::empty()
    } else if parts.len() == 1 {
        parts[0]
    } else {
        joined(parts.drop_last(), separator) + separator + parts.last()
    }
}

/// Joins texts with a separator.
pub fn join(parts: &[String], separator: &str) -> (text: String)
    ensures
        text@ == joined(parts@.map_values(|part: String| part@), separator@),
{
    let ghost all = parts@.map_values(|part: String| part@);
    let mut text = String::new();
    let mut index: usize = 0;
    assert(all.take(0) =~= Seq::empty());
    while index < parts.len()
        invariant
            index <= parts@.len(),
            all == parts@.map_values(|part: String| part@),
            text@ == joined(all.take(index as int), separator@),
        decreases parts.len() - index,
    {
        let ghost part = all.take(index + 1);
        proof {
            assert(part.drop_last() =~= all.take(index as int));
            assert(part.last() == all[index as int]);
        }
        if index > 0 {
            text.append(separator);
        } else {
            assert(text@ =~= Seq::empty());
        }
        let ghost before = text@;
        text.append(parts[index].as_str());
        proof {
            if index == 0 {
                assert(before + part.last() =~= part[0]);
            }
        }
        index += 1;
    }
    assert(all.take(all.len() as int) =~= all);
    text
}

/// The pieces of a text between separators.
pub open spec fn pieces(text: Seq<char>, separator: char) -> Seq<Seq<char>>
    decreases text.len(),
{
    if text.len() == 0 {
        seq![Seq::empty()]
    } else {
        let before = pieces(text.drop_last(), separator);
        if text.last() == separator {
            before.push(Seq::empty())
        } else {
            before.drop_last().push(before.last().push(text.last()))
        }
    }
}

proof fn lemma_pieces_nonempty(text: Seq<char>, separator: char)
    ensures
        pieces(text, separator).len() > 0,
    decreases text.len(),
{
    if text.len() > 0 {
        lemma_pieces_nonempty(text.drop_last(), separator);
    }
}

/// Lists the pieces of a text between separators.
pub fn split_text(text: &str, separator: char) -> (parts: Vec<String>)
    ensures
        parts@.map_values(|part: String| part@) == pieces(text@, separator),
{
    let characters = list_chars(text);
    let mut parts: Vec<String> = Vec::new();
    let mut current = String::new();
    let mut index: usize = 0;
    let ghost mut listed: Seq<Seq<char>> = Seq::empty();
    proof {
        assert(characters@.take(0) =~= Seq::empty());
        assert(pieces(characters@.take(0), separator).drop_last() =~= Seq::empty());
        assert(parts@.map_values(|part: String| part@) =~= listed);
    }
    while index < characters.len()
        invariant
            index <= characters@.len(),
            listed == parts@.map_values(|part: String| part@),
            current@ == pieces(characters@.take(index as int), separator).last(),
            listed == pieces(characters@.take(index as int), separator).drop_last(),
        decreases characters.len() - index,
    {
        let ghost part = characters@.take(index + 1);
        let ghost before = pieces(characters@.take(index as int), separator);
        proof {
            assert(part.drop_last() =~= characters@.take(index as int));
            assert(part.last() == characters@[index as int]);
            lemma_pieces_nonempty(characters@.take(index as int), separator);
        }
        if characters[index] == separator {
            let ghost content = current@;
            parts.push(current);
            proof {
                assert(parts@.map_values(|part: String| part@) =~= listed.push(content));
                listed = listed.push(content);
                assert(listed =~= before);
                assert(pieces(part, separator).drop_last() =~= before);
            }
            current = String::new();
        } else {
            current.push(characters[index]);
            proof {
                assert(pieces(part, separator).drop_last() =~= before.drop_last());
            }
        }
        index += 1;
    }
    proof {
        assert(characters@.take(characters@.len() as int) =~= text@);
        lemma_pieces_nonempty(text@, separator);
    }
    let ghost content = current@;
    parts.push(current);
    assert(parts@.map_values(|part: String| part@) =~= listed.push(content));
    assert(listed.push(content) =~= pieces(text@, separator));
    parts
}

} // verus!
