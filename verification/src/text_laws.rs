//! What decimal texts spell, and what parting and joining texts gives back.

use vstd::prelude::*;

use crate::cli::number::{
    digits_value, i64_in_text, signed_value, u64_in_text, unsigned_value, usize_in_text,
};
use crate::text::{decimal, hexadecimal, joined, pieces, signed_decimal, squeezed, whitespace};

verus! {

/// A decimal text ends in the character of the last digit, behind the text of
/// the digits before it; the characters of the digits follow each other from `0`.
pub proof fn law_decimal_texts_are_digits(value: nat, digit: nat)
    requires
        digit < 10,
    ensures
        decimal(digit) == seq![('0' as nat + digit) as char],
        value > 0 ==> decimal(10 * value + digit) == decimal(value).push(
            ('0' as nat + digit) as char,
        ),
{
    if value > 0 {
        assert((10 * value + digit) / 10 == value);
        assert((10 * value + digit) % 10 == digit);
    }
}

/// A number below zero is written with one minus sign before its magnitude.
pub proof fn law_signed_texts_have_one_sign(value: nat)
    ensures
        signed_decimal(value as int) == decimal(value),
        value > 0 ==> signed_decimal(-(value as int)) == seq!['-'] + decimal(value),
{
}

/// A hexadecimal text has one character for each digit, most significant
/// first, with the letters `a` to `f` behind the decimal digits.
pub proof fn law_hexadecimal_texts_are_digits(value: nat, width: nat, digit: nat)
    requires
        digit < 16,
    ensures
        hexadecimal(value, width).len() == width,
        hexadecimal(16 * value + digit, width + 1) == hexadecimal(value, width).push(
            if digit < 10 {
                ('0' as nat + digit) as char
            } else {
                ('a' as nat + digit - 10) as char
            },
        ),
    decreases width,
{
    assert((16 * value + digit) / 16 == value);
    assert((16 * value + digit) % 16 == digit);
    if width > 0 {
        law_hexadecimal_texts_are_digits(value / 16, (width - 1) as nat, digit);
    }
}

/// A decimal text is made of digits that spell its number.
pub proof fn lemma_decimal_is_read_back(value: nat)
    ensures
        decimal(value).len() > 0,
        forall|i: int| 0 <= i < decimal(value).len() ==> '0' <= #[trigger] decimal(value)[i] <= '9',
        digits_value(decimal(value)) == value,
    decreases value,
{
    reveal_with_fuel(digits_value, 2);
    if value >= 10 {
        lemma_decimal_is_read_back(value / 10);
        assert(decimal(value).drop_last() =~= decimal(value / 10));
        let last = decimal(value).last();
        assert(last as nat == 48 + value % 10);
    } else {
        assert(decimal(value).drop_last() =~= Seq::empty());
        assert(decimal(value).last() as nat == 48 + value);
    }
}

/// The decimal text of a number is read as that number, with a plus sign too;
/// a number that does not fit is not read.
pub proof fn law_decimal_texts_are_read_back(value: nat)
    ensures
        unsigned_value(decimal(value)) == Some(value),
        unsigned_value(seq!['+'] + decimal(value)) == Some(value),
        u64_in_text(decimal(value)) == if value <= 0xffff_ffff_ffff_ffff {
            Some(value as u64)
        } else {
            None::<u64>
        },
        usize_in_text(decimal(value)) == if value <= usize::MAX {
            Some(value as usize)
        } else {
            None::<usize>
        },
{
    lemma_decimal_is_read_back(value);
    let signed = seq!['+'] + decimal(value);
    assert(signed.skip(1) =~= decimal(value));
    assert('0' <= decimal(value)[0] <= '9');
}

/// The text of a signed number is read as that number where it fits.
pub proof fn law_signed_texts_are_read_back(value: int)
    ensures
        signed_value(signed_decimal(value)) == Some(value),
        i64_in_text(signed_decimal(value)) == if -0x8000_0000_0000_0000 <= value
            <= 0x7fff_ffff_ffff_ffff {
            Some(value as i64)
        } else {
            None::<i64>
        },
{
    if value < 0 {
        lemma_decimal_is_read_back((-value) as nat);
        assert(signed_decimal(value).skip(1) =~= decimal((-value) as nat));
    } else {
        law_decimal_texts_are_read_back(value as nat);
        lemma_decimal_is_read_back(value as nat);
        assert('0' <= decimal(value as nat)[0] <= '9');
    }
}

/// Digits count ten times as much as those behind them.
pub proof fn law_digits_are_decimal_places(text: Seq<char>, digit: nat)
    requires
        digit < 10,
    ensures
        digits_value(Seq::empty()) == 0,
        digits_value(text.push(('0' as nat + digit) as char)) == 10 * digits_value(text) + digit,
{
    let longer = text.push(('0' as nat + digit) as char);
    assert(longer.drop_last() =~= text);
    assert(longer.last() as nat == 48 + digit);
}

/// A text with anything but digits behind an optional sign spells no number,
/// and neither does a text without a digit.
pub proof fn law_other_texts_are_no_numbers(text: Seq<char>, place: int)
    requires
        0 <= place < text.len(),
        !('0' <= text[place] <= '9'),
        place > 0 || (text[0] != '+' && text[0] != '-'),
    ensures
        unsigned_value(text) is None,
        signed_value(text) is None,
        unsigned_value(Seq::empty()) is None,
        unsigned_value(seq!['+']) is None,
        unsigned_value(seq!['-']) is None,
        signed_value(Seq::empty()) is None,
        signed_value(seq!['-']) is None,
{
    if place > 0 {
        assert(text.skip(1)[place - 1] == text[place]);
    }
    let plus = seq!['+'];
    let minus = seq!['-'];
    assert(plus.skip(1) =~= Seq::empty());
    assert(minus.skip(1) =~= Seq::empty());
    assert(minus[0] == '-');
}

/// Joining puts the separator between the parts, and nothing else.
pub proof fn law_joining_parts_by_the_separator(
    parts: Seq<Seq<char>>,
    part: Seq<char>,
    separator: Seq<char>,
)
    ensures
        joined(Seq::empty(), separator) == Seq::<char>::empty(),
        joined(seq![part], separator) == part,
        parts.len() > 0 ==> joined(parts.push(part), separator) == joined(parts, separator)
            + separator + part,
{
    assert(parts.push(part).drop_last() =~= parts);
}

/// Parting a text at a separator leaves no separator in a piece, and joining
/// the pieces again gives the text back.
pub proof fn law_pieces_join_to_the_text(text: Seq<char>, separator: char)
    ensures
        pieces(text, separator).len() > 0,
        joined(pieces(text, separator), seq![separator]) == text,
        forall|i: int, j: int|
            0 <= i < pieces(text, separator).len() && 0 <= j < pieces(text, separator)[i].len()
                ==> (#[trigger] pieces(text, separator)[i][j]) != separator,
    decreases text.len(),
{
    let all = pieces(text, separator);
    if text.len() == 0 {
        assert(joined(all, seq![separator]) =~= text);
    } else {
        let rest = text.drop_last();
        let before = pieces(rest, separator);
        law_pieces_join_to_the_text(rest, separator);
        if text.last() == separator {
            assert(all.drop_last() =~= before);
            assert(joined(all, seq![separator]) =~= text);
        } else {
            assert(all.drop_last() =~= before.drop_last());
            if before.len() > 1 {
                let start = joined(before.drop_last(), seq![separator]) + seq![separator];
                assert(rest == start + before.last());
                assert(all.last() == before.last().push(text.last()));
                assert(joined(all, seq![separator]) == start + all.last());
                assert(start + before.last().push(text.last()) =~= (start + before.last()).push(
                    text.last(),
                ));
                assert(rest.push(text.last()) =~= text);
            } else {
                assert(all[0] =~= text);
            }
            assert forall|i: int, j: int| 0 <= i < all.len() && 0 <= j < all[i].len() implies (
            #[trigger] all[i][j]) != separator by {
                if i < before.len() - 1 {
                    assert(all[i] == before[i]);
                    assert(before[i][j] != separator);
                } else if j < before.last().len() {
                    assert(before[i][j] != separator);
                }
            }
        }
    }
}

proof fn lemma_pieces_of_more(text: Seq<char>, part: Seq<char>, separator: char)
    requires
        forall|i: int| 0 <= i < part.len() ==> (#[trigger] part[i]) != separator,
    ensures
        pieces(text + part, separator) == pieces(text, separator).drop_last().push(
            pieces(text, separator).last() + part,
        ),
    decreases part.len(),
{
    law_pieces_join_to_the_text(text, separator);
    let before = pieces(text, separator);
    if part.len() == 0 {
        assert(text + part =~= text);
        assert(before.last() + part =~= before.last());
        assert(before.drop_last().push(before.last()) =~= before);
    } else {
        let rest = part.drop_last();
        lemma_pieces_of_more(text, rest, separator);
        assert((text + part).drop_last() =~= text + rest);
        assert((text + part).last() == part.last());
        let middle = pieces(text + rest, separator);
        assert(middle.drop_last() =~= before.drop_last());
        assert(middle.last().push(part.last()) =~= before.last() + part);
    }
}

/// Parts that hold no separator come back as they were joined.
pub proof fn law_joined_parts_are_parted_again(parts: Seq<Seq<char>>, separator: char)
    requires
        parts.len() > 0,
        forall|i: int, j: int|
            0 <= i < parts.len() && 0 <= j < parts[i].len() ==> (#[trigger] parts[i][j])
                != separator,
    ensures
        pieces(joined(parts, seq![separator]), separator) == parts,
    decreases parts.len(),
{
    let last = parts.last();
    assert(parts[parts.len() - 1] == last);
    assert forall|i: int| 0 <= i < last.len() implies (#[trigger] last[i]) != separator by {
        assert(parts[parts.len() - 1][i] != separator);
    }
    if parts.len() == 1 {
        lemma_pieces_of_more(Seq::empty(), last, separator);
        assert(Seq::<char>::empty() + last =~= last);
        assert(pieces(last, separator) =~= parts);
    } else {
        let rest = parts.drop_last();
        assert forall|i: int, j: int| 0 <= i < rest.len() && 0 <= j < rest[i].len() implies (
        #[trigger] rest[i][j]) != separator by {
            assert(parts[i][j] != separator);
        }
        law_joined_parts_are_parted_again(rest, separator);
        let text = joined(rest, seq![separator]) + seq![separator];
        assert(text.drop_last() =~= joined(rest, seq![separator]));
        assert(pieces(text, separator) =~= rest.push(Seq::empty()));
        lemma_pieces_of_more(text, last, separator);
        assert(joined(parts, seq![separator]) =~= text + last);
        assert(rest.push(Seq::empty()).drop_last() =~= rest);
        assert(Seq::<char>::empty() + last =~= last);
        assert(rest.push(last) =~= parts);
    }
}

/// Squeezing keeps every character but whitespace, in order, and puts single
/// spaces between words only.
pub proof fn law_squeezing_keeps_the_words(text: Seq<char>)
    ensures
        squeezed(text).filter(|character: char| !whitespace(character)) == text.filter(
            |character: char| !whitespace(character),
        ),
        forall|i: int|
            0 <= i < squeezed(text).len() && whitespace(#[trigger] squeezed(text)[i]) ==> {
                &&& squeezed(text)[i] == ' '
                &&& 0 < i < squeezed(text).len() - 1
                &&& !whitespace(squeezed(text)[i - 1])
            },
    decreases text.len(),
{
    reveal(Seq::filter);
    let keep = |character: char| !whitespace(character);
    if text.len() > 0 {
        let rest = text.drop_last();
        law_squeezing_keeps_the_words(rest);
        let before = squeezed(rest);
        let after = squeezed(text);
        if !whitespace(text.last()) {
            assert(after.last() == text.last());
            if before.len() > 0 && whitespace(text[text.len() - 2]) {
                assert(after.drop_last() =~= before.push(' '));
                assert(before.push(' ').drop_last() =~= before);
                assert(!keep(' '));
                assert(before.push(' ').filter(keep) =~= before.filter(keep));
            } else {
                assert(after.drop_last() =~= before);
            }
        }
        if before.len() > 0 {
            lemma_squeezed_end(rest);
        }
        assert forall|i: int| 0 <= i < after.len() && whitespace(#[trigger] after[i]) implies {
            &&& after[i] == ' '
            &&& 0 < i < after.len() - 1
            &&& !whitespace(after[i - 1])
        } by {
            if i < before.len() {
                assert(after[i] == before[i]);
                assert(after[i - 1] == before[i - 1]);
            }
        }
    }
}

proof fn lemma_squeezed_end(text: Seq<char>)
    ensures
        squeezed(text).len() > 0 ==> !whitespace(squeezed(text).last()),
    decreases text.len(),
{
    if text.len() > 0 {
        lemma_squeezed_end(text.drop_last());
    }
}

/// A text without whitespace is squeezed to itself.
pub proof fn law_words_are_squeezed_to_themselves(word: Seq<char>)
    requires
        forall|i: int| 0 <= i < word.len() ==> !whitespace(#[trigger] word[i]),
    ensures
        squeezed(word) == word,
    decreases word.len(),
{
    if word.len() > 0 {
        let rest = word.drop_last();
        assert forall|i: int| 0 <= i < rest.len() implies !whitespace(#[trigger] rest[i]) by {
            assert(rest[i] == word[i]);
        }
        law_words_are_squeezed_to_themselves(rest);
        assert(!whitespace(word[word.len() - 1]));
        if word.len() > 1 {
            assert(!whitespace(word[word.len() - 2]));
        }
        assert(rest.push(word.last()) =~= word);
    }
}

/// Texts that whitespace parts stay apart: both are squeezed, and one space
/// stands between them if neither is empty.
pub proof fn law_squeezed_words_stay_apart(first: Seq<char>, space: char, second: Seq<char>)
    requires
        whitespace(space),
    ensures
        squeezed(first.push(space) + second) == if squeezed(first).len() == 0 {
            squeezed(second)
        } else if squeezed(second).len() == 0 {
            squeezed(first)
        } else {
            squeezed(first) + seq![' '] + squeezed(second)
        },
    decreases second.len(),
{
    let all = first.push(space) + second;
    if second.len() == 0 {
        assert(all =~= first.push(space));
        assert(all.drop_last() =~= first);
    } else {
        let rest = second.drop_last();
        law_squeezed_words_stay_apart(first, space, rest);
        assert(all.drop_last() =~= first.push(space) + rest);
        assert(all.last() == second.last());
        if rest.len() == 0 {
            assert(all[all.len() - 2] == space);
            assert(squeezed(rest).len() == 0);
        } else {
            assert(all[all.len() - 2] == second[second.len() - 2]);
            assert(rest.last() == second[second.len() - 2]);
            if squeezed(rest).len() == 0 {
                assert(whitespace(rest.last()));
            }
        }
        if !whitespace(second.last()) {
            if squeezed(first).len() > 0 {
                assert(squeezed(all) =~= squeezed(first) + seq![' '] + squeezed(second));
            }
        }
    }
}

} // verus!
