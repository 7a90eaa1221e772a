//! What folding and collapsing make of a text.

use vstd::prelude::*;
use vstd::utf8::{encode_utf8, is_scalar};

use crate::sqlite::normalize::{
    collapsed, control, lower_of, lowercase_mapping, lowered, nfkc_of, normalized, scanned,
    SymbolValueError,
};
use crate::text::whitespace;

verus! {

/// The lowercase text of any character is what its mapping says: the first
/// entry, with the second one behind it if there is one. Only a character
/// without a mapping stays itself.
pub proof fn law_lowercase_is_the_mapping(character: char, mapping: Seq<u32>)
    ensures
        ({
            let text = lower_of(character, mapping);
            &&& mapping[0] == 0 ==> text == seq![character]
            &&& mapping[0] != 0 && is_scalar(mapping[0]) && mapping[1] == 0 ==> text
                == seq![mapping[0] as char]
            &&& mapping[0] != 0 && is_scalar(mapping[0]) && mapping[1] != 0 && is_scalar(
                mapping[1],
            ) ==> text == seq![mapping[0] as char, mapping[1] as char]
        }),
{
    let text = lower_of(character, mapping);
    if mapping[0] != 0 && is_scalar(mapping[0]) && mapping[1] == 0 {
        assert(text =~= seq![mapping[0] as char]);
    }
    if mapping[0] != 0 && is_scalar(mapping[0]) && mapping[1] != 0 && is_scalar(mapping[1]) {
        assert(text =~= seq![mapping[0] as char, mapping[1] as char]);
    }
}

/// Characters with the same mapping have the same lowercase text, so that
/// capitals and small letters that map alike are not told apart.
pub proof fn law_equal_mappings_lower_alike(first: char, second: char)
    requires
        lowercase_mapping(first) == lowercase_mapping(second),
        lowercase_mapping(first)[0] != 0,
    ensures
        lowered(seq![first]) == lowered(seq![second]),
{
    lemma_lowered_character(first);
    lemma_lowered_character(second);
}

/// A capital has the lowercase text of the small letter that it maps to, where
/// that letter has no mapping of its own.
pub proof fn law_capitals_lower_to_their_small_letters(capital: char, small: char)
    requires
        lowercase_mapping(capital)[0] == small as u32,
        lowercase_mapping(capital)[1] == 0,
        small as u32 != 0,
        lowercase_mapping(small)[0] == 0,
    ensures
        lowered(seq![capital]) == seq![small],
        lowered(seq![small]) == seq![small],
{
    lemma_lowered_character(capital);
    lemma_lowered_character(small);
    law_lowercase_is_the_mapping(capital, lowercase_mapping(capital));
    law_lowercase_is_the_mapping(small, lowercase_mapping(small));
    vstd::utf8::char_u32_cast(small, small as u32);
}

proof fn lemma_lowered_character(character: char)
    ensures
        lowered(seq![character]) == lower_of(character, lowercase_mapping(character)),
{
    reveal_with_fuel(lowered, 2);
    let text = seq![character];
    assert(text.drop_last() =~= Seq::empty());
    assert(lowered(text) =~= lower_of(character, lowercase_mapping(character)));
}

/// A text is lowered character by character, and the texts stand in order.
pub proof fn law_texts_are_lowered_by_character(first: Seq<char>, second: Seq<char>)
    ensures
        lowered(Seq::empty()) == Seq::<char>::empty(),
        lowered(first + second) == lowered(first) + lowered(second),
        forall|character: char|
            #![trigger lowered(seq![character])]
            lowered(seq![character]) == lower_of(character, lowercase_mapping(character)),
    decreases second.len(),
{
    assert forall|character: char|
        #![trigger lowered(seq![character])]
        lowered(seq![character]) == lower_of(character, lowercase_mapping(character)) by {
        lemma_lowered_character(character);
    }
    if second.len() == 0 {
        assert(first + second =~= first);
        assert(lowered(first) + lowered(second) =~= lowered(first));
    } else {
        law_texts_are_lowered_by_character(first, second.drop_last());
        let all = first + second;
        assert(all.drop_last() =~= first + second.drop_last());
        assert(all.last() == second.last());
        let last = lower_of(second.last(), lowercase_mapping(second.last()));
        assert((lowered(first) + lowered(second.drop_last())) + last =~= lowered(first) + (lowered(
            second.drop_last(),
        ) + last));
    }
}

/// The characters of a text that are no whitespace.
pub open spec fn solid(text: Seq<char>) -> Seq<char> {
    text.filter(|character: char| !whitespace(character))
}

proof fn lemma_solid_push(text: Seq<char>, character: char)
    ensures
        solid(text.push(character)) == if whitespace(character) {
            solid(text)
        } else {
            solid(text).push(character)
        },
{
    reveal(Seq::filter);
    assert(text.push(character).drop_last() =~= text);
}

proof fn lemma_scanned_solid(text: Seq<char>)
    requires
        scanned(text) is Ok,
    ensures
        solid(scanned(text)->Ok_0) == solid(text),
        scanned(text)->Ok_0.len() > 0 ==> !whitespace(scanned(text)->Ok_0.last()),
    decreases text.len(),
{
    if text.len() == 0 {
        assert(scanned(text)->Ok_0 =~= text);
    } else {
        let rest = text.drop_last();
        lemma_scanned_solid(rest);
        let before = scanned(rest)->Ok_0;
        let after = scanned(text)->Ok_0;
        let last = text.last();
        assert(rest.push(last) =~= text);
        lemma_solid_push(rest, last);
        if !whitespace(last) {
            if before.len() > 0 && whitespace(text[text.len() - 2]) {
                lemma_solid_push(before, ' ');
                lemma_solid_push(before.push(' '), last);
            } else {
                lemma_solid_push(before, last);
            }
        }
    }
}

/// A normalized symbol holds every character of the folded text but its
/// whitespace, in the same order, and nothing else but single spaces.
///
/// The folded text is the compatibility form of the lowercase text of the
/// compatibility form of the value.
pub proof fn law_normalized_symbols_keep_their_characters(value: Seq<char>)
    requires
        normalized(value) is Ok,
    ensures
        solid(normalized(value)->Ok_0) == solid(nfkc_of(lowered(nfkc_of(value)))),
        forall|i: int|
            0 <= i < normalized(value)->Ok_0.len() && whitespace(
                #[trigger] normalized(value)->Ok_0[i],
            ) ==> normalized(value)->Ok_0[i] == ' ',
{
    lemma_scanned_solid(nfkc_of(lowered(nfkc_of(value))));
    crate::sqlite::normalize::law_normalized_symbols_are_canonical(value);
}

/// Two characters of a word stay together, and two words stay apart: behind
/// any beginning that holds a word, whitespace before a character shows as one
/// space before it, and no whitespace as none.
pub proof fn law_words_stay_apart(start: Seq<char>, gap: Seq<char>, character: char)
    requires
        scanned(start) is Ok,
        start.len() > 0,
        !whitespace(start.last()),
        forall|i: int| 0 <= i < gap.len() ==> whitespace(#[trigger] gap[i]),
        !whitespace(character),
        !control(character),
        scanned((start + gap).push(character)) is Ok,
    ensures
        scanned((start + gap).push(character))->Ok_0 == if gap.len() > 0 {
            scanned(start)->Ok_0 + seq![' ', character]
        } else {
            scanned(start)->Ok_0 + seq![character]
        },
{
    lemma_gap_is_skipped(start, gap);
    let text = (start + gap).push(character);
    let before = scanned(start)->Ok_0;
    assert(text.drop_last() =~= start + gap);
    assert(before.len() > 0) by {
        let rest = start.drop_last();
    }
    if gap.len() > 0 {
        assert(text[text.len() - 2] == gap.last());
        assert(gap[gap.len() - 1] == gap.last());
        assert(before.push(' ').push(character) =~= before + seq![' ', character]);
    } else {
        assert(text[text.len() - 2] == start.last());
        assert(before.push(character) =~= before + seq![character]);
    }
}

proof fn lemma_gap_is_skipped(start: Seq<char>, gap: Seq<char>)
    requires
        forall|i: int| 0 <= i < gap.len() ==> whitespace(#[trigger] gap[i]),
    ensures
        scanned(start + gap) == scanned(start),
    decreases gap.len(),
{
    if gap.len() == 0 {
        assert(start + gap =~= start);
    } else {
        lemma_gap_is_skipped(start, gap.drop_last());
        assert((start + gap).drop_last() =~= start + gap.drop_last());
        assert((start + gap).last() == gap[gap.len() - 1]);
    }
}

/// What collapses holds no control character but whitespace, and gives a symbol
/// of 1 to 4096 bytes. A text is refused for a control character only if it
/// holds one; without one, a text of at most 4096 bytes that is not blank
/// collapses.
pub proof fn law_refused_texts(folded: Seq<char>)
    ensures
        collapsed(folded) is Ok ==> {
            &&& forall|i: int|
                0 <= i < folded.len() && !whitespace(#[trigger] folded[i]) ==> !control(folded[i])
            &&& 0 < encode_utf8(collapsed(folded)->Ok_0).len() <= 4096
        },
        collapsed(folded) == Err::<Seq<char>, SymbolValueError>(SymbolValueError::Control)
            ==> exists|i: int|
            0 <= i < folded.len() && !whitespace(#[trigger] folded[i]) && control(folded[i]),
        (forall|i: int|
            0 <= i < folded.len() && !whitespace(#[trigger] folded[i]) ==> !control(folded[i]))
            && encode_utf8(folded).len() <= 4096 && solid(folded).len() > 0 ==> collapsed(folded)
            is Ok,
{
    crate::sqlite::normalize::law_blank_texts_are_empty(folded);
    lemma_scan_outcome(folded);
    if collapsed(folded) is Ok {
        let text = collapsed(folded)->Ok_0;
        crate::sqlite::normalize::lemma_scanned_is_tidy(folded);
        assert(text.len() > 0);
        lemma_bytes_of_texts(text);
    }
    if solid(folded).len() > 0 {
        lemma_some_solid(folded);
    }
}

proof fn lemma_some_solid(text: Seq<char>)
    requires
        solid(text).len() > 0,
    ensures
        exists|i: int| 0 <= i < text.len() && !whitespace(#[trigger] text[i]),
    decreases text.len(),
{
    reveal(Seq::filter);
    let rest = text.drop_last();
    assert(rest.push(text.last()) =~= text);
    lemma_solid_push(rest, text.last());
    if whitespace(text.last()) {
        lemma_some_solid(rest);
        let i = choose|i: int| 0 <= i < rest.len() && !whitespace(#[trigger] rest[i]);
        assert(text[i] == rest[i]);
    } else {
        assert(!whitespace(text[text.len() - 1]));
    }
}

proof fn lemma_bytes_of_texts(text: Seq<char>)
    requires
        text.len() > 0,
    ensures
        encode_utf8(text).len() > 0,
{
    crate::sqlite::normalize::lemma_utf8_prefix(text, 1);
    if encode_utf8(text).len() == 0 {
        assert(encode_utf8(text) =~= encode_utf8(Seq::empty()));
        crate::text::lemma_text_word_injective(text, Seq::empty());
    }
}

proof fn lemma_scan_outcome(text: Seq<char>)
    ensures
        scanned(text) is Ok ==> {
            &&& forall|i: int|
                0 <= i < text.len() && !whitespace(#[trigger] text[i]) ==> !control(text[i])
            &&& encode_utf8(scanned(text)->Ok_0).len() <= encode_utf8(text).len()
            &&& scanned(text)->Ok_0.len() > 0 && text.len() > 0 && whitespace(text.last())
                ==> encode_utf8(scanned(text)->Ok_0).len() + 1 <= encode_utf8(text).len()
        },
        scanned(text) == Err::<Seq<char>, SymbolValueError>(SymbolValueError::Control)
            ==> exists|i: int|
            0 <= i < text.len() && !whitespace(#[trigger] text[i]) && control(text[i]),
        (forall|i: int|
            0 <= i < text.len() && !whitespace(#[trigger] text[i]) ==> !control(text[i]))
            && encode_utf8(text).len() <= 4096 ==> scanned(text) is Ok,
    decreases text.len(),
{
    if text.len() > 0 {
        let rest = text.drop_last();
        let last = text.last();
        lemma_scan_outcome(rest);
        assert(rest + seq![last] =~= text);
        assert(text[text.len() - 1] == last);
        lemma_bytes_add(rest, seq![last]);
        lemma_bytes_of_texts(seq![last]);
        assert forall|i: int| 0 <= i < rest.len() implies #[trigger] rest[i] == text[i] by {}
        if forall|i: int|
            0 <= i < text.len() && !whitespace(#[trigger] text[i]) ==> !control(text[i]) {
            assert forall|i: int| 0 <= i < rest.len() && !whitespace(#[trigger] rest[i]) implies
                !control(rest[i]) by {
                assert(!whitespace(text[i]));
            }
        }
        match scanned(rest) {
            Ok(before) => {
                if !whitespace(last) && !control(last) {
                    lemma_bytes_add(before, seq![last]);
                    assert(before + seq![last] =~= before.push(last));
                    lemma_bytes_add(before, seq![' ']);
                    assert(before + seq![' '] =~= before.push(' '));
                    lemma_bytes_add(before.push(' '), seq![last]);
                    assert(before.push(' ') + seq![last] =~= before.push(' ').push(last));
                    lemma_space_is_one_byte();
                    if before.len() > 0 && whitespace(text[text.len() - 2]) {
                        assert(rest.last() == text[text.len() - 2]);
                    }
                }
                if scanned(text) is Ok {
                    assert forall|i: int| 0 <= i < text.len() && !whitespace(
                        #[trigger] text[i],
                    ) implies !control(text[i]) by {
                        if i < rest.len() {
                            assert(!whitespace(rest[i]));
                        }
                    }
                }
            },
            Err(error) => {
                if error == SymbolValueError::Control {
                    let i = choose|i: int|
                        0 <= i < rest.len() && !whitespace(#[trigger] rest[i]) && control(rest[i]);
                    assert(!whitespace(text[i]) && control(text[i]));
                }
            },
        }
    }
}

proof fn lemma_bytes_add(first: Seq<char>, second: Seq<char>)
    ensures
        encode_utf8(first + second) == encode_utf8(first) + encode_utf8(second),
    decreases first.len(),
{
    if first.len() == 0 {
        assert(first + second =~= second);
        assert(encode_utf8(first) + encode_utf8(second) =~= encode_utf8(second));
    } else {
        lemma_bytes_add(first.drop_first(), second);
        assert((first + second).drop_first() =~= first.drop_first() + second);
        assert((first + second)[0] == first[0]);
        assert(encode_utf8(first + second) =~= encode_utf8(first) + encode_utf8(second));
    }
}

proof fn lemma_space_is_one_byte()
    ensures
        encode_utf8(seq![' ']).len() == 1,
{
    reveal_with_fuel(encode_utf8, 2);
    assert(seq![' '].drop_first() =~= Seq::<char>::empty());
    assert(encode_utf8(seq![' ']).len() == 1);
}

/// The characters that count as whitespace, and the control characters.
pub proof fn law_whitespace_and_controls(character: char)
    ensures
        whitespace(character) <==> {
            let code = character as u32;
            ||| 9 <= code <= 13
            ||| code == 32
            ||| code == 133
            ||| code == 160
            ||| code == 5760
            ||| 8192 <= code <= 8202
            ||| 8232 <= code <= 8233
            ||| code == 8239
            ||| code == 8287
            ||| code == 12288
        },
        control(character) <==> character as u32 <= 31 || 127 <= character as u32 <= 159,
{
}

} // verus!
