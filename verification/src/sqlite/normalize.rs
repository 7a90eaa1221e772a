//! Canonical symbol texts: Unicode folding, whitespace and length rules.

use vstd::prelude::*;
use vstd::utf8::{encode_utf8, is_scalar};

use crate::sqlite::error::StoreError;
use crate::text::{byte_length, is_unicode_16_whitespace, list_chars, same_text, whitespace};
use crate::text_table::{contents, distinct, TextTable};

verus! {

/// Longest canonical symbol in UTF-8 bytes.
pub const MAX_SYMBOL_BYTES: usize = 4096;

/// Raw values that a batch remembers to spare their normalization.
pub const RECENT_NON_CANONICAL_SYMBOLS: usize = 256;

const EMPTY_DETAIL: &'static str = "normalized value is empty";

const CONTROL_DETAIL: &'static str = "normalized value contains a control character";

const TOO_LONG_DETAIL: &'static str = "normalized UTF-8 value exceeds 4096 bytes";

/// The Unicode Normalization Form KC of a text, as the crate
/// `unicode-normalization` computes it.
pub uninterp spec fn nfkc_of(text: Seq<char>) -> Seq<char>;

/// The lowercase mapping of a character, as the crate `unicode-case-mapping`
/// tabulates it: up to two scalar values, unused entries zero.
pub uninterp spec fn lowercase_mapping(character: char) -> Seq<u32>;

/// Calls `UnicodeNormalization::nfkc`, whose result depends on the characters alone.
#[verifier::external_body]
fn nfkc(characters: &[char]) -> (normalized: Vec<char>)
    ensures
        normalized@ == nfkc_of(characters@),
{
    unicode_normalization::UnicodeNormalization::nfkc(characters.iter().copied()).collect()
}

/// `unicode_case_mapping::to_lowercase` looks the character up in a fixed table.
pub assume_specification[ unicode_case_mapping::to_lowercase ](chr: char) -> (mapping: [u32; 2])
    ensures
        mapping@ == lowercase_mapping(chr),
;

/// Why a text has no canonical symbol.
#[derive(Clone, Copy, Debug, PartialEq, Eq, Structural)]
pub enum SymbolValueError {
    /// Nothing but whitespace is left.
    Empty,
    /// A control character is left.
    Control,
    /// The canonical text is too long.
    TooLong,
}

impl SymbolValueError {
    /// The violated rule.
    pub open spec fn rule(self) -> &'static str {
        match self {
            SymbolValueError::Empty => "normalized value is empty",
            SymbolValueError::Control => "normalized value contains a control character",
            SymbolValueError::TooLong => "normalized UTF-8 value exceeds 4096 bytes",
        }
    }

    /// Returns the violated rule.
    pub fn detail(self) -> (detail: &'static str)
        ensures
            detail == self.rule(),
    {
        match self {
            SymbolValueError::Empty => EMPTY_DETAIL,
            SymbolValueError::Control => CONTROL_DETAIL,
            SymbolValueError::TooLong => TOO_LONG_DETAIL,
        }
    }
}

/// The Unicode control characters.
pub open spec fn control(character: char) -> bool {
    character <= '\u{001F}' || '\u{007F}' <= character <= '\u{009F}'
}

/// Tests for a Unicode control character.
pub fn is_unicode_control(character: char) -> (result: bool)
    ensures
        result == control(character),
{
    character <= '\u{001F}' || ('\u{007F}' <= character && character <= '\u{009F}')
}

/// The characters of one mapping entry.
pub open spec fn mapped(scalar: u32) -> Seq<char> {
    if scalar != 0 && is_scalar(scalar) {
        seq![scalar as char]
    } else {
        Seq::empty()
    }
}

/// A character's lowercase text: itself if the mapping is empty.
pub open spec fn lower_of(character: char, mapping: Seq<u32>) -> Seq<char> {
    if mapping[0] == 0 {
        seq![character]
    } else {
        mapped(mapping[0]) + mapped(mapping[1])
    }
}

/// The lowercase text of each character in turn.
pub open spec fn lowered(text: Seq<char>) -> Seq<char>
    decreases text.len(),
{
    if text.len() == 0 {
        Seq::empty()
    } else {
        lowered(text.drop_last()) + lower_of(text.last(), lowercase_mapping(text.last()))
    }
}

/// A text with each run of whitespace between words made one space, and none
/// at its ends; the first control character or excess byte is an error.
pub open spec fn scanned(text: Seq<char>) -> Result<Seq<char>, SymbolValueError>
    decreases text.len(),
{
    if text.len() == 0 {
        Ok(Seq::empty())
    } else {
        match scanned(text.drop_last()) {
            Err(error) => Err(error),
            Ok(before) => if whitespace(text.last()) {
                Ok(before)
            } else if control(text.last()) {
                Err(SymbolValueError::Control)
            } else {
                let after = appended(before, text);
                if encode_utf8(after).len() > MAX_SYMBOL_BYTES {
                    Err(SymbolValueError::TooLong)
                } else {
                    Ok(after)
                }
            },
        }
    }
}

/// The last character behind what came before, parted by a space where
/// whitespace stood between them.
pub open spec fn appended(before: Seq<char>, text: Seq<char>) -> Seq<char> {
    if before.len() > 0 && whitespace(text[text.len() - 2]) {
        before.push(' ').push(text.last())
    } else {
        before.push(text.last())
    }
}

/// The canonical symbol of a folded text.
pub open spec fn collapsed(folded: Seq<char>) -> Result<Seq<char>, SymbolValueError> {
    match scanned(folded) {
        Err(error) => Err(error),
        Ok(text) => if text.len() == 0 {
            Err(SymbolValueError::Empty)
        } else {
            Ok(text)
        },
    }
}

/// The canonical symbol of a text.
pub open spec fn normalized(text: Seq<char>) -> Result<Seq<char>, SymbolValueError> {
    collapsed(nfkc_of(lowered(nfkc_of(text))))
}

/// The outcome of a normalization, by the text's contents.
pub open spec fn text_result(result: Result<String, SymbolValueError>) -> Result<
    Seq<char>,
    SymbolValueError,
> {
    match result {
        Ok(text) => Ok(text@),
        Err(error) => Err(error),
    }
}

fn push_scalar(characters: &mut Vec<char>, scalar: u32)
    ensures
        final(characters)@ == old(characters)@ + mapped(scalar),
{
    let ghost before = characters@;
    if scalar != 0 {
        match char::from_u32(scalar) {
            Some(character) => {
                proof {
                    vstd::utf8::char_u32_cast(character, scalar);
                }
                characters.push(character);
            },
            None => {},
        }
    }
    assert(characters@ =~= before + mapped(scalar));
}

/// Appends the lowercase text of a character with the given mapping.
pub fn push_lowercase(characters: &mut Vec<char>, character: char, mapping: [u32; 2])
    ensures
        final(characters)@ == old(characters)@ + lower_of(character, mapping@),
{
    let ghost before = characters@;
    if mapping[0] == 0 {
        characters.push(character);
        assert(characters@ =~= before + seq![character]);
    } else {
        push_scalar(characters, mapping[0]);
        push_scalar(characters, mapping[1]);
        assert(characters@ =~= before + (mapped(mapping@[0]) + mapped(mapping@[1])));
    }
}

/// Maps each character to its lowercase text.
pub fn unicode_lowercase(characters: &[char]) -> (lowercase: Vec<char>)
    ensures
        lowercase@ == lowered(characters@),
{
    let mut lowercase: Vec<char> = Vec::new();
    let mut index: usize = 0;
    while index < characters.len()
        invariant
            index <= characters@.len(),
            lowercase@ == lowered(characters@.take(index as int)),
        decreases characters.len() - index,
    {
        let character = characters[index];
        let mapping = unicode_case_mapping::to_lowercase(character);
        push_lowercase(&mut lowercase, character, mapping);
        proof {
            let next = characters@.take(index + 1);
            assert(next.drop_last() =~= characters@.take(index as int));
        }
        index += 1;
    }
    assert(characters@.take(characters@.len() as int) =~= characters@);
    lowercase
}

proof fn lemma_scan_stops(text: Seq<char>, end: int)
    requires
        0 <= end <= text.len(),
        scanned(text.take(end)) is Err,
    ensures
        scanned(text) == scanned(text.take(end)),
    decreases text.len(),
{
    if end < text.len() {
        assert(text.drop_last().take(end) =~= text.take(end));
        lemma_scan_stops(text.drop_last(), end);
    } else {
        assert(text.take(end) =~= text);
    }
}

/// Collapses a folded text to its canonical symbol.
pub fn collapse_symbol(folded: &[char]) -> (result: Result<String, SymbolValueError>)
    ensures
        text_result(result) == collapsed(folded@),
{
    let mut normalized = String::new();
    let mut whitespace_pending = false;
    let mut index: usize = 0;
    assert(folded@.take(0) =~= Seq::empty());
    while index < folded.len()
        invariant
            index <= folded@.len(),
            scanned(folded@.take(index as int)) == Ok::<Seq<char>, SymbolValueError>(normalized@),
            normalized@.len() > 0 ==> (whitespace_pending <==> whitespace(folded@[index - 1])),
            normalized@.len() == 0 ==> !whitespace_pending,
            index == 0 ==> normalized@.len() == 0,
        decreases folded.len() - index,
    {
        let character = folded[index];
        let ghost next = folded@.take(index + 1);
        proof {
            assert(next.drop_last() =~= folded@.take(index as int));
            assert(next.last() == character);
            if index > 0 {
                assert(next[next.len() - 2] == folded@[index - 1]);
            }
        }
        if is_unicode_16_whitespace(character) {
            whitespace_pending = !normalized.as_str().is_empty();
            index += 1;
            continue;
        }
        if is_unicode_control(character) {
            proof {
                lemma_scan_stops(folded@, index + 1);
            }
            return Err(SymbolValueError::Control);
        }
        if whitespace_pending {
            normalized.push(' ');
            whitespace_pending = false;
        }
        normalized.push(character);
        if byte_length(normalized.as_str()) > MAX_SYMBOL_BYTES {
            proof {
                lemma_scan_stops(folded@, index + 1);
            }
            return Err(SymbolValueError::TooLong);
        }
        index += 1;
    }
    assert(folded@.take(folded@.len() as int) =~= folded@);
    if normalized.as_str().is_empty() {
        return Err(SymbolValueError::Empty);
    }
    Ok(normalized)
}

/// Normalizes a symbol text: Form KC, lowercase, Form KC again, one space
/// between words and none around them.
pub fn normalize_symbol(value: &str) -> (result: Result<String, SymbolValueError>)
    ensures
        text_result(result) == normalized(value@),
{
    let characters = list_chars(value);
    let composed = nfkc(characters.as_slice());
    let lowercase = unicode_lowercase(composed.as_slice());
    let folded = nfkc(lowercase.as_slice());
    collapse_symbol(folded.as_slice())
}

/// Canonical symbols hold single spaces between words, and no other
/// whitespace, no control character and no excess byte.
pub open spec fn canonical_symbol(text: Seq<char>) -> bool {
    &&& text.len() > 0
    &&& encode_utf8(text).len() <= MAX_SYMBOL_BYTES
    &&& tidy(text)
}

/// Whitespace is single spaces between other characters, none of them a control.
pub open spec fn tidy(text: Seq<char>) -> bool {
    &&& forall|i: int|
        0 <= i < text.len() ==> {
            &&& whitespace(#[trigger] text[i]) ==> text[i] == ' '
            &&& !whitespace(text[i]) ==> !control(text[i])
        }
    &&& forall|i: int|
        0 <= i < text.len() && whitespace(#[trigger] text[i]) ==> 0 < i < text.len() - 1
            && !whitespace(text[i - 1])
    &&& text.len() > 0 ==> !whitespace(text.last())
}

/// What a scan gives is tidy and not too long.
pub proof fn lemma_scanned_is_tidy(text: Seq<char>)
    requires
        scanned(text) is Ok,
    ensures
        tidy(scanned(text)->Ok_0),
        scanned(text)->Ok_0.len() > 0 ==> encode_utf8(scanned(text)->Ok_0).len()
            <= MAX_SYMBOL_BYTES,
    decreases text.len(),
{
    if text.len() > 0 {
        lemma_scanned_is_tidy(text.drop_last());
        let before = scanned(text.drop_last())->Ok_0;
        if !whitespace(text.last()) {
            let after = appended(before, text);
            assert(scanned(text)->Ok_0 == after);
            assert forall|i: int| 0 <= i < after.len() && whitespace(#[trigger] after[i]) implies 0
                < i < after.len() - 1 && !whitespace(after[i - 1]) by {
                if i < before.len() {
                    assert(after[i] == before[i]);
                    assert(after[i - 1] == before[i - 1]);
                } else {
                    assert(i == before.len());
                    assert(after[i - 1] == before.last());
                }
            }
            assert forall|i: int| 0 <= i < after.len() implies {
                &&& whitespace(#[trigger] after[i]) ==> after[i] == ' '
                &&& !whitespace(after[i]) ==> !control(after[i])
            } by {
                if i < before.len() {
                    assert(after[i] == before[i]);
                }
            }
        }
    }
}

/// Every normalized symbol is canonical.
pub proof fn law_normalized_symbols_are_canonical(text: Seq<char>)
    requires
        normalized(text) is Ok,
    ensures
        canonical_symbol(normalized(text)->Ok_0),
{
    lemma_scanned_is_tidy(nfkc_of(lowered(nfkc_of(text))));
}

/// The beginning of a text takes no more bytes than the text.
pub proof fn lemma_utf8_prefix(text: Seq<char>, end: int)
    requires
        0 <= end <= text.len(),
    ensures
        encode_utf8(text.take(end)).len() <= encode_utf8(text).len(),
    decreases end,
{
    if end == 0 {
        assert(text.take(0) =~= Seq::empty());
    } else {
        let part = text.take(end);
        assert(part.drop_first() =~= text.drop_first().take(end - 1));
        lemma_utf8_prefix(text.drop_first(), end - 1);
        assert(part[0] == text[0]);
    }
}

proof fn lemma_tidy_is_fixed(text: Seq<char>, end: int)
    requires
        tidy(text),
        encode_utf8(text).len() <= MAX_SYMBOL_BYTES,
        0 <= end <= text.len(),
    ensures
        scanned(text.take(end)) == Ok::<Seq<char>, SymbolValueError>(
            if end > 0 && whitespace(text[end - 1]) {
                text.take(end - 1)
            } else {
                text.take(end)
            },
        ),
    decreases end,
{
    if end > 0 {
        lemma_tidy_is_fixed(text, end - 1);
        lemma_utf8_prefix(text, end);
        let part = text.take(end);
        assert(part.drop_last() =~= text.take(end - 1));
        assert(part.last() == text[end - 1]);
        if end > 1 {
            assert(part[part.len() - 2] == text[end - 2]);
        }
        if !whitespace(text[end - 1]) {
            let before = scanned(part.drop_last())->Ok_0;
            if end > 1 && whitespace(text[end - 2]) {
                assert(0 < end - 2);
                assert(before =~= text.take(end - 2));
                assert(before.len() > 0);
                assert(appended(before, part) =~= text.take(end));
            } else {
                assert(appended(before, part) =~= text.take(end));
            }
        } else {
            assert(!whitespace(text[end - 2]));
        }
    } else {
        assert(text.take(0) =~= Seq::empty());
    }
}

/// Collapsing a canonical symbol leaves it unchanged.
pub proof fn law_canonical_symbols_are_fixed(text: Seq<char>)
    requires
        canonical_symbol(text),
    ensures
        collapsed(text) == Ok::<Seq<char>, SymbolValueError>(text),
{
    lemma_tidy_is_fixed(text, text.len() as int);
    assert(text.take(text.len() as int) =~= text);
}

proof fn lemma_scan_of_blanks(text: Seq<char>)
    ensures
        scanned(text) == Ok::<Seq<char>, SymbolValueError>(Seq::empty()) <==> forall|i: int|
            0 <= i < text.len() ==> whitespace(#[trigger] text[i]),
    decreases text.len(),
{
    if text.len() > 0 {
        let rest = text.drop_last();
        lemma_scan_of_blanks(rest);
        assert forall|i: int| 0 <= i < rest.len() implies #[trigger] rest[i] == text[i] by {}
        assert(text.last() == text[text.len() - 1]);
        if forall|i: int| 0 <= i < text.len() ==> whitespace(#[trigger] text[i]) {
            assert forall|i: int| 0 <= i < rest.len() implies whitespace(#[trigger] rest[i]) by {
                assert(whitespace(text[i]));
            }
        }
        if scanned(text) == Ok::<Seq<char>, SymbolValueError>(Seq::empty()) {
            if !whitespace(text.last()) {
                assert(appended(scanned(rest)->Ok_0, text).len() > 0);
            }
            assert forall|i: int| 0 <= i < text.len() implies whitespace(#[trigger] text[i]) by {
                if i < rest.len() {
                    assert(whitespace(rest[i]));
                }
            }
        }
    }
}

/// A folded text is rejected as empty exactly if it holds nothing but whitespace.
pub proof fn law_blank_texts_are_empty(folded: Seq<char>)
    ensures
        collapsed(folded) == Err::<Seq<char>, SymbolValueError>(SymbolValueError::Empty)
            <==> forall|i: int| 0 <= i < folded.len() ==> whitespace(#[trigger] folded[i]),
{
    lemma_scan_of_blanks(folded);
    lemma_scan_is_never_empty(folded);
    match scanned(folded) {
        Ok(text) => {
            assert(text.len() == 0 ==> text =~= Seq::empty());
        },
        Err(_) => {},
    }
}

/// Scanning reports controls and excess bytes only.
proof fn lemma_scan_is_never_empty(text: Seq<char>)
    ensures
        scanned(text) != Err::<Seq<char>, SymbolValueError>(SymbolValueError::Empty),
    decreases text.len(),
{
    if text.len() > 0 {
        lemma_scan_is_never_empty(text.drop_last());
    }
}

/// The value's canonical symbol, if it has one, is its own canonical symbol.
pub open spec fn settles(value: Seq<char>) -> bool {
    normalized(value) matches Ok(text) ==> normalized(text) == Ok::<Seq<char>, SymbolValueError>(
        text,
    )
}

/// A value settles in one step if folding leaves its canonical symbol
/// unchanged: whitespace, control and length rules change nothing more.
///
/// That folding leaves it unchanged rests on the Unicode tables behind
/// [`nfkc_of`] and [`lowercase_mapping`], of which nothing is said here.
pub proof fn law_values_settle_where_folding_does(value: Seq<char>)
    requires
        normalized(value) matches Ok(text) ==> nfkc_of(lowered(nfkc_of(text))) == text,
    ensures
        settles(value),
{
    if normalized(value) is Ok {
        law_normalized_symbols_are_canonical(value);
        law_canonical_symbols_are_fixed(normalized(value)->Ok_0);
    }
}

/// Distinct canonical values of a batch, and where each input stands among them.
#[derive(Clone, Debug, PartialEq, Eq)]
pub struct NormalizedBatch {
    /// Canonical values in the order of their first occurrence.
    pub unique_values: Vec<String>,
    /// The place of each input's canonical value.
    pub positions: Vec<usize>,
}

/// The place of a text, and the texts with it.
pub open spec fn numbered(unique: Seq<Seq<char>>, text: Seq<char>) -> (Seq<Seq<char>>, int) {
    if unique.contains(text) {
        (unique, unique.index_of(text))
    } else {
        (unique.push(text), unique.len() as int)
    }
}

/// The batch of raw values: a value that is already listed stands for itself,
/// any other for its canonical symbol.
pub open spec fn batch_of(values: Seq<Seq<char>>) -> Result<
    (Seq<Seq<char>>, Seq<int>),
    StoreError,
>
    decreases values.len(),
{
    if values.len() == 0 {
        Ok((Seq::empty(), Seq::empty()))
    } else {
        match batch_of(values.drop_last()) {
            Err(error) => Err(error),
            Ok((unique, positions)) => if unique.contains(values.last()) {
                Ok((unique, positions.push(unique.index_of(values.last()))))
            } else {
                match normalized(values.last()) {
                    Err(error) => Err(
                        StoreError::InvalidSymbolValue {
                            index: (values.len() - 1) as usize,
                            detail: error.rule(),
                        },
                    ),
                    Ok(text) => Ok(
                        (numbered(unique, text).0, positions.push(numbered(unique, text).1)),
                    ),
                }
            },
        }
    }
}

/// The batch holds the model's values and positions.
pub open spec fn represents(batch: NormalizedBatch, model: (Seq<Seq<char>>, Seq<int>)) -> bool {
    &&& contents(batch.unique_values@) == model.0
    &&& batch.positions@.len() == model.1.len()
    &&& forall|i: int|
        0 <= i < model.1.len() ==> (#[trigger] batch.positions@[i]) as int == model.1[i]
}

/// The last raw values whose canonical text differs, with its place.
struct RecentSymbols {
    entries: Vec<(String, usize)>,
    oldest: usize,
}

/// Some remembered value is the text.
spec fn remembers(recent: Seq<(Seq<char>, usize)>, text: Seq<char>) -> bool {
    exists|i: int| 0 <= i < recent.len() && (#[trigger] recent[i]).0 == text
}

impl RecentSymbols {
    /// The entries by their texts.
    spec fn pairs(&self) -> Seq<(Seq<char>, usize)> {
        self.entries@.map_values(|entry: (String, usize)| (entry.0@, entry.1))
    }

    /// The remembered values with their places, oldest first.
    spec fn recent(&self) -> Seq<(Seq<char>, usize)> {
        self.pairs().skip(self.oldest as int) + self.pairs().take(self.oldest as int)
    }

    /// Each entry's place holds its canonical symbol, and the first entry is the
    /// oldest one as long as there is room for more.
    spec fn recalls(&self, unique: Seq<Seq<char>>) -> bool {
        &&& self.entries@.len() <= RECENT_NON_CANONICAL_SYMBOLS
        &&& self.oldest < RECENT_NON_CANONICAL_SYMBOLS
        &&& self.entries@.len() < RECENT_NON_CANONICAL_SYMBOLS ==> self.oldest == 0
        &&& forall|i: int|
            0 <= i < self.entries@.len() ==> {
                let entry = #[trigger] self.entries@[i];
                &&& entry.1 < unique.len()
                &&& normalized(entry.0@) == Ok::<Seq<char>, SymbolValueError>(
                    unique[entry.1 as int],
                )
            }
    }

    /// The remembered values are those of the entries.
    proof fn lemma_recent_pairs(&self)
        requires
            self.oldest <= self.entries@.len(),
        ensures
            self.recent().len() == self.entries@.len(),
            forall|i: int|
                0 <= i < self.recent().len() ==> self.pairs().contains(#[trigger] self.recent()[i]),
            forall|i: int|
                0 <= i < self.pairs().len() ==> self.recent().contains(#[trigger] self.pairs()[i]),
    {
        let pairs = self.pairs();
        let recent = self.recent();
        let oldest = self.oldest as int;
        assert(pairs.len() == self.entries@.len());
        assert forall|i: int| 0 <= i < recent.len() implies pairs.contains(
            #[trigger] recent[i],
        ) by {
            if i < pairs.len() - oldest {
                assert(recent[i] == pairs[oldest + i]);
            } else {
                assert(recent[i] == pairs[i - (pairs.len() - oldest)]);
            }
        }
        assert forall|i: int| 0 <= i < pairs.len() implies recent.contains(#[trigger] pairs[i]) by {
            if i < oldest {
                assert(recent[pairs.len() - oldest + i] == pairs[i]);
            } else {
                assert(recent[i - oldest] == pairs[i]);
            }
        }
    }

    /// Finds the place of a remembered value.
    fn find(&self, value: &str, Ghost(unique): Ghost<Seq<Seq<char>>>) -> (found: Option<usize>)
        requires
            self.recalls(unique),
        ensures
            found is Some <==> remembers(self.recent(), value@),
            found matches Some(position) ==> {
                &&& self.recent().contains((value@, position))
                &&& position < unique.len()
                &&& normalized(value@) == Ok::<Seq<char>, SymbolValueError>(
                    unique[position as int],
                )
            },
    {
        proof {
            self.lemma_recent_pairs();
        }
        let mut index: usize = 0;
        while index < self.entries.len()
            invariant
                index <= self.entries@.len(),
                self.recalls(unique),
                forall|i: int| 0 <= i < index ==> (#[trigger] self.pairs()[i]).0 != value@,
            decreases self.entries.len() - index,
        {
            assert(self.pairs()[index as int] == (
                self.entries@[index as int].0@,
                self.entries@[index as int].1,
            ));
            if same_text(self.entries[index].0.as_str(), value) {
                proof {
                    self.lemma_recent_pairs();
                    let pair = self.pairs()[index as int];
                    let place = self.recent().index_of(pair);
                    assert(self.recent()[place] == pair);
                }
                return Some(self.entries[index].1);
            }
            index += 1;
        }
        proof {
            if remembers(self.recent(), value@) {
                let place = choose|i: int|
                    0 <= i < self.recent().len() && (#[trigger] self.recent()[i]).0 == value@;
                let pair = self.recent()[place];
                assert(self.pairs().contains(pair));
                let other = self.pairs().index_of(pair);
                assert(self.pairs()[other] == pair);
            }
        }
        None
    }

    /// Remembers a value behind the others, and forgets the oldest one where
    /// there is no room for another.
    fn remember(&mut self, value: String, position: usize, Ghost(unique): Ghost<Seq<Seq<char>>>)
        requires
            old(self).recalls(unique),
            position < unique.len(),
            normalized(value@) == Ok::<Seq<char>, SymbolValueError>(unique[position as int]),
        ensures
            final(self).recalls(unique),
            final(self).recent() == if old(self).recent().len() == 256 {
                old(self).recent().drop_first().push((value@, position))
            } else {
                old(self).recent().push((value@, position))
            },
    {
        let ghost text = value@;
        let ghost before = self.pairs();
        let ghost first = self.oldest as int;
        proof {
            self.lemma_recent_pairs();
        }
        if self.entries.len() == RECENT_NON_CANONICAL_SYMBOLS {
            let oldest: usize = self.oldest;
            self.entries.set(oldest, (value, position));
            self.oldest = if oldest + 1 == RECENT_NON_CANONICAL_SYMBOLS {
                0
            } else {
                oldest + 1
            };
            proof {
                assert(self.pairs() =~= before.update(first, (text, position)));
                assert(self.recent() =~= old(self).recent().drop_first().push((text, position)));
            }
        } else {
            self.entries.push((value, position));
            proof {
                assert(self.pairs() =~= before.push((text, position)));
                assert(self.recent() =~= old(self).recent().push((text, position)));
            }
        }
    }
}

proof fn lemma_batch_stops(values: Seq<Seq<char>>, end: int)
    requires
        0 <= end <= values.len(),
        batch_of(values.take(end)) is Err,
    ensures
        batch_of(values) == batch_of(values.take(end)),
    decreases values.len(),
{
    if end < values.len() {
        assert(values.drop_last().take(end) =~= values.take(end));
        lemma_batch_stops(values.drop_last(), end);
    } else {
        assert(values.take(end) =~= values);
    }
}

proof fn lemma_unique_place(texts: Seq<Seq<char>>, place: int)
    requires
        distinct(texts),
        0 <= place < texts.len(),
    ensures
        texts.contains(texts[place]),
        texts.index_of(texts[place]) == place,
{
    let other = texts.index_of(texts[place]);
    assert(texts[other] == texts[place]);
    if other < place {
        assert(texts[other] != texts[place]);
    } else if place < other {
        assert(texts[place] != texts[other]);
    }
}

/// Normalizes values in input order and merges equal canonical values.
pub fn normalize_batch(values: &[String]) -> (result: Result<NormalizedBatch, StoreError>)
    ensures
        match result {
            Ok(batch) => batch_of(contents(values@)) is Ok && represents(
                batch,
                batch_of(contents(values@))->Ok_0,
            ) && distinct(contents(batch.unique_values@)),
            Err(error) => batch_of(contents(values@)) == Err::<
                (Seq<Seq<char>>, Seq<int>),
                StoreError,
            >(error),
        },
{
    let mut canonical = TextTable::new();
    let mut recent = RecentSymbols { entries: Vec::new(), oldest: 0 };
    let mut positions: Vec<usize> = Vec::new();
    let ghost texts = contents(values@);
    let ghost mut places: Seq<int> = Seq::empty();
    let mut index: usize = 0;
    assert(texts.take(0) =~= Seq::empty());
    while index < values.len()
        invariant
            index <= values@.len(),
            texts == contents(values@),
            batch_of(texts.take(index as int)) == Ok::<(Seq<Seq<char>>, Seq<int>), StoreError>(
                (canonical@, places),
            ),
            positions@.len() == places.len(),
            forall|i: int| 0 <= i < places.len() ==> (#[trigger] positions@[i]) as int == places[i],
            recent.recalls(canonical@),
        decreases values.len() - index,
    {
        let value = values[index].as_str();
        let ghost next = texts.take(index + 1);
        let ghost before = canonical@;
        proof {
            assert(next.drop_last() =~= texts.take(index as int));
            assert(next.last() == value@);
        }
        let known: usize = canonical.len();
        match canonical.find(value) {
            Some(position) => {
                proof {
                    lemma_unique_place(canonical@, position as int);
                    places = places.push(position as int);
                }
                positions.push(position);
                index += 1;
                continue;
            },
            None => {},
        }
        match recent.find(value, Ghost(canonical@)) {
            Some(position) => {
                proof {
                    lemma_unique_place(canonical@, position as int);
                    places = places.push(position as int);
                }
                positions.push(position);
                index += 1;
                continue;
            },
            None => {},
        }
        match normalize_symbol(value) {
            Err(error) => {
                proof {
                    lemma_batch_stops(texts, index + 1);
                }
                return Err(StoreError::InvalidSymbolValue { index, detail: error.detail() });
            },
            Ok(text) => {
                let is_non_canonical = !same_text(text.as_str(), value);
                let ghost content = text@;
                let position: usize = canonical.insert(text);
                let known_now: usize = canonical.len();
                proof {
                    if before.contains(content) {
                        lemma_unique_place(canonical@, position as int);
                    }
                    assert(numbered(before, content) == (canonical@, position as int));
                    places = places.push(position as int);
                    assert forall|i: int| 0 <= i < before.len() implies before[i]
                        == canonical@[i] by {}
                }
                positions.push(position);
                if is_non_canonical {
                    recent.remember(value.to_owned(), position, Ghost(canonical@));
                }
            },
        }
        index += 1;
    }
    assert(texts.take(texts.len() as int) =~= texts);
    let unique_values = canonical.into_texts();
    Ok(NormalizedBatch { unique_values, positions })
}

/// An input that repeats the canonical symbol of an earlier one is itself canonical.
pub open spec fn repeats_settle(values: Seq<Seq<char>>) -> bool {
    forall|j: int, i: int|
        #![trigger values[j], values[i]]
        0 <= j < i < values.len() && normalized(values[j]) == Ok::<Seq<char>, SymbolValueError>(
            values[i],
        ) ==> normalized(values[i]) == Ok::<Seq<char>, SymbolValueError>(values[i])
}

/// The text is the canonical symbol of some value.
pub open spec fn is_symbol_of(values: Seq<Seq<char>>, text: Seq<char>) -> bool {
    exists|i: int|
        0 <= i < values.len() && normalized(#[trigger] values[i]) == Ok::<
            Seq<char>,
            SymbolValueError,
        >(text)
}

/// Each input's place holds its canonical symbol, each listed value is the
/// canonical symbol of an input, and none is listed twice.
///
/// A listed value stands for itself, so an input that repeats one must be canonical.
pub proof fn law_batch_positions_hold_canonical_symbols(values: Seq<Seq<char>>)
    requires
        batch_of(values) is Ok,
        repeats_settle(values),
    ensures
        distinct(batch_of(values)->Ok_0.0),
        batch_of(values)->Ok_0.1.len() == values.len(),
        forall|i: int|
            0 <= i < values.len() ==> {
                let place = #[trigger] batch_of(values)->Ok_0.1[i];
                &&& 0 <= place < batch_of(values)->Ok_0.0.len()
                &&& normalized(values[i]) == Ok::<Seq<char>, SymbolValueError>(
                    batch_of(values)->Ok_0.0[place],
                )
            },
        forall|k: int|
            0 <= k < batch_of(values)->Ok_0.0.len() ==> is_symbol_of(
                values,
                #[trigger] batch_of(values)->Ok_0.0[k],
            ),
    decreases values.len(),
{
    if values.len() > 0 {
        let rest = values.drop_last();
        assert forall|j: int, i: int|
            #![trigger rest[j], rest[i]]
            0 <= j < i < rest.len() && normalized(rest[j]) == Ok::<Seq<char>, SymbolValueError>(
                rest[i],
            ) implies normalized(rest[i]) == Ok::<Seq<char>, SymbolValueError>(rest[i]) by {
            assert(rest[j] == values[j] && rest[i] == values[i]);
        }
        law_batch_positions_hold_canonical_symbols(rest);
        let value = values.last();
        let last = values.len() - 1;
        assert(values[last] == value);
        let (unique, places) = batch_of(rest)->Ok_0;
        let (all, positions) = batch_of(values)->Ok_0;
        if unique.contains(value) {
            let k = unique.index_of(value);
            assert(is_symbol_of(rest, unique[k]));
            let j = choose|j: int|
                0 <= j < rest.len() && normalized(#[trigger] rest[j]) == Ok::<
                    Seq<char>,
                    SymbolValueError,
                >(value);
            assert(rest[j] == values[j]);
            assert(normalized(values[last]) == Ok::<Seq<char>, SymbolValueError>(values[last]));
        } else {
            let text = normalized(value)->Ok_0;
            if !unique.contains(text) {
                assert(all =~= unique.push(text));
                assert forall|i: int, j: int|
                    #![trigger all[i], all[j]]
                    0 <= i < j < all.len() implies all[i] != all[j] by {
                    if j == unique.len() {
                        assert(unique[i] != text);
                    } else {
                        assert(unique[i] != unique[j]);
                    }
                }
            }
        }
        assert forall|k: int| 0 <= k < all.len() implies is_symbol_of(
            values,
            #[trigger] all[k],
        ) by {
            if k < unique.len() {
                assert(is_symbol_of(rest, unique[k]));
                let j = choose|j: int|
                    0 <= j < rest.len() && normalized(#[trigger] rest[j]) == Ok::<
                        Seq<char>,
                        SymbolValueError,
                    >(unique[k]);
                assert(rest[j] == values[j]);
            } else {
                assert(normalized(values[last]) == Ok::<Seq<char>, SymbolValueError>(all[k]));
            }
        }
        assert forall|i: int| 0 <= i < values.len() implies {
            let place = #[trigger] positions[i];
            &&& 0 <= place < all.len()
            &&& normalized(values[i]) == Ok::<Seq<char>, SymbolValueError>(all[place])
        } by {
            if i < rest.len() {
                assert(positions[i] == places[i]);
                assert(rest[i] == values[i]);
                assert(all[places[i]] == unique[places[i]]);
            }
        }
    }
}

/// Where every value settles in one step, repeats settle, and each listed
/// value is its own canonical symbol.
pub proof fn law_settled_batches_list_canonical_symbols(values: Seq<Seq<char>>)
    requires
        batch_of(values) is Ok,
        forall|i: int| 0 <= i < values.len() ==> settles(#[trigger] values[i]),
    ensures
        repeats_settle(values),
        forall|k: int|
            0 <= k < batch_of(values)->Ok_0.0.len() ==> normalized(
                #[trigger] batch_of(values)->Ok_0.0[k],
            ) == Ok::<Seq<char>, SymbolValueError>(batch_of(values)->Ok_0.0[k]),
{
    assert forall|j: int, i: int|
        #![trigger values[j], values[i]]
        0 <= j < i < values.len() && normalized(values[j]) == Ok::<Seq<char>, SymbolValueError>(
            values[i],
        ) implies normalized(values[i]) == Ok::<Seq<char>, SymbolValueError>(values[i]) by {
        assert(settles(values[j]));
    }
    law_batch_positions_hold_canonical_symbols(values);
    let unique = batch_of(values)->Ok_0.0;
    assert forall|k: int| 0 <= k < unique.len() implies normalized(#[trigger] unique[k]) == Ok::<
        Seq<char>,
        SymbolValueError,
    >(unique[k]) by {
        assert(is_symbol_of(values, unique[k]));
        let j = choose|j: int|
            0 <= j < values.len() && normalized(#[trigger] values[j]) == Ok::<
                Seq<char>,
                SymbolValueError,
            >(unique[k]);
        assert(settles(values[j]));
    }
}

} // verus!
