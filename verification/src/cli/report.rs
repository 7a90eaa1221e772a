//! Recall reports of attribute episodes.

use vstd::prelude::*;
use vstd::string::*;

use crate::attribute::{groups, numbers, Attribute, EpisodeAtom};
use crate::episode::Episode;
use crate::memory::ranking::RecallHit;
use crate::memory::Memory;
use crate::model::{AtomId, SymbolId};
use crate::order::{increasing, sort_distinct_numbers};
use crate::sqlite::prepare::{push_symbols, symbol_text, symbols_of, texts_by_id};
use crate::text::{decimal, push_decimal, push_signed_decimal, signed_decimal};
use crate::text_table::contents;

verus! {

/// Symbols of reported episodes with their texts.
#[derive(Debug)]
pub struct ReportSymbols {
    ids: Vec<SymbolId>,
    values: Vec<String>,
}

impl ReportSymbols {
    /// Each identifier has a text, and identifiers ascend.
    #[verifier::type_invariant]
    spec fn aligned(self) -> bool {
        increasing(numbers(self.ids@)) && self.ids@.len() == self.values@.len()
    }

    /// The texts by identifier.
    pub closed spec fn texts(&self) -> Map<u64, Seq<char>> {
        texts_by_id(numbers(self.ids@), contents(self.values@))
    }

    /// Returns the text of a symbol.
    pub fn get(&self, id: u64) -> (text: Option<&str>)
        ensures
            text is Some <==> self.texts().contains_key(id),
            text matches Some(text) ==> text@ == self.texts()[id],
    {
        proof {
            use_type_invariant(self);
        }
        match symbol_text(SymbolId::new(id), self.ids.as_slice(), self.values.as_slice()) {
            Ok(text) => Some(text),
            Err(_) => None,
        }
    }
}

/// The first place without a value.
pub open spec fn first_absent(values: Seq<Option<String>>, index: int) -> bool {
    &&& 0 <= index < values.len()
    &&& values[index] is None
    &&& forall|i: int| 0 <= i < index ==> (#[trigger] values[i]) is Some
}

/// Every symbol has a value, and the texts are theirs.
pub open spec fn resolves(
    symbols: ReportSymbols,
    ids: Seq<SymbolId>,
    values: Seq<Option<String>>,
) -> bool {
    &&& forall|i: int| 0 <= i < values.len() ==> (#[trigger] values[i]) is Some
    &&& symbols.texts() == texts_by_id(
        numbers(ids),
        Seq::new(values.len(), |i: int| values[i]->0@),
    )
}

/// What is wrong with a symbol without a value.
pub open spec fn unresolved(kind: Seq<char>, id: u64) -> Seq<char> {
    "stored episode references unresolved "@ + kind + " "@ + decimal(id as nat)
}

/// Joins the symbols of reported episodes with the texts that the store holds.
///
/// `kind` names the symbols in messages, and `lookup` the query for them.
pub fn resolve_symbols(
    ids: Vec<SymbolId>,
    values: Vec<Option<String>>,
    kind: &str,
    lookup: &str,
) -> (result: Result<ReportSymbols, String>)
    requires
        increasing(numbers(ids@)),
    ensures
        match result {
            Ok(symbols) => ids@.len() == values@.len() && resolves(symbols, ids@, values@),
            Err(message) => if ids@.len() != values@.len() {
                message@ == lookup@ + " lookup returned an incomplete result"@
            } else {
                exists|index: int| #[trigger]
                    first_absent(values@, index) && message@ == unresolved(kind@, ids@[index].0)
            },
        },
{
    if ids.len() != values.len() {
        let mut message = lookup.to_owned();
        message.append(" lookup returned an incomplete result");
        return Err(message);
    }
    let mut texts: Vec<String> = Vec::new();
    let mut index: usize = 0;
    while index < values.len()
        invariant
            index <= values@.len(),
            ids@.len() == values@.len(),
            texts@.len() == index,
            forall|i: int|
                0 <= i < index ==> (#[trigger] values@[i]) is Some && texts@[i]@ == values@[i]->0@,
        decreases values.len() - index,
    {
        match &values[index] {
            Some(text) => {
                texts.push(text.clone());
            },
            None => {
                assert(first_absent(values@, index as int));
                let mut message = "stored episode references unresolved ".to_owned();
                message.append(kind);
                message.append(" ");
                push_decimal(&mut message, ids[index].get());
                return Err(message);
            },
        }
        index += 1;
    }
    assert(contents(texts@) =~= Seq::new(values@.len(), |i: int| values@[i]->0@));
    Ok(ReportSymbols { ids, values: texts })
}

/// Lists numbers as symbols, each once and in ascending order.
pub fn ascending_symbols(listed: &[u64]) -> (ids: Vec<SymbolId>)
    ensures
        increasing(numbers(ids@)),
        forall|id: u64| #[trigger] numbers(ids@).contains(id) <==> listed@.contains(id),
{
    let sorted = sort_distinct_numbers(listed);
    let mut ids: Vec<SymbolId> = Vec::new();
    let mut place: usize = 0;
    while place < sorted.len()
        invariant
            place <= sorted@.len(),
            numbers(ids@) =~= sorted@.take(place as int),
        decreases sorted.len() - place,
    {
        let ghost before = ids@;
        ids.push(SymbolId::new(sorted[place]));
        proof {
            assert(numbers(ids@) =~= numbers(before).push(sorted@[place as int]));
            assert(sorted@.take(place + 1) =~= sorted@.take(place as int).push(
                sorted@[place as int],
            ));
        }
        place += 1;
    }
    assert(sorted@.take(place as int) =~= sorted@);
    ids
}

/// Finds the episodes of hits; `None` if the memory lacks one.
pub fn recalled<'a>(memory: &'a Memory<EpisodeAtom>, hits: &[RecallHit]) -> (episodes: Option<
    Vec<(&'a EpisodeAtom, u32)>,
>)
    requires
        memory.wf(),
    ensures
        match episodes {
            Some(episodes) => {
                &&& episodes@.len() == hits@.len()
                &&& forall|i: int|
                    0 <= i < hits@.len() ==> {
                        let hit = #[trigger] hits@[i];
                        &&& memory.knows(hit.atom_id)
                        &&& *episodes@[i].0 == memory.atoms()[hit.atom_id.position() as int]
                        &&& episodes@[i].1 == hit.activation@
                    }
            },
            None => exists|i: int|
                0 <= i < hits@.len() && !memory.knows((#[trigger] hits@[i]).atom_id),
        },
{
    let mut episodes: Vec<(&'a EpisodeAtom, u32)> = Vec::new();
    let mut index: usize = 0;
    while index < hits.len()
        invariant
            index <= hits@.len(),
            memory.wf(),
            episodes@.len() == index,
            forall|i: int|
                0 <= i < index ==> {
                    let hit = #[trigger] hits@[i];
                    &&& memory.knows(hit.atom_id)
                    &&& *episodes@[i].0 == memory.atoms()[hit.atom_id.position() as int]
                    &&& episodes@[i].1 == hit.activation@
                },
        decreases hits.len() - index,
    {
        let hit = hits[index];
        match memory.episode(hit.atom_id) {
            Some(episode) => {
                episodes.push((episode, hit.activation.as_ppm()));
            },
            None => {
                assert(!memory.knows(hits@[index as int].atom_id));
                return None;
            },
        }
        index += 1;
    }
    Some(episodes)
}

/// The symbols of reported episodes.
pub open spec fn reported_symbols(episodes: Seq<(&EpisodeAtom, u32)>) -> Seq<u64>
    decreases episodes.len(),
{
    if episodes.len() == 0 {
        Seq::empty()
    } else {
        reported_symbols(episodes.drop_last()) + symbols_of(episodes.last().0.groups())
    }
}

/// Lists the symbols of reported episodes, each once and in ascending order.
pub fn recall_symbols(episodes: &[(&EpisodeAtom, u32)]) -> (ids: Vec<SymbolId>)
    ensures
        increasing(numbers(ids@)),
        forall|id: u64| #[trigger]
            numbers(ids@).contains(id) <==> reported_symbols(episodes@).contains(id),
{
    let mut listed: Vec<u64> = Vec::new();
    let mut index: usize = 0;
    assert(episodes@.take(0) =~= Seq::empty());
    while index < episodes.len()
        invariant
            index <= episodes@.len(),
            listed@ == reported_symbols(episodes@.take(index as int)),
        decreases episodes.len() - index,
    {
        push_symbols(episodes[index].0.attributes(), &mut listed);
        proof {
            let part = episodes@.take(index + 1);
            assert(part.drop_last() =~= episodes@.take(index as int));
            assert(part.last() == episodes@[index as int]);
        }
        index += 1;
    }
    assert(episodes@.take(index as int) =~= episodes@);
    ascending_symbols(listed.as_slice())
}

/// The lines of values, or the first symbol without a text.
pub open spec fn value_lines(before: Seq<char>, values: Seq<u64>, texts: Map<u64, Seq<char>>) -> Result<
    Seq<char>,
    u64,
>
    decreases values.len(),
{
    if values.len() == 0 {
        Ok(before)
    } else {
        match value_lines(before, values.drop_last(), texts) {
            Err(id) => Err(id),
            Ok(text) => if texts.contains_key(values.last()) {
                Ok(text + "value "@ + texts[values.last()] + "\n"@)
            } else {
                Err(values.last())
            },
        }
    }
}

/// The lines of attributes, each key before its values, or the first symbol
/// without a text.
pub open spec fn attribute_lines(
    before: Seq<char>,
    all: Seq<(u64, Seq<u64>)>,
    texts: Map<u64, Seq<char>>,
) -> Result<Seq<char>, u64>
    decreases all.len(),
{
    if all.len() == 0 {
        Ok(before)
    } else {
        match attribute_lines(before, all.drop_last(), texts) {
            Err(id) => Err(id),
            Ok(text) => if texts.contains_key(all.last().0) {
                value_lines(
                    text + "attribute "@ + texts[all.last().0] + "\n"@,
                    all.last().1,
                    texts,
                )
            } else {
                Err(all.last().0)
            },
        }
    }
}

/// The lines of one hit behind a text, or the first symbol without a text.
pub open spec fn hit_lines(
    before: Seq<char>,
    episode: EpisodeAtom,
    ppm: u32,
    texts: Map<u64, Seq<char>>,
) -> Result<Seq<char>, u64> {
    attribute_lines(
        before + "sequence "@ + decimal(episode.identifier().position() as nat)
            + "\nactivation_ppm "@ + decimal(ppm as nat) + "\ntimestamp "@ + signed_decimal(
            episode.content().timestamp.0 as int,
        ) + "\n"@,
        episode.groups(),
        texts,
    )
}

/// The lines of hits, with a blank line between them, or the first symbol
/// without a text.
pub open spec fn report_lines(
    episodes: Seq<(&EpisodeAtom, u32)>,
    texts: Map<u64, Seq<char>>,
) -> Result<Seq<char>, u64>
    decreases episodes.len(),
{
    if episodes.len() == 0 {
        Ok(Seq::empty())
    } else {
        match report_lines(episodes.drop_last(), texts) {
            Err(id) => Err(id),
            Ok(text) => hit_lines(
                if episodes.len() == 1 {
                    text
                } else {
                    text.push('\n')
                },
                *episodes.last().0,
                episodes.last().1,
                texts,
            ),
        }
    }
}

proof fn lemma_values_stop(
    before: Seq<char>,
    values: Seq<u64>,
    texts: Map<u64, Seq<char>>,
    end: int,
)
    requires
        0 <= end <= values.len(),
        value_lines(before, values.take(end), texts) is Err,
    ensures
        value_lines(before, values, texts) == value_lines(before, values.take(end), texts),
    decreases values.len(),
{
    if end < values.len() {
        assert(values.drop_last().take(end) =~= values.take(end));
        lemma_values_stop(before, values.drop_last(), texts, end);
    } else {
        assert(values.take(end) =~= values);
    }
}

proof fn lemma_attributes_stop(
    before: Seq<char>,
    all: Seq<(u64, Seq<u64>)>,
    texts: Map<u64, Seq<char>>,
    end: int,
)
    requires
        0 <= end <= all.len(),
        attribute_lines(before, all.take(end), texts) is Err,
    ensures
        attribute_lines(before, all, texts) == attribute_lines(before, all.take(end), texts),
    decreases all.len(),
{
    if end < all.len() {
        assert(all.drop_last().take(end) =~= all.take(end));
        lemma_attributes_stop(before, all.drop_last(), texts, end);
    } else {
        assert(all.take(end) =~= all);
    }
}

proof fn lemma_report_stops(
    episodes: Seq<(&EpisodeAtom, u32)>,
    texts: Map<u64, Seq<char>>,
    end: int,
)
    requires
        0 <= end <= episodes.len(),
        report_lines(episodes.take(end), texts) is Err,
    ensures
        report_lines(episodes, texts) == report_lines(episodes.take(end), texts),
    decreases episodes.len(),
{
    if end < episodes.len() {
        assert(episodes.drop_last().take(end) =~= episodes.take(end));
        lemma_report_stops(episodes.drop_last(), texts, end);
    } else {
        assert(episodes.take(end) =~= episodes);
    }
}

fn missing(id: u64) -> (message: String)
    ensures
        message@ == unresolved("symbol"@, id),
{
    let mut message = "stored episode references unresolved ".to_owned();
    message.append("symbol");
    message.append(" ");
    push_decimal(&mut message, id);
    message
}

fn write_values(output: &mut String, values: &[SymbolId], symbols: &ReportSymbols) -> (result: Result<
    (),
    String,
>)
    ensures
        match (value_lines(old(output)@, numbers(values@), symbols.texts()), result) {
            (Ok(text), Ok(_)) => final(output)@ == text,
            (Err(id), Err(message)) => message@ == unresolved("symbol"@, id),
            _ => false,
        },
{
    let ghost start = output@;
    let ghost all = numbers(values@);
    let mut index: usize = 0;
    assert(all.take(0) =~= Seq::empty());
    while index < values.len()
        invariant
            index <= values@.len(),
            start == old(output)@,
            all == numbers(values@),
            value_lines(start, all.take(index as int), symbols.texts()) == Ok::<Seq<char>, u64>(
                output@,
            ),
        decreases values.len() - index,
    {
        let id: u64 = values[index].get();
        proof {
            let part = all.take(index + 1);
            assert(part.drop_last() =~= all.take(index as int));
            assert(part.last() == id);
            if value_lines(start, part, symbols.texts()) is Err {
                lemma_values_stop(start, all, symbols.texts(), index + 1);
            }
        }
        match symbols.get(id) {
            Some(text) => {
                output.append("value ");
                output.append(text);
                output.append("\n");
            },
            None => {
                return Err(missing(id));
            },
        }
        index += 1;
    }
    assert(all.take(index as int) =~= all);
    Ok(())
}

fn write_attributes(output: &mut String, attributes: &[Attribute], symbols: &ReportSymbols) -> (result:
    Result<(), String>)
    ensures
        match (attribute_lines(old(output)@, groups(attributes@), symbols.texts()), result) {
            (Ok(text), Ok(_)) => final(output)@ == text,
            (Err(id), Err(message)) => message@ == unresolved("symbol"@, id),
            _ => false,
        },
{
    let ghost start = output@;
    let ghost all = groups(attributes@);
    let mut index: usize = 0;
    assert(all.take(0) =~= Seq::empty());
    while index < attributes.len()
        invariant
            index <= attributes@.len(),
            start == old(output)@,
            all == groups(attributes@),
            attribute_lines(start, all.take(index as int), symbols.texts()) == Ok::<
                Seq<char>,
                u64,
            >(output@),
        decreases attributes.len() - index,
    {
        let attribute = &attributes[index];
        let key: u64 = attribute.key().get();
        proof {
            let part = all.take(index + 1);
            assert(part.drop_last() =~= all.take(index as int));
            assert(part.last() == attribute@);
            if attribute_lines(start, part, symbols.texts()) is Err {
                lemma_attributes_stop(start, all, symbols.texts(), index + 1);
            }
        }
        match symbols.get(key) {
            Some(text) => {
                output.append("attribute ");
                output.append(text);
                output.append("\n");
            },
            None => {
                return Err(missing(key));
            },
        }
        match write_values(output, attribute.values(), symbols) {
            Ok(_) => {},
            Err(message) => {
                return Err(message);
            },
        }
        index += 1;
    }
    assert(all.take(index as int) =~= all);
    Ok(())
}

/// Appends the lines of one hit.
pub fn write_recall_hit(
    output: &mut String,
    episode: &EpisodeAtom,
    activation_ppm: u32,
    symbols: &ReportSymbols,
) -> (result: Result<(), String>)
    ensures
        match (hit_lines(old(output)@, *episode, activation_ppm, symbols.texts()), result) {
            (Ok(text), Ok(_)) => final(output)@ == text,
            (Err(id), Err(message)) => message@ == unresolved("symbol"@, id),
            _ => false,
        },
{
    output.append("sequence ");
    push_decimal(output, episode.id().sequence());
    output.append("\nactivation_ppm ");
    push_decimal(output, activation_ppm as u64);
    output.append("\ntimestamp ");
    push_signed_decimal(output, episode.timestamp().get());
    output.append("\n");
    write_attributes(output, episode.attributes(), symbols)
}

/// Formats hits, with a blank line between them.
pub fn format_recall(episodes: &[(&EpisodeAtom, u32)], symbols: &ReportSymbols) -> (result: Result<
    String,
    String,
>)
    ensures
        match (report_lines(episodes@, symbols.texts()), result) {
            (Ok(expected), Ok(text)) => text@ == expected,
            (Err(id), Err(message)) => message@ == unresolved("symbol"@, id),
            _ => false,
        },
{
    let mut output = String::new();
    let mut index: usize = 0;
    assert(episodes@.take(0) =~= Seq::empty());
    while index < episodes.len()
        invariant
            index <= episodes@.len(),
            report_lines(episodes@.take(index as int), symbols.texts()) == Ok::<Seq<char>, u64>(
                output@,
            ),
        decreases episodes.len() - index,
    {
        proof {
            let part = episodes@.take(index + 1);
            assert(part.drop_last() =~= episodes@.take(index as int));
            assert(part.last() == episodes@[index as int]);
            if report_lines(part, symbols.texts()) is Err {
                lemma_report_stops(episodes@, symbols.texts(), index + 1);
            }
        }
        if index != 0 {
            output.push('\n');
        }
        let (episode, ppm) = episodes[index];
        match write_recall_hit(&mut output, episode, ppm, symbols) {
            Ok(_) => {},
            Err(message) => {
                return Err(message);
            },
        }
        index += 1;
    }
    assert(episodes@.take(index as int) =~= episodes@);
    Ok(output)
}

/// The sequences of atoms, one to a line.
pub open spec fn sequence_lines(ids: Seq<AtomId>) -> Seq<char>
    decreases ids.len(),
{
    if ids.len() == 0 {
        Seq::empty()
    } else {
        sequence_lines(ids.drop_last()) + decimal(ids.last().position() as nat) + "\n"@
    }
}

/// Formats the sequences of added episodes, one to a line.
pub fn format_sequences(ids: &[AtomId]) -> (text: String)
    ensures
        text@ == sequence_lines(ids@),
{
    let mut text = String::new();
    let mut index: usize = 0;
    assert(ids@.take(0) =~= Seq::empty());
    while index < ids.len()
        invariant
            index <= ids@.len(),
            text@ == sequence_lines(ids@.take(index as int)),
        decreases ids.len() - index,
    {
        push_decimal(&mut text, ids[index].sequence());
        text.append("\n");
        proof {
            let part = ids@.take(index + 1);
            assert(part.drop_last() =~= ids@.take(index as int));
            assert(part.last() == ids@[index as int]);
        }
        index += 1;
    }
    assert(ids@.take(index as int) =~= ids@);
    text
}

} // verus!
