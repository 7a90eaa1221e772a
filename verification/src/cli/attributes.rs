//! Attribute episodes of the command line: flags, symbols and drafts.

use vstd::prelude::*;
use vstd::string::*;

use crate::attribute::{bound_pairs, groups, numbers, Attribute, EpisodeDraft};
use crate::cli::number::{
    i64_in, message3, parse_i64_token, text_in, token_str, token_text, token_texts, Token,
};
use crate::model::{ModelError, SymbolId, TimestampMs};
use crate::text::same_text;
use crate::text_table::contents;

verus! {

/// One attribute by its texts.
#[derive(Clone, Debug, PartialEq, Eq)]
pub struct TextAttribute {
    /// Key text.
    pub key: String,
    /// Value texts.
    pub values: Vec<String>,
}

/// One episode by its texts; a missing timestamp takes a default later.
#[derive(Clone, Debug, PartialEq, Eq)]
pub struct TextEpisodeDraft {
    /// Signed Unix milliseconds.
    pub timestamp: Option<TimestampMs>,
    /// Attributes in input order.
    pub attributes: Vec<TextAttribute>,
}

/// The key and the values of an attribute.
pub type AttributeText = (Seq<char>, Seq<Seq<char>>);

impl View for TextAttribute {
    type V = AttributeText;

    open spec fn view(&self) -> AttributeText {
        (self.key@, contents(self.values@))
    }
}

/// The texts of attributes.
pub open spec fn attribute_texts(attributes: Seq<TextAttribute>) -> Seq<AttributeText> {
    attributes.map_values(|attribute: TextAttribute| attribute@)
}

/// What the flags of an episode said so far.
pub ghost struct FlagState {
    /// The timestamp.
    pub timestamp: Option<i64>,
    /// The attributes.
    pub attributes: Seq<AttributeText>,
    /// The last attribute takes values.
    pub open: bool,
    /// Output is suppressed.
    pub quiet: bool,
}

/// Nothing was said.
pub open spec fn no_flags() -> FlagState {
    FlagState { timestamp: None, attributes: Seq::empty(), open: false, quiet: false }
}

/// The open attribute has no value.
pub open spec fn lacks_value(state: FlagState) -> bool {
    state.open && state.attributes.last().1.len() == 0
}

/// The state after an option with its value.
pub open spec fn with_option(state: FlagState, option: Seq<char>, value: Option<Seq<char>>) -> Result<
    FlagState,
    Seq<char>,
> {
    if option == "--value"@ {
        if !state.open {
            Err("`--value` must immediately follow its attribute and values"@)
        } else {
            match text_in(value, "attribute value"@) {
                Err(message) => Err(message),
                Ok(text) => {
                    let last = state.attributes.last();
                    Ok(
                        FlagState {
                            attributes: state.attributes.drop_last().push(
                                (last.0, last.1.push(text)),
                            ),
                            ..state
                        },
                    )
                },
            }
        }
    } else if lacks_value(state) {
        Err("attribute requires at least one `--value` value"@)
    } else if option == "--timestamp"@ {
        match i64_in(value, "Unix timestamp"@) {
            Err(message) => Err(message),
            Ok(timestamp) => if state.timestamp is Some {
                Err("`--timestamp` may be specified only once"@)
            } else {
                Ok(FlagState { timestamp: Some(timestamp), open: false, ..state })
            },
        }
    } else if option == "--attribute"@ {
        match text_in(value, "attribute key"@) {
            Err(message) => Err(message),
            Ok(text) => Ok(
                FlagState {
                    attributes: state.attributes.push((text, Seq::empty())),
                    open: true,
                    ..state
                },
            ),
        }
    } else {
        Err("unknown episode option `"@ + option + "`"@)
    }
}

/// What the flags of an episode say behind a state, or what is wrong with them.
pub open spec fn read_flags(
    state: FlagState,
    tokens: Seq<Option<Seq<char>>>,
    allow_quiet: bool,
) -> Result<FlagState, Seq<char>>
    decreases tokens.len(),
{
    if tokens.len() == 0 {
        if lacks_value(state) {
            Err("attribute requires at least one `--value` value"@)
        } else if state.attributes.len() == 0 {
            Err("episode requires at least one `--attribute`"@)
        } else {
            Ok(state)
        }
    } else {
        match tokens[0] {
            None => Err("episode options must be valid UTF-8"@),
            Some(option) => if option == "--quiet"@ {
                if !allow_quiet {
                    Err("`--quiet` is not valid inside an add --many row"@)
                } else if lacks_value(state) {
                    Err("attribute requires at least one `--value` value"@)
                } else if state.quiet {
                    Err("`--quiet` may be specified only once"@)
                } else {
                    read_flags(
                        FlagState { open: false, quiet: true, ..state },
                        tokens.skip(1),
                        allow_quiet,
                    )
                }
            } else if tokens.len() < 2 {
                Err("`"@ + option + "` requires a value"@)
            } else {
                match with_option(state, option, tokens[1]) {
                    Err(message) => Err(message),
                    Ok(after) => read_flags(after, tokens.skip(2), allow_quiet),
                }
            },
        }
    }
}

/// The state of the texts read so far.
pub open spec fn flag_state(
    timestamp: Option<TimestampMs>,
    attributes: Seq<TextAttribute>,
    open: bool,
    quiet: bool,
) -> FlagState {
    FlagState {
        timestamp: match timestamp {
            Some(timestamp) => Some(timestamp.0),
            None => None,
        },
        attributes: attribute_texts(attributes),
        open,
        quiet,
    }
}

/// The draft and the quiet flag hold what the flags say.
pub open spec fn holds_flags(draft: TextEpisodeDraft, quiet: bool, state: FlagState) -> bool {
    flag_state(draft.timestamp, draft.attributes@, state.open, quiet) == state
}

/// Tells whether the open attribute has no value.
fn open_lacks_value(attributes: &Vec<TextAttribute>, open: bool) -> (lacks: bool)
    requires
        open ==> attributes@.len() > 0,
    ensures
        lacks == (open && attribute_texts(attributes@).last().1.len() == 0),
{
    if open {
        let last = &attributes[attributes.len() - 1];
        assert(attribute_texts(attributes@).last() == last@);
        assert(last@.1.len() == last.values@.len());
        last.values.len() == 0
    } else {
        false
    }
}

fn push_value(attributes: &mut Vec<TextAttribute>, text: String)
    requires
        old(attributes)@.len() > 0,
    ensures
        attribute_texts(final(attributes)@) == attribute_texts(old(attributes)@).drop_last().push(
            (
                attribute_texts(old(attributes)@).last().0,
                attribute_texts(old(attributes)@).last().1.push(text@),
            ),
        ),
        final(attributes)@.len() == old(attributes)@.len(),
{
    let ghost before = attributes@;
    let ghost content = text@;
    match attributes.pop() {
        Some(last) => {
            let TextAttribute { key, mut values } = last;
            let ghost listed = contents(values@);
            values.push(text);
            assert(contents(values@) =~= listed.push(content));
            attributes.push(TextAttribute { key, values });
            assert(attribute_texts(attributes@) =~= attribute_texts(before).drop_last().push(
                (
                    attribute_texts(before).last().0,
                    attribute_texts(before).last().1.push(content),
                ),
            ));
        },
        None => {},
    }
}

/// Parses the flags of one episode: an optional timestamp, and attributes each
/// followed by its values.
#[verifier::rlimit(40)]
pub fn parse_episode_flags(tokens: &[Token], allow_quiet: bool) -> (result: Result<
    (TextEpisodeDraft, bool),
    String,
>)
    ensures
        match (read_flags(no_flags(), token_texts(tokens@), allow_quiet), result) {
            (Ok(state), Ok((draft, quiet))) => holds_flags(draft, quiet, state),
            (Err(expected), Err(message)) => message@ == expected,
            _ => false,
        },
{
    let ghost all = token_texts(tokens@);
    let mut timestamp: Option<TimestampMs> = None;
    let mut attributes: Vec<TextAttribute> = Vec::new();
    let mut open = false;
    let mut quiet = false;
    let mut index: usize = 0;
    proof {
        assert(all.skip(0) =~= all);
        assert(attribute_texts(attributes@) =~= Seq::empty());
    }
    while index < tokens.len()
        invariant
            index <= tokens@.len(),
            all == token_texts(tokens@),
            open ==> attributes@.len() > 0,
            read_flags(no_flags(), all, allow_quiet) == read_flags(
                flag_state(timestamp, attributes@, open, quiet),
                all.skip(index as int),
                allow_quiet,
            ),
        decreases tokens.len() - index,
    {
        let ghost rest = all.skip(index as int);
        let ghost state = flag_state(timestamp, attributes@, open, quiet);
        proof {
            assert(rest[0] == token_text(tokens@[index as int]));
            assert(rest.skip(1) =~= all.skip(index + 1));
            if index + 1 < tokens@.len() {
                assert(rest[1] == token_text(tokens@[index + 1]));
                assert(rest.skip(2) =~= all.skip(index + 2));
            }
        }
        let option: &str = match &tokens[index] {
            Some(option) => option.as_str(),
            None => {
                return Err("episode options must be valid UTF-8".to_owned());
            },
        };
        if same_text(option, "--quiet") {
            if !allow_quiet {
                return Err("`--quiet` is not valid inside an add --many row".to_owned());
            }
            if open_lacks_value(&attributes, open) {
                return Err("attribute requires at least one `--value` value".to_owned());
            }
            if quiet {
                return Err("`--quiet` may be specified only once".to_owned());
            }
            open = false;
            quiet = true;
            index += 1;
            continue;
        }
        if index + 1 == tokens.len() {
            return Err(message3("`", option, "` requires a value"));
        }
        let value = &tokens[index + 1];
        if same_text(option, "--value") {
            if !open {
                return Err("`--value` must immediately follow its attribute and values".to_owned());
            }
            let text = match token_str(value, "attribute value") {
                Ok(text) => text.to_owned(),
                Err(message) => {
                    return Err(message);
                },
            };
            push_value(&mut attributes, text);
            index += 2;
            continue;
        }
        if open_lacks_value(&attributes, open) {
            return Err("attribute requires at least one `--value` value".to_owned());
        }
        open = false;
        if same_text(option, "--timestamp") {
            let number: i64 = match parse_i64_token(value, "Unix timestamp") {
                Ok(number) => number,
                Err(message) => {
                    return Err(message);
                },
            };
            if timestamp.is_some() {
                return Err("`--timestamp` may be specified only once".to_owned());
            }
            timestamp = Some(TimestampMs::new(number));
        } else if same_text(option, "--attribute") {
            let key = match token_str(value, "attribute key") {
                Ok(key) => key.to_owned(),
                Err(message) => {
                    return Err(message);
                },
            };
            let ghost before = attributes@;
            let ghost content = key@;
            let attribute = TextAttribute { key, values: Vec::new() };
            proof {
                assert(contents(attribute.values@) =~= Seq::empty());
            }
            attributes.push(attribute);
            proof {
                assert(attribute_texts(attributes@) =~= attribute_texts(before).push(
                    (content, Seq::<Seq<char>>::empty()),
                ));
            }
            open = true;
        } else {
            return Err(message3("unknown episode option `", option, "`"));
        }
        index += 2;
    }
    assert(all.skip(index as int) =~= Seq::empty());
    assert(attribute_texts(attributes@).len() == attributes@.len());
    if open_lacks_value(&attributes, open) {
        return Err("attribute requires at least one `--value` value".to_owned());
    }
    if attributes.len() == 0 {
        return Err("episode requires at least one `--attribute`".to_owned());
    }
    Ok((TextEpisodeDraft { timestamp, attributes }, quiet))
}

/// Tells whether some draft takes the default timestamp.
pub fn needs_timestamp(drafts: &[TextEpisodeDraft]) -> (needs: bool)
    ensures
        needs <==> exists|i: int| 0 <= i < drafts@.len() && (#[trigger] drafts@[i]).timestamp is None,
{
    let mut index: usize = 0;
    while index < drafts.len()
        invariant
            index <= drafts@.len(),
            forall|i: int| 0 <= i < index ==> (#[trigger] drafts@[i]).timestamp is Some,
        decreases drafts.len() - index,
    {
        if drafts[index].timestamp.is_none() {
            assert(drafts@[index as int].timestamp is None);
            return true;
        }
        index += 1;
    }
    false
}

/// Converts a clock reading in Unix milliseconds.
pub fn clock_timestamp(milliseconds: u128) -> (result: Result<TimestampMs, String>)
    ensures
        match result {
            Ok(timestamp) => timestamp.0 == milliseconds,
            Err(message) => milliseconds > i64::MAX && message@
                == "system clock exceeds the supported Unix timestamp range"@,
        },
{
    if milliseconds > i64::MAX as u128 {
        return Err("system clock exceeds the supported Unix timestamp range".to_owned());
    }
    Ok(TimestampMs::new(milliseconds as i64))
}

/// The draft's timestamp, or the default.
pub open spec fn timestamp_or(draft: TextEpisodeDraft, default: TimestampMs) -> TimestampMs {
    match draft.timestamp {
        Some(timestamp) => timestamp,
        None => default,
    }
}

/// A timestamp and the number of values of each attribute.
#[derive(Clone, Debug, PartialEq, Eq)]
pub struct EpisodeShape {
    /// Signed Unix milliseconds.
    pub timestamp: TimestampMs,
    /// Number of values of each attribute.
    pub value_counts: Vec<usize>,
}

/// The texts of attributes, each key before its values.
pub open spec fn flat_attributes(attributes: Seq<AttributeText>) -> Seq<Seq<char>>
    decreases attributes.len(),
{
    if attributes.len() == 0 {
        Seq::empty()
    } else {
        flat_attributes(attributes.drop_last()).push(attributes.last().0) + attributes.last().1
    }
}

/// The texts of drafts.
pub open spec fn flat_drafts(drafts: Seq<TextEpisodeDraft>) -> Seq<Seq<char>>
    decreases drafts.len(),
{
    if drafts.len() == 0 {
        Seq::empty()
    } else {
        flat_drafts(drafts.drop_last()) + flat_attributes(
            attribute_texts(drafts.last().attributes@),
        )
    }
}

/// The shape counts the values of the attributes.
pub open spec fn shapes_draft(
    shape: EpisodeShape,
    draft: TextEpisodeDraft,
    default: TimestampMs,
) -> bool {
    &&& shape.timestamp == timestamp_or(draft, default)
    &&& shape.value_counts@.len() == draft.attributes@.len()
    &&& forall|i: int|
        0 <= i < draft.attributes@.len() ==> (#[trigger] shape.value_counts@[i])
            == draft.attributes@[i].values@.len()
}

fn push_texts(texts: &mut Vec<String>, added: &Vec<String>)
    ensures
        contents(final(texts)@) == contents(old(texts)@) + contents(added@),
{
    let ghost start = contents(texts@);
    let mut index: usize = 0;
    assert(start + contents(added@).take(0) =~= start);
    while index < added.len()
        invariant
            index <= added@.len(),
            contents(texts@) == start + contents(added@).take(index as int),
        decreases added.len() - index,
    {
        let ghost before = contents(texts@);
        texts.push(added[index].clone());
        proof {
            assert(contents(texts@) =~= before.push(added@[index as int]@));
            assert(contents(texts@) =~= start + contents(added@).take(index + 1));
        }
        index += 1;
    }
    assert(contents(added@).take(index as int) =~= contents(added@));
}

/// Lists the texts of drafts in order, and keeps their shapes.
///
/// A draft without a timestamp takes the default.
pub fn flatten_drafts(drafts: &[TextEpisodeDraft], default: TimestampMs) -> (flat: (
    Vec<String>,
    Vec<EpisodeShape>,
))
    ensures
        contents(flat.0@) == flat_drafts(drafts@),
        flat.1@.len() == drafts@.len(),
        forall|i: int|
            0 <= i < drafts@.len() ==> shapes_draft(#[trigger] flat.1@[i], drafts@[i], default),
{
    let mut texts: Vec<String> = Vec::new();
    let mut shapes: Vec<EpisodeShape> = Vec::new();
    let mut index: usize = 0;
    proof {
        assert(drafts@.take(0) =~= Seq::empty());
        assert(contents(texts@) =~= Seq::empty());
    }
    while index < drafts.len()
        invariant
            index <= drafts@.len(),
            contents(texts@) == flat_drafts(drafts@.take(index as int)),
            shapes@.len() == index,
            forall|i: int|
                0 <= i < index ==> shapes_draft(#[trigger] shapes@[i], drafts@[i], default),
        decreases drafts.len() - index,
    {
        let draft = &drafts[index];
        let ghost start = contents(texts@);
        let ghost all = attribute_texts(draft.attributes@);
        let mut value_counts: Vec<usize> = Vec::new();
        let mut place: usize = 0;
        proof {
            assert(all.take(0) =~= Seq::empty());
            assert(start + flat_attributes(all.take(0)) =~= start);
        }
        while place < draft.attributes.len()
            invariant
                place <= draft.attributes@.len(),
                all == attribute_texts(draft.attributes@),
                contents(texts@) == start + flat_attributes(all.take(place as int)),
                value_counts@.len() == place,
                forall|i: int|
                    0 <= i < place ==> (#[trigger] value_counts@[i])
                        == draft.attributes@[i].values@.len(),
            decreases draft.attributes.len() - place,
        {
            let attribute = &draft.attributes[place];
            let ghost before = contents(texts@);
            let ghost part = all.take(place + 1);
            texts.push(attribute.key.clone());
            proof {
                assert(contents(texts@) =~= before.push(attribute.key@));
            }
            value_counts.push(attribute.values.len());
            push_texts(&mut texts, &attribute.values);
            proof {
                assert(part.drop_last() =~= all.take(place as int));
                assert(part.last() == attribute@);
                assert(contents(texts@) =~= start + flat_attributes(part));
            }
            place += 1;
        }
        proof {
            assert(all.take(place as int) =~= all);
            let part = drafts@.take(index + 1);
            assert(part.drop_last() =~= drafts@.take(index as int));
            assert(part.last() == *draft);
        }
        let timestamp = match draft.timestamp {
            Some(timestamp) => timestamp,
            None => default,
        };
        shapes.push(EpisodeShape { timestamp, value_counts });
        index += 1;
    }
    assert(drafts@.take(index as int) =~= drafts@);
    (texts, shapes)
}

/// An attribute and the position behind its symbols.
pub open spec fn next_attribute(ids: Seq<u64>, position: nat, count: nat) -> Result<
    ((u64, Seq<u64>), nat),
    Seq<char>,
> {
    if position + 1 + count > ids.len() {
        Err("symbol interning returned an incomplete result"@)
    } else if count == 0 {
        Err(ModelError::EmptyAttributeValues.text())
    } else {
        Ok(
            (
                (
                    ids[position as int],
                    ids.subrange((position + 1) as int, (position + 1 + count) as int),
                ),
                position + 1 + count,
            ),
        )
    }
}

/// The attributes with the value counts, and the position behind their symbols.
pub open spec fn next_attributes(ids: Seq<u64>, position: nat, counts: Seq<usize>) -> Result<
    (Seq<(u64, Seq<u64>)>, nat),
    Seq<char>,
>
    decreases counts.len(),
{
    if counts.len() == 0 {
        Ok((Seq::empty(), position))
    } else {
        match next_attributes(ids, position, counts.drop_last()) {
            Err(message) => Err(message),
            Ok((attributes, reached)) => match next_attribute(
                ids,
                reached,
                counts.last() as nat,
            ) {
                Err(message) => Err(message),
                Ok((attribute, end)) => Ok((attributes.push(attribute), end)),
            },
        }
    }
}

/// The attributes of each shape, and the position behind their symbols.
pub open spec fn next_episodes(ids: Seq<u64>, shapes: Seq<EpisodeShape>) -> Result<
    (Seq<Seq<(u64, Seq<u64>)>>, nat),
    Seq<char>,
>
    decreases shapes.len(),
{
    if shapes.len() == 0 {
        Ok((Seq::empty(), 0))
    } else {
        match next_episodes(ids, shapes.drop_last()) {
            Err(message) => Err(message),
            Ok((episodes, reached)) => match next_attributes(
                ids,
                reached,
                shapes.last().value_counts@,
            ) {
                Err(message) => Err(message),
                Ok((attributes, end)) => if attributes.len() == 0 {
                    Err(ModelError::EmptyEpisodeAttributes.text())
                } else {
                    Ok((episodes.push(attributes), end))
                },
            },
        }
    }
}

/// The attributes of each shape, if the symbols are exactly theirs.
pub open spec fn resolved_episodes(ids: Seq<u64>, shapes: Seq<EpisodeShape>) -> Result<
    Seq<Seq<(u64, Seq<u64>)>>,
    Seq<char>,
> {
    match next_episodes(ids, shapes) {
        Err(message) => Err(message),
        Ok((episodes, reached)) => if reached < ids.len() {
            Err("symbol interning returned an oversized result"@)
        } else {
            Ok(episodes)
        },
    }
}

fn resolve_attribute(symbols: &[SymbolId], position: usize, count: usize) -> (result: Result<
    (Attribute, usize),
    String,
>)
    requires
        position <= symbols@.len(),
    ensures
        match (next_attribute(numbers(symbols@), position as nat, count as nat), result) {
            (Ok((group, end)), Ok((attribute, reached))) => {
                &&& reached == end
                &&& reached <= symbols@.len()
                &&& attribute@.0 == group.0
                &&& forall|value: u64|
                    attribute@.1.contains(value) <==> group.1.contains(value)
            },
            (Err(expected), Err(message)) => message@ == expected,
            _ => false,
        },
{
    let ghost ids = numbers(symbols@);
    assert(ids.len() == symbols@.len());
    if position == symbols.len() || symbols.len() - position - 1 < count {
        return Err("symbol interning returned an incomplete result".to_owned());
    }
    let key = symbols[position];
    let end: usize = position + 1 + count;
    let mut values: Vec<SymbolId> = Vec::new();
    let mut index: usize = position + 1;
    while index < end
        invariant
            position + 1 <= index <= end <= symbols@.len(),
            ids == numbers(symbols@),
            numbers(values@) =~= ids.subrange(position + 1, index as int),
        decreases end - index,
    {
        let ghost before = values@;
        values.push(symbols[index]);
        proof {
            assert(numbers(values@) =~= numbers(before).push(ids[index as int]));
        }
        index += 1;
    }
    assert(numbers(values@).len() == values@.len());
    match Attribute::new(key, values) {
        Ok(attribute) => Ok((attribute, end)),
        Err(error) => Err(error.to_string()),
    }
}

proof fn lemma_attributes_stop(ids: Seq<u64>, position: nat, counts: Seq<usize>, end: int)
    requires
        0 <= end <= counts.len(),
        next_attributes(ids, position, counts.take(end)) is Err,
    ensures
        next_attributes(ids, position, counts) == next_attributes(
            ids,
            position,
            counts.take(end),
        ),
    decreases counts.len(),
{
    if end < counts.len() {
        assert(counts.drop_last().take(end) =~= counts.take(end));
        lemma_attributes_stop(ids, position, counts.drop_last(), end);
    } else {
        assert(counts.take(end) =~= counts);
    }
}

proof fn lemma_episodes_stop(ids: Seq<u64>, shapes: Seq<EpisodeShape>, end: int)
    requires
        0 <= end <= shapes.len(),
        next_episodes(ids, shapes.take(end)) is Err,
    ensures
        next_episodes(ids, shapes) == next_episodes(ids, shapes.take(end)),
    decreases shapes.len(),
{
    if end < shapes.len() {
        assert(shapes.drop_last().take(end) =~= shapes.take(end));
        lemma_episodes_stop(ids, shapes.drop_last(), end);
    } else {
        assert(shapes.take(end) =~= shapes);
    }
}

/// The attributes bind the pairs of the groups.
pub open spec fn same_bindings(
    attributes: Seq<(u64, Seq<u64>)>,
    expected: Seq<(u64, Seq<u64>)>,
) -> bool {
    bound_pairs(attributes) == bound_pairs(expected)
}

fn resolve_attributes(symbols: &[SymbolId], position: usize, counts: &Vec<usize>) -> (result: Result<
    (Vec<Attribute>, usize),
    String,
>)
    requires
        position <= symbols@.len(),
    ensures
        match (next_attributes(numbers(symbols@), position as nat, counts@), result) {
            (Ok((expected, end)), Ok((attributes, reached))) => {
                &&& reached == end
                &&& reached <= symbols@.len()
                &&& attributes@.len() == expected.len()
                &&& same_bindings(groups(attributes@), expected)
            },
            (Err(expected), Err(message)) => message@ == expected,
            _ => false,
        },
{
    let ghost ids = numbers(symbols@);
    let mut attributes: Vec<Attribute> = Vec::new();
    let mut reached: usize = position;
    let mut index: usize = 0;
    let ghost mut expected: Seq<(u64, Seq<u64>)> = Seq::empty();
    proof {
        assert(counts@.take(0) =~= Seq::empty());
        assert(groups(attributes@) =~= Seq::empty());
    }
    while index < counts.len()
        invariant
            index <= counts@.len(),
            ids == numbers(symbols@),
            reached <= symbols@.len(),
            next_attributes(ids, position as nat, counts@.take(index as int)) == Ok::<
                (Seq<(u64, Seq<u64>)>, nat),
                Seq<char>,
            >((expected, reached as nat)),
            attributes@.len() == expected.len(),
            forall|i: int|
                0 <= i < expected.len() ==> (#[trigger] attributes@[i])@.0 == expected[i].0,
            forall|i: int, value: u64|
                #![trigger attributes@[i]@.1.contains(value)]
                0 <= i < expected.len() ==> (attributes@[i]@.1.contains(value)
                    <==> expected[i].1.contains(value)),
        decreases counts.len() - index,
    {
        proof {
            let part = counts@.take(index + 1);
            assert(part.drop_last() =~= counts@.take(index as int));
            assert(part.last() == counts@[index as int]);
            if next_attributes(ids, position as nat, part) is Err {
                lemma_attributes_stop(ids, position as nat, counts@, index + 1);
            }
        }
        match resolve_attribute(symbols, reached, counts[index]) {
            Err(message) => {
                return Err(message);
            },
            Ok((attribute, end)) => {
                proof {
                    let group = next_attribute(
                        ids,
                        reached as nat,
                        counts@[index as int] as nat,
                    )->Ok_0.0;
                    expected = expected.push(group);
                }
                attributes.push(attribute);
                reached = end;
            },
        }
        index += 1;
    }
    proof {
        assert(counts@.take(index as int) =~= counts@);
        lemma_same_bindings(groups(attributes@), expected);
    }
    Ok((attributes, reached))
}

proof fn lemma_same_bindings(first: Seq<(u64, Seq<u64>)>, second: Seq<(u64, Seq<u64>)>)
    requires
        first.len() == second.len(),
        forall|i: int| 0 <= i < first.len() ==> (#[trigger] first[i]).0 == second[i].0,
        forall|i: int, value: u64|
            #![trigger first[i].1.contains(value)]
            0 <= i < first.len() ==> (first[i].1.contains(value) <==> second[i].1.contains(value)),
    ensures
        same_bindings(first, second),
{
    assert forall|pair: (u64, u64)| crate::attribute::binds(first, pair)
        <==> crate::attribute::binds(second, pair) by {
        if crate::attribute::binds(first, pair) {
            let i = choose|i: int|
                0 <= i < first.len() && (#[trigger] first[i]).0 == pair.0 && first[i].1.contains(
                    pair.1,
                );
            assert(second[i].0 == pair.0 && second[i].1.contains(pair.1));
        }
        if crate::attribute::binds(second, pair) {
            let i = choose|i: int|
                0 <= i < second.len() && (#[trigger] second[i]).0 == pair.0
                    && second[i].1.contains(pair.1);
            assert(first[i].0 == pair.0 && first[i].1.contains(pair.1));
        }
    }
    assert(bound_pairs(first) =~= bound_pairs(second));
}

/// The draft says what the shape and its attributes say.
pub open spec fn drafts_episode(
    draft: EpisodeDraft,
    shape: EpisodeShape,
    attributes: Seq<(u64, Seq<u64>)>,
) -> bool {
    draft.content().timestamp == shape.timestamp && draft.content().pairs == bound_pairs(attributes)
}

/// Gives the shapes their symbols, which come in the order of the texts.
pub fn resolve_drafts(shapes: &[EpisodeShape], symbols: &[SymbolId]) -> (result: Result<
    Vec<EpisodeDraft>,
    String,
>)
    ensures
        match (resolved_episodes(numbers(symbols@), shapes@), result) {
            (Ok(episodes), Ok(drafts)) => {
                &&& drafts@.len() == shapes@.len()
                &&& forall|i: int|
                    0 <= i < drafts@.len() ==> drafts_episode(
                        #[trigger] drafts@[i],
                        shapes@[i],
                        episodes[i],
                    )
            },
            (Err(expected), Err(message)) => message@ == expected,
            _ => false,
        },
{
    let ghost ids = numbers(symbols@);
    let mut drafts: Vec<EpisodeDraft> = Vec::new();
    let mut reached: usize = 0;
    let mut index: usize = 0;
    let ghost mut episodes: Seq<Seq<(u64, Seq<u64>)>> = Seq::empty();
    assert(shapes@.take(0) =~= Seq::empty());
    while index < shapes.len()
        invariant
            index <= shapes@.len(),
            ids == numbers(symbols@),
            reached <= symbols@.len(),
            drafts@.len() == index,
            episodes.len() == index,
            next_episodes(ids, shapes@.take(index as int)) == Ok::<
                (Seq<Seq<(u64, Seq<u64>)>>, nat),
                Seq<char>,
            >((episodes, reached as nat)),
            forall|i: int|
                0 <= i < drafts@.len() ==> drafts_episode(
                    #[trigger] drafts@[i],
                    shapes@[i],
                    episodes[i],
                ),
        decreases shapes.len() - index,
    {
        let shape = &shapes[index];
        proof {
            let part = shapes@.take(index + 1);
            assert(part.drop_last() =~= shapes@.take(index as int));
            assert(part.last() == *shape);
            if next_episodes(ids, part) is Err {
                lemma_episodes_stop(ids, shapes@, index + 1);
            }
        }
        let (attributes, end) = match resolve_attributes(symbols, reached, &shape.value_counts) {
            Ok(found) => found,
            Err(message) => {
                return Err(message);
            },
        };
        match EpisodeDraft::new(shape.timestamp, attributes) {
            Ok(draft) => {
                drafts.push(draft);
            },
            Err(error) => {
                return Err(error.to_string());
            },
        }
        proof {
            let expected = next_attributes(ids, reached as nat, shape.value_counts@)->Ok_0.0;
            episodes = episodes.push(expected);
        }
        reached = end;
        index += 1;
    }
    assert(shapes@.take(index as int) =~= shapes@);
    assert(ids.len() == symbols@.len());
    if reached < symbols.len() {
        return Err("symbol interning returned an oversized result".to_owned());
    }
    Ok(drafts)
}

} // verus!
