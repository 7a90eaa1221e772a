//! Canonical payloads of statement episodes.

use vstd::prelude::*;

use crate::bytes::be_bytes;
use crate::model::{PredicateId, SourceId, TermId, TimestampMs};
use crate::order::{
    lemma_lexical_asymmetric, lemma_lexical_transitive, lexically_less, strictly_ascending, words,
    Lexical, Relation,
};
use crate::sqlite::wire::{
    count_fits_remaining, encode_count, encode_record, encode_records, law_uleb128_round_trip,
    lemma_i64_parse, lemma_record_canonical, lemma_record_parse, lemma_records_canonical,
    lemma_records_parse, lemma_u64_canonical, lemma_u64_parse, parse_i64, parse_record,
    parse_records, parse_u64, parse_uleb128, push_i64, push_u64, rules_of, signed_bits, uleb128,
    Decoder, EpisodeDecodeError, Parsed, Record, Rules, TRUNCATED_EPISODE,
};
use crate::statement::{
    statement_word, EpisodeAtom, EpisodeContent, EpisodeDraft, Statement,
};

verus! {

/// Flag of a present action.
pub const ACTION_PRESENT: u8 = 1;

/// Flag of a present outcome.
pub const OUTCOME_PRESENT: u8 = 2;

/// Bytes of the flags, both timestamps and the source.
pub const FIXED_EPISODE_PREFIX_BYTES: usize = 25;

/// Smallest encoding of a statement.
pub const MIN_STATEMENT_BYTES: usize = 17;

/// Detail of flags beyond the known ones.
pub const RESERVED_FLAGS: &'static str = "episode flags contain reserved bits";

/// Detail of a statement count beyond the bytes that follow.
pub const STATEMENT_COUNT_EXCEEDS_REST: &'static str =
    "episode statement count exceeds remaining bytes";

/// Detail of a statement without arguments.
pub const EMPTY_ARGUMENTS: &'static str = "statement has no arguments";

/// Detail of an argument count beyond the bytes that follow.
pub const ARGUMENT_COUNT_EXCEEDS_REST: &'static str =
    "statement argument count exceeds remaining bytes";

/// Detail of a context that is out of order or repeats a statement.
pub const NON_CANONICAL_CONTEXT: &'static str = "context is not strictly sorted and duplicate-free";

/// Detail of bytes after the last statement.
pub const TRAILING_BYTES: &'static str = "episode blob has trailing bytes";

/// The predicate and arguments of a word.
pub open spec fn word_record(word: Seq<int>) -> Record {
    (word[0] as u64, word.skip(1).map_values(|entry: int| entry as u64))
}

/// The word of a predicate and arguments.
pub open spec fn record_word(record: Record) -> Seq<int> {
    seq![record.0 as int] + record.1.map_values(|number: u64| number as int)
}

/// A word that a statement can have.
pub open spec fn storable_word(word: Seq<int>) -> bool {
    &&& 2 <= word.len() <= 0x1_0000_0000_0000_0000
    &&& forall|i: int| 0 <= i < word.len() ==> 0 <= #[trigger] word[i] <= u64::MAX
}

/// The words of records.
pub open spec fn record_words(records: Seq<Record>) -> Seq<Seq<int>> {
    records.map_values(|record: Record| record_word(record))
}

/// The records of words.
pub open spec fn word_records(words: Seq<Seq<int>>) -> Seq<Record> {
    words.map_values(|word: Seq<int>| word_record(word))
}

/// Statements need arguments, in any order.
pub open spec fn statement_rules() -> Rules {
    rules_of(EMPTY_ARGUMENTS, ARGUMENT_COUNT_EXCEEDS_REST, None)
}

/// Canonical content whose parts fit the encoding.
pub open spec fn storable_content(content: EpisodeContent) -> bool {
    &&& strictly_ascending(content.context)
    &&& content.context.len() < u64::MAX - 2
    &&& forall|i: int|
        0 <= i < content.context.len() ==> storable_word(#[trigger] content.context[i])
    &&& storable_word(content.observation)
    &&& content.action is Some ==> storable_word(content.action->0)
    &&& content.outcome is Some ==> storable_word(content.outcome->0)
}

/// The flags of present optional statements.
pub open spec fn content_flags(content: EpisodeContent) -> u8 {
    ((if content.action is Some {
        1int
    } else {
        0int
    }) + (if content.outcome is Some {
        2int
    } else {
        0int
    })) as u8
}

/// The encoding of an optional statement, nothing when it is absent.
pub open spec fn optional_bytes(word: Option<Seq<int>>) -> Seq<u8> {
    match word {
        Some(word) => encode_record(word_record(word)),
        None => Seq::empty(),
    }
}

/// The payload of an episode.
pub open spec fn content_bytes(content: EpisodeContent) -> Seq<u8> {
    seq![content_flags(content)] + (be_bytes(signed_bits(content.occurred_at.0), 8) + (be_bytes(
        signed_bits(content.recorded_at.0),
        8,
    ) + (be_bytes(content.source.0 as nat, 8) + (uleb128(content.context.len()) + (encode_records(
        word_records(content.context),
    ) + (encode_record(word_record(content.observation)) + (optional_bytes(content.action)
        + optional_bytes(content.outcome))))))))
}

/// Reads a statement that is present or not.
pub open spec fn parse_optional(bytes: Seq<u8>, present: bool) -> Parsed<Option<Record>> {
    if present {
        match parse_record(bytes, statement_rules()) {
            Ok((record, rest)) => Ok((Some(record), rest)),
            Err(detail) => Err(detail),
        }
    } else {
        Ok((None, bytes))
    }
}

/// The word of a record that may be absent.
pub open spec fn optional_record_word(record: Option<Record>) -> Option<Seq<int>> {
    match record {
        Some(record) => Some(record_word(record)),
        None => None,
    }
}

/// Reads what follows the counted context.
pub open spec fn parse_statements(
    bytes: Seq<u8>,
    flags: u8,
    occurred_at: i64,
    recorded_at: i64,
    source: u64,
    context_count: nat,
) -> Result<EpisodeContent, Seq<char>> {
    match parse_records(bytes, context_count, statement_rules()) {
        Err(detail) => Err(detail),
        Ok((context, rest)) => if !strictly_ascending(record_words(context)) {
            Err(NON_CANONICAL_CONTEXT@)
        } else {
            match parse_record(rest, statement_rules()) {
                Err(detail) => Err(detail),
                Ok((observation, rest)) => match parse_optional(rest, flags % 2 == 1) {
                    Err(detail) => Err(detail),
                    Ok((action, rest)) => match parse_optional(rest, flags / 2 == 1) {
                        Err(detail) => Err(detail),
                        Ok((outcome, rest)) => if rest.len() != 0 {
                            Err(TRAILING_BYTES@)
                        } else {
                            Ok(
                                EpisodeContent {
                                    occurred_at: TimestampMs(occurred_at),
                                    recorded_at: TimestampMs(recorded_at),
                                    context: record_words(context),
                                    observation: record_word(observation),
                                    action: optional_record_word(action),
                                    outcome: optional_record_word(outcome),
                                    source: SourceId(source),
                                },
                            )
                        },
                    },
                },
            }
        },
    }
}

/// Number of statements after the context.
pub open spec fn trailing_statements(flags: u8) -> nat {
    (1 + flags % 2 + flags / 2) as nat
}

/// Reads a payload.
pub open spec fn parse_content(bytes: Seq<u8>) -> Result<EpisodeContent, Seq<char>> {
    if bytes.len() == 0 {
        Err(TRUNCATED_EPISODE@)
    } else if bytes[0] >= 4 {
        Err(RESERVED_FLAGS@)
    } else {
        let flags = bytes[0];
        match parse_i64(bytes.skip(1)) {
            Err(detail) => Err(detail),
            Ok((occurred_at, rest)) => match parse_i64(rest) {
                Err(detail) => Err(detail),
                Ok((recorded_at, rest)) => match parse_u64(rest) {
                    Err(detail) => Err(detail),
                    Ok((source, rest)) => match parse_uleb128(rest) {
                        Err(detail) => Err(detail),
                        Ok((count, rest)) => if count + trailing_statements(flags) > rest.len()
                            / MIN_STATEMENT_BYTES as nat {
                            Err(STATEMENT_COUNT_EXCEEDS_REST@)
                        } else {
                            parse_statements(rest, flags, occurred_at, recorded_at, source, count)
                        },
                    },
                },
            },
        }
    }
}

proof fn lemma_word_record(word: Seq<int>)
    requires
        storable_word(word),
    ensures
        record_word(word_record(word)) == word,
        statement_rules().accept(word_record(word)),
        word_record(word).1.len() <= u64::MAX,
{
    assert(record_word(word_record(word)) =~= word);
}

proof fn lemma_record_word(record: Record)
    requires
        1 <= record.1.len() <= u64::MAX,
    ensures
        word_record(record_word(record)) == record,
        storable_word(record_word(record)),
{
    let word = record_word(record);
    assert(word.skip(1).map_values(|entry: int| entry as u64) =~= record.1);
}

proof fn lemma_optional_parse(word: Option<Seq<int>>, rest: Seq<u8>)
    requires
        word is Some ==> storable_word(word->0),
    ensures
        ({
            let record = match word {
                Some(word) => Some(word_record(word)),
                None => None,
            };
            &&& parse_optional(optional_bytes(word) + rest, word is Some) == Ok::<
                (Option<Record>, Seq<u8>),
                Seq<char>,
            >((record, rest))
            &&& optional_record_word(record) == word
            &&& optional_bytes(word).len() >= if word is Some {
                17int
            } else {
                0int
            }
        }),
{
    match word {
        Some(word) => {
            lemma_word_record(word);
            lemma_record_parse(word_record(word), statement_rules(), rest);
        },
        None => {
            assert(optional_bytes(word) + rest =~= rest);
        },
    }
}

proof fn lemma_optional_canonical(bytes: Seq<u8>, present: bool)
    requires
        parse_optional(bytes, present) is Ok,
    ensures
        ({
            let (record, rest) = parse_optional(bytes, present)->Ok_0;
            let word = optional_record_word(record);
            &&& bytes == optional_bytes(word) + rest
            &&& word is Some <==> present
            &&& word is Some ==> storable_word(word->0)
        }),
{
    let (record, rest) = parse_optional(bytes, present)->Ok_0;
    if present {
        lemma_record_canonical(bytes, statement_rules());
        lemma_record_word(record->0);
    } else {
        assert(bytes =~= Seq::<u8>::empty() + rest);
    }
}

/// A canonical episode is read back from its payload.
pub proof fn law_payload_round_trip(content: EpisodeContent)
    requires
        storable_content(content),
    ensures
        parse_content(content_bytes(content)) == Ok::<EpisodeContent, Seq<char>>(content),
{
    let flags = content_flags(content);
    let records = word_records(content.context);
    let observation = word_record(content.observation);
    let outcome_part = optional_bytes(content.outcome);
    let action_part = optional_bytes(content.action) + outcome_part;
    let observed = encode_record(observation) + action_part;
    let listed = encode_records(records) + observed;
    let counted = uleb128(content.context.len()) + listed;
    let sourced = be_bytes(content.source.0 as nat, 8) + counted;
    let recorded = be_bytes(signed_bits(content.recorded_at.0), 8) + sourced;
    let occurred = be_bytes(signed_bits(content.occurred_at.0), 8) + recorded;
    let bytes = content_bytes(content);
    assert(bytes =~= seq![flags] + occurred);
    assert(bytes[0] == flags && flags < 4);
    assert(bytes.skip(1) =~= occurred);
    lemma_i64_parse(content.occurred_at.0, recorded, bytes);
    lemma_i64_parse(content.recorded_at.0, sourced, bytes);
    lemma_u64_parse(content.source.0, counted);
    law_uleb128_round_trip(content.context.len() as u64, listed, bytes);
    assert forall|i: int| 0 <= i < records.len() implies statement_rules().accept(
        #[trigger] records[i],
    ) && records[i].1.len() <= u64::MAX by {
        assert(storable_word(content.context[i]));
        lemma_word_record(content.context[i]);
    }
    lemma_records_parse(records, statement_rules(), observed);
    assert(record_words(records) =~= content.context) by {
        assert forall|i: int| 0 <= i < records.len() implies #[trigger] record_words(records)[i]
            == content.context[i] by {
            assert(storable_word(content.context[i]));
            lemma_word_record(content.context[i]);
        }
    }
    lemma_word_record(content.observation);
    lemma_record_parse(observation, statement_rules(), action_part);
    lemma_optional_parse(content.action, outcome_part);
    lemma_optional_parse(content.outcome, Seq::empty());
    assert(outcome_part + Seq::<u8>::empty() =~= outcome_part);
    assert(listed.len() >= 17 * (content.context.len() + trailing_statements(flags)));
    let parsed = parse_content(bytes)->Ok_0;
    assert(parsed.context =~= content.context);
}

/// Only the payload of an episode is read as that episode.
pub proof fn law_payload_is_canonical(bytes: Seq<u8>)
    requires
        parse_content(bytes) is Ok,
        bytes.len() <= u64::MAX,
    ensures
        storable_content(parse_content(bytes)->Ok_0),
        bytes == content_bytes(parse_content(bytes)->Ok_0),
{
    let content = parse_content(bytes)->Ok_0;
    let flags = bytes[0];
    let occurred = bytes.skip(1);
    lemma_i64_parse(0, bytes, occurred);
    let (occurred_at, recorded) = parse_i64(occurred)->Ok_0;
    lemma_i64_parse(0, bytes, recorded);
    let (recorded_at, sourced) = parse_i64(recorded)->Ok_0;
    lemma_u64_canonical(sourced);
    let (source, counted) = parse_u64(sourced)->Ok_0;
    law_uleb128_round_trip(0, counted, counted);
    let (count, listed) = parse_uleb128(counted)->Ok_0;
    lemma_records_canonical(listed, count, statement_rules());
    let (context, observed) = parse_records(listed, count, statement_rules())->Ok_0;
    lemma_record_canonical(observed, statement_rules());
    let (observation, action_part) = parse_record(observed, statement_rules())->Ok_0;
    lemma_record_word(observation);
    lemma_optional_canonical(action_part, flags % 2 == 1);
    let (action, outcome_part) = parse_optional(action_part, flags % 2 == 1)->Ok_0;
    lemma_optional_canonical(outcome_part, flags / 2 == 1);
    let (outcome, end) = parse_optional(outcome_part, flags / 2 == 1)->Ok_0;
    assert(end =~= Seq::empty());
    assert(content.context.len() == count);
    assert(word_records(content.context) =~= context) by {
        assert forall|i: int| 0 <= i < context.len() implies #[trigger] word_records(
            content.context,
        )[i] == context[i] by {
            assert(statement_rules().accept(context[i]));
            lemma_record_word(context[i]);
        }
    }
    assert forall|i: int| 0 <= i < content.context.len() implies storable_word(
        #[trigger] content.context[i],
    ) by {
        assert(statement_rules().accept(context[i]));
        lemma_record_word(context[i]);
    }
    assert(listed.len() <= bytes.len());
    assert(count + 1 <= listed.len() / 17);
    assert(content_flags(content) == flags);
    assert(optional_bytes(content.outcome) + end =~= optional_bytes(content.outcome));
    assert(bytes =~= seq![flags] + occurred);
    assert(bytes =~= content_bytes(content));
}

/// Appends the encoding of a statement.
pub fn encode_statement(statement: &Statement, encoded: &mut Vec<u8>)
    ensures
        final(encoded)@ == old(encoded)@ + encode_record(word_record(statement.word())),
        storable_word(statement.word()),
{
    let predicate: u64 = statement.predicate().0;
    let arguments = statement.arguments();
    let ghost word = statement.word();
    let ghost record = word_record(word);
    let length: usize = arguments.len();
    let ghost numbers = record.1;
    proof {
        assert forall|i: int| 0 <= i < word.len() implies 0 <= #[trigger] word[i] <= u64::MAX by {
            if i > 0 {
                assert(word[i] == arguments@[i - 1].0);
            }
        }
        assert(numbers.len() == arguments@.len());
    }
    push_u64(encoded, predicate);
    encode_count(length, encoded);
    let ghost start = encoded@;
    let mut index: usize = 0;
    assert(numbers.skip(0) =~= numbers);
    while index < length
        invariant
            index <= length == arguments@.len(),
            numbers.len() == length,
            forall|i: int| 0 <= i < length ==> #[trigger] numbers[i] == arguments@[i].0,
            start + crate::sqlite::wire::encode_numbers(numbers) == encoded@
                + crate::sqlite::wire::encode_numbers(numbers.skip(index as int)),
        decreases length - index,
    {
        let ghost before = encoded@;
        push_u64(encoded, arguments[index].0);
        proof {
            let tail = numbers.skip(index as int);
            assert(tail[0] == numbers[index as int]);
            assert(tail.skip(1) =~= numbers.skip(index + 1));
            assert(before + crate::sqlite::wire::encode_numbers(tail) =~= encoded@
                + crate::sqlite::wire::encode_numbers(numbers.skip(index + 1)));
        }
        index = index + 1;
    }
    proof {
        assert(numbers.skip(length as int) =~= Seq::empty());
        assert(encoded@ =~= start + crate::sqlite::wire::encode_numbers(numbers));
        assert(encoded@ =~= old(encoded)@ + encode_record(record));
    }
}

/// Appends the counted context of an episode.
fn encode_context(context: &[Statement], encoded: &mut Vec<u8>)
    ensures
        final(encoded)@ == (old(encoded)@ + uleb128(context@.len())) + encode_records(
            word_records(words(context@)),
        ),
{
    encode_count(context.len(), encoded);
    let ghost start = encoded@;
    let ghost records = word_records(words(context@));
    let mut index: usize = 0;
    assert(records.skip(0) =~= records);
    while index < context.len()
        invariant
            index <= context@.len(),
            records == word_records(words(context@)),
            start + encode_records(records) == encoded@ + encode_records(
                records.skip(index as int),
            ),
        decreases context@.len() - index,
    {
        let ghost before = encoded@;
        encode_statement(&context[index], encoded);
        proof {
            let tail = records.skip(index as int);
            assert(words(context@)[index as int] == context@[index as int].word());
            assert(tail[0] == word_record(context@[index as int].word()));
            assert(tail.skip(1) =~= records.skip(index + 1));
            assert(before + encode_records(tail) =~= encoded@ + encode_records(
                records.skip(index + 1),
            ));
        }
        index = index + 1;
    }
    assert(records.skip(index as int) =~= Seq::empty());
    assert(encoded@ =~= start + encode_records(records));
}

/// Appending part after part gives the same bytes as nesting them.
proof fn lemma_nested_parts(
    a: Seq<u8>,
    b: Seq<u8>,
    c: Seq<u8>,
    d: Seq<u8>,
    e: Seq<u8>,
    f: Seq<u8>,
    g: Seq<u8>,
    h: Seq<u8>,
    i: Seq<u8>,
)
    ensures
        a + b + c + d + e + f + g + h + i == a + (b + (c + (d + (e + (f + (g + (h + i))))))),
{
    assert(a + b + c + d + e + f + g + h + i =~= a + (b + (c + (d + (e + (f + (g + (h + i))))))));
}

/// Returns the payload of an episode.
pub fn encode_episode(episode: &EpisodeAtom) -> (encoded: Vec<u8>)
    ensures
        encoded@ == content_bytes(episode.content()),
{
    let ghost content = episode.content();
    let mut encoded: Vec<u8> = Vec::new();
    let action = episode.action();
    let outcome = episode.outcome();
    let mut flags: u8 = 0;
    if action.is_some() {
        flags = flags + ACTION_PRESENT;
    }
    if outcome.is_some() {
        flags = flags + OUTCOME_PRESENT;
    }
    encoded.push(flags);
    assert(encoded@ =~= seq![flags]);
    assert(flags == content_flags(content));
    push_i64(&mut encoded, episode.occurred_at().0);
    push_i64(&mut encoded, episode.recorded_at().0);
    push_u64(&mut encoded, episode.source().0);
    let context = episode.context();
    assert(context@.len() == words(context@).len());
    encode_context(context, &mut encoded);
    encode_statement(episode.observation(), &mut encoded);
    let ghost observed = encoded@;
    if let Some(action) = action {
        encode_statement(action, &mut encoded);
    }
    assert(encoded@ =~= observed + optional_bytes(content.action));
    let ghost acted = encoded@;
    if let Some(outcome) = outcome {
        encode_statement(outcome, &mut encoded);
    }
    assert(encoded@ =~= acted + optional_bytes(content.outcome));
    proof {
        lemma_nested_parts(
            seq![flags],
            be_bytes(signed_bits(content.occurred_at.0), 8),
            be_bytes(signed_bits(content.recorded_at.0), 8),
            be_bytes(content.source.0 as nat, 8),
            uleb128(content.context.len()),
            encode_records(word_records(content.context)),
            encode_record(word_record(content.observation)),
            optional_bytes(content.action),
            optional_bytes(content.outcome),
        );
    }
    encoded
}

/// Reads one statement.
pub fn read_statement(decoder: &mut Decoder) -> (result: Result<Statement, EpisodeDecodeError>)
    ensures
        match parse_record(old(decoder)@, statement_rules()) {
            Ok((record, rest)) => result is Ok && result->Ok_0.word() == record_word(record)
                && final(decoder)@ == rest,
            Err(detail) => result is Err && result->Err_0@ == detail,
        },
{
    let ghost bytes = decoder@;
    match decoder.read_record(EMPTY_ARGUMENTS, ARGUMENT_COUNT_EXCEEDS_REST, None) {
        Err(error) => Err(error),
        Ok((head, numbers)) => {
            proof {
                lemma_record_canonical(bytes, statement_rules());
            }
            let mut arguments: Vec<TermId> = Vec::new();
            let mut index: usize = 0;
            while index < numbers.len()
                invariant
                    index <= numbers@.len(),
                    arguments@.len() == index,
                    forall|i: int| 0 <= i < index ==> (#[trigger] arguments@[i]).0 == numbers@[i],
                decreases numbers@.len() - index,
            {
                arguments.push(TermId::new(numbers[index]));
                index = index + 1;
            }
            assert(statement_word(PredicateId(head), arguments@) =~= record_word((head, numbers@)));
            match Statement::new(PredicateId::new(head), arguments) {
                Ok(statement) => Ok(statement),
                Err(_) => Err(EpisodeDecodeError::new(EMPTY_ARGUMENTS)),
            }
        },
    }
}

/// Whether each statement precedes the next.
fn is_ascending(statements: &Vec<Statement>) -> (ascending: bool)
    ensures
        ascending == strictly_ascending(words(statements@)),
{
    let ghost all = words(statements@);
    let mut index: usize = 1;
    while index < statements.len()
        invariant
            1 <= index,
            index <= statements@.len() || statements@.len() == 0,
            all == words(statements@),
            forall|i: int, j: int|
                #![trigger all[i], all[j]]
                0 <= i < j < index && j < all.len() ==> lexically_less(all[i], all[j]),
        decreases statements@.len() - index,
    {
        let relation = statements[index - 1].relation(&statements[index]);
        let ghost first = all[index - 1];
        let ghost second = all[index as int];
        match relation {
            Relation::Less => {},
            Relation::Equal => {
                proof {
                    if lexically_less(first, second) {
                        lemma_lexical_asymmetric(first, second);
                    }
                }
                return false;
            },
            Relation::Greater => {
                proof {
                    lemma_lexical_asymmetric(second, first);
                }
                return false;
            },
        }
        assert forall|i: int, j: int|
            #![trigger all[i], all[j]]
            0 <= i < j < index + 1 && j < all.len() implies lexically_less(all[i], all[j]) by {
            if j == index && i < index - 1 {
                assert(lexically_less(all[i], all[index - 1]));
                lemma_lexical_transitive(all[i], all[index - 1], all[index as int]);
            }
        }
        index = index + 1;
    }
    true
}

/// Reads a counted context.
fn read_context(decoder: &mut Decoder, count: usize) -> (result: Result<
    Vec<Statement>,
    EpisodeDecodeError,
>)
    ensures
        match parse_records(old(decoder)@, count as nat, statement_rules()) {
            Ok((records, rest)) => result is Ok && words(result->Ok_0@) == record_words(records)
                && final(decoder)@ == rest,
            Err(detail) => result is Err && result->Err_0@ == detail,
        },
{
    let ghost start = decoder@;
    let mut context: Vec<Statement> = Vec::new();
    let mut index: usize = 0;
    let ghost mut read: Seq<Record> = Seq::empty();
    proof {
        match parse_records(start, count as nat, statement_rules()) {
            Ok((records, _)) => {
                assert(read + records =~= records);
            },
            Err(_) => {},
        }
    }
    while index < count
        invariant
            index <= count,
            start == old(decoder)@,
            words(context@) == record_words(read),
            match parse_records(decoder@, (count - index) as nat, statement_rules()) {
                Ok((records, rest)) => parse_records(start, count as nat, statement_rules()) == Ok::<
                    (Seq<Record>, Seq<u8>),
                    Seq<char>,
                >((read + records, rest)),
                Err(detail) => parse_records(start, count as nat, statement_rules()) == Err::<
                    (Seq<Record>, Seq<u8>),
                    Seq<char>,
                >(detail),
            },
        decreases count - index,
    {
        let ghost before = decoder@;
        let ghost earlier = context@;
        match read_statement(decoder) {
            Err(error) => {
                return Err(error);
            },
            Ok(statement) => {
                context.push(statement);
                proof {
                    let (record, _) = parse_record(before, statement_rules())->Ok_0;
                    let longer = read.push(record);
                    assert((count - index - 1) as nat == ((count - index) as nat - 1) as nat);
                    match parse_records(decoder@, (count - index - 1) as nat, statement_rules()) {
                        Ok((records, _)) => {
                            assert(read + (seq![record] + records) =~= longer + records);
                        },
                        Err(_) => {},
                    }
                    assert(words(context@) =~= words(earlier).push(statement.word()));
                    assert(record_words(longer) =~= record_words(read).push(record_word(record)));
                    read = longer;
                }
            },
        }
        index = index + 1;
    }
    proof {
        assert(read + Seq::<Record>::empty() =~= read);
    }
    Ok(context)
}

fn read_optional(decoder: &mut Decoder, present: bool) -> (result: Result<
    Option<Statement>,
    EpisodeDecodeError,
>)
    ensures
        match parse_optional(old(decoder)@, present) {
            Ok((record, rest)) => result is Ok && crate::statement::optional_word(result->Ok_0)
                == optional_record_word(record) && final(decoder)@ == rest,
            Err(detail) => result is Err && result->Err_0@ == detail,
        },
{
    if !present {
        return Ok(None);
    }
    match read_statement(decoder) {
        Ok(statement) => Ok(Some(statement)),
        Err(error) => Err(error),
    }
}

/// Reads a payload.
pub fn decode_episode(bytes: &[u8]) -> (result: Result<EpisodeDraft, EpisodeDecodeError>)
    ensures
        match parse_content(bytes@) {
            Ok(content) => result is Ok && result->Ok_0.content() == content,
            Err(detail) => result is Err && result->Err_0@ == detail,
        },
{
    let mut decoder = Decoder::new(bytes);
    let flags: u8 = match decoder.read_byte(TRUNCATED_EPISODE) {
        Ok(flags) => flags,
        Err(error) => {
            return Err(error);
        },
    };
    if flags >= 4 {
        return Err(EpisodeDecodeError::new(RESERVED_FLAGS));
    }
    let occurred_at: i64 = match decoder.read_i64() {
        Ok(value) => value,
        Err(error) => {
            return Err(error);
        },
    };
    let recorded_at: i64 = match decoder.read_i64() {
        Ok(value) => value,
        Err(error) => {
            return Err(error);
        },
    };
    let source: u64 = match decoder.read_u64() {
        Ok(value) => value,
        Err(error) => {
            return Err(error);
        },
    };
    let context_count: u64 = match decoder.read_uleb128() {
        Ok(value) => value,
        Err(error) => {
            return Err(error);
        },
    };
    let trailing: u64 = 1 + (flags % 2) as u64 + (flags / 2) as u64;
    let remaining: usize = decoder.remaining_len();
    if context_count > u64::MAX - trailing {
        return Err(EpisodeDecodeError::new(STATEMENT_COUNT_EXCEEDS_REST));
    }
    if !count_fits_remaining(context_count + trailing, MIN_STATEMENT_BYTES, remaining) {
        return Err(EpisodeDecodeError::new(STATEMENT_COUNT_EXCEEDS_REST));
    }
    let context = match read_context(&mut decoder, context_count as usize) {
        Ok(context) => context,
        Err(error) => {
            return Err(error);
        },
    };
    if !is_ascending(&context) {
        return Err(EpisodeDecodeError::new(NON_CANONICAL_CONTEXT));
    }
    let observation = match read_statement(&mut decoder) {
        Ok(statement) => statement,
        Err(error) => {
            return Err(error);
        },
    };
    let action = match read_optional(&mut decoder, flags % 2 == 1) {
        Ok(statement) => statement,
        Err(error) => {
            return Err(error);
        },
    };
    let outcome = match read_optional(&mut decoder, flags / 2 == 1) {
        Ok(statement) => statement,
        Err(error) => {
            return Err(error);
        },
    };
    if decoder.remaining_len() != 0 {
        return Err(EpisodeDecodeError::new(TRAILING_BYTES));
    }
    Ok(
        EpisodeDraft {
            occurred_at: TimestampMs::new(occurred_at),
            recorded_at: TimestampMs::new(recorded_at),
            context,
            observation,
            action,
            outcome,
            source: SourceId::new(source),
        },
    )
}

} // verus!
