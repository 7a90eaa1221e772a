//! How values lie in the bytes of a store, and which settings it works under.

use vstd::arithmetic::div_mod::lemma_div_denominator;
use vstd::arithmetic::power::{lemma_pow0, lemma_pow_positive, pow};
use vstd::prelude::*;

use crate::bytes::{be_bytes, be_value};
use crate::model::TimestampMs;
use crate::sqlite::codec::{content_bytes, word_record};
use crate::sqlite::episode_codec::episode_bytes;
use crate::sqlite::row::{integer_in, memory_id_error, u64_in, Value};
use crate::sqlite::session::{same_without_case, session_values};
use crate::sqlite::wire::{
    encode_numbers, encode_record, encode_records, from_bits, signed_bits, uleb128, Record,
};
use crate::statement::EpisodeContent;

verus! {

/// A number takes as many bytes as its width, the most significant first: each
/// byte is its place in base 256.
pub proof fn law_numbers_are_big_endian(value: nat, width: nat, place: nat)
    requires
        place < width,
    ensures
        be_bytes(value, width).len() == width,
        be_bytes(value, width)[width - 1 - place] == (value as int / pow(256, place)) % 256,
    decreases width,
{
    crate::bytes::lemma_be_round_trip(value, width);
    if place == 0 {
        lemma_pow0(256);
        assert(value as int / 1 == value);
    } else {
        let rest = (place - 1) as nat;
        law_numbers_are_big_endian(value / 256, (width - 1) as nat, rest);
        lemma_pow_positive(256, rest);
        vstd::arithmetic::power::lemma_pow_adds(256, 1, rest);
        vstd::arithmetic::power::lemma_pow1(256);
        lemma_div_denominator(value as int, 256, pow(256, rest));
        assert(be_bytes(value, width)[width - 1 - place] == be_bytes(
            value / 256,
            (width - 1) as nat,
        )[width - 1 - place]);
    }
}

/// A byte in front of others counts for its place in base 256.
pub proof fn law_leading_bytes_weigh_most(byte: u8, bytes: Seq<u8>)
    ensures
        be_value(seq![byte] + bytes) == byte * pow(256, bytes.len()) + be_value(bytes),
    decreases bytes.len(),
{
    let all = seq![byte] + bytes;
    if bytes.len() == 0 {
        lemma_pow0(256);
        assert(all.drop_last() =~= Seq::empty());
        assert(be_value(all.drop_last()) == 0);
        assert(all.last() == byte);
    } else {
        let rest = bytes.drop_last();
        law_leading_bytes_weigh_most(byte, rest);
        assert(all.drop_last() =~= seq![byte] + rest);
        assert(all.last() == bytes.last());
        vstd::arithmetic::power::lemma_pow_adds(256, 1, rest.len());
        vstd::arithmetic::power::lemma_pow1(256);
        let power = pow(256, rest.len());
        assert(256 * (byte * power) == byte * (256 * power)) by (nonlinear_arith);
    }
}

/// A signed number is written as its two's complement in 64 bits.
pub proof fn law_signed_numbers_are_twos_complements(value: i64, bits: nat)
    ensures
        signed_bits(value) == value as int % 0x1_0000_0000_0000_0000,
        from_bits(signed_bits(value)) == value,
        bits < 0x1_0000_0000_0000_0000 ==> (bits - from_bits(bits)) % 0x1_0000_0000_0000_0000 == 0,
{
}

/// A count is written in groups of seven bits, the least significant first, and
/// every byte but the last has its highest bit set.
pub proof fn law_counts_are_groups_of_seven_bits(low: nat, high: nat)
    requires
        low < 128,
    ensures
        uleb128(low) == seq![low as u8],
        high > 0 ==> uleb128(128 * high + low) == seq![(128 + low) as u8] + uleb128(high),
{
    if high > 0 {
        let value = 128 * high + low;
        assert(value / 128 == high && value % 128 == low);
    }
}

/// Listed numbers take eight bytes each, one after the other.
pub proof fn law_listed_numbers_lie_in_order(numbers: Seq<u64>)
    ensures
        encode_numbers(numbers) == numbers.map_values(
            |number: u64| be_bytes(number as nat, 8),
        ).flatten(),
    decreases numbers.len(),
{
    let line = |number: u64| be_bytes(number as nat, 8);
    let lists = numbers.map_values(line);
    if numbers.len() > 0 {
        law_listed_numbers_lie_in_order(numbers.skip(1));
        assert(numbers.skip(1).map_values(line) =~= lists.drop_first());
    }
}

/// A key lies before the number of its values, and that before the values.
pub proof fn law_keys_lie_before_their_values(key: u64, values: Seq<u64>)
    ensures
        encode_record((key, values)) == be_bytes(key as nat, 8) + uleb128(values.len())
            + values.map_values(|number: u64| be_bytes(number as nat, 8)).flatten(),
{
    law_listed_numbers_lie_in_order(values);
}

/// Records lie one after the other.
pub proof fn law_records_lie_in_order(records: Seq<Record>)
    ensures
        encode_records(records) == records.map_values(
            |record: Record| encode_record(record),
        ).flatten(),
    decreases records.len(),
{
    let line = |record: Record| encode_record(record);
    let lists = records.map_values(line);
    if records.len() > 0 {
        law_records_lie_in_order(records.skip(1));
        assert(records.skip(1).map_values(line) =~= lists.drop_first());
    }
}

/// An episode lies as its timestamp, the number of its attributes, and then the
/// attributes in their order.
pub proof fn law_episodes_lie_as_timestamp_and_attributes(
    timestamp: TimestampMs,
    groups: Seq<Record>,
)
    ensures
        episode_bytes(timestamp, groups) == be_bytes(
            (timestamp.0 as int % 0x1_0000_0000_0000_0000) as nat,
            8,
        ) + uleb128(groups.len()) + groups.map_values(
            |record: Record| encode_record(record),
        ).flatten(),
{
    law_signed_numbers_are_twos_complements(timestamp.0, 0);
    law_records_lie_in_order(groups);
    assert(episode_bytes(timestamp, groups) =~= be_bytes(signed_bits(timestamp.0), 8) + uleb128(
        groups.len(),
    ) + encode_records(groups));
}

/// A statement episode lies as a byte that tells whether it has an action and an
/// outcome, then when it occurred, when it was recorded, its source, its context,
/// its observation, its action and its outcome.
pub proof fn law_statement_episodes_lie_in_order(content: EpisodeContent)
    ensures
        content_bytes(content)[0] % 2 == 1 <==> content.action is Some,
        content_bytes(content)[0] / 2 == 1 <==> content.outcome is Some,
        content_bytes(content)[0] < 4,
        content_bytes(content).subrange(1, 9) == be_bytes(signed_bits(content.occurred_at.0), 8),
        content_bytes(content).subrange(9, 17) == be_bytes(signed_bits(content.recorded_at.0), 8),
        content_bytes(content).subrange(17, 25) == be_bytes(content.source.0 as nat, 8),
        content_bytes(content).skip(25) == uleb128(content.context.len())
            + content.context.map_values(
            |word: Seq<int>| encode_record(word_record(word)),
        ).flatten() + encode_record(word_record(content.observation)) + (match content.action {
            Some(word) => encode_record(word_record(word)),
            None => Seq::empty(),
        }) + (match content.outcome {
            Some(word) => encode_record(word_record(word)),
            None => Seq::empty(),
        }),
{
    let occurred = be_bytes(signed_bits(content.occurred_at.0), 8);
    let recorded = be_bytes(signed_bits(content.recorded_at.0), 8);
    let source = be_bytes(content.source.0 as nat, 8);
    crate::bytes::lemma_be_round_trip(signed_bits(content.occurred_at.0), 8);
    crate::bytes::lemma_be_round_trip(signed_bits(content.recorded_at.0), 8);
    crate::bytes::lemma_be_round_trip(content.source.0 as nat, 8);
    let bytes = content_bytes(content);
    assert(bytes.subrange(1, 9) =~= occurred);
    assert(bytes.subrange(9, 17) =~= recorded);
    assert(bytes.subrange(17, 25) =~= source);
    let records = crate::sqlite::codec::word_records(content.context);
    law_records_lie_in_order(records);
    let line = |record: Record| encode_record(record);
    let own = |word: Seq<int>| encode_record(word_record(word));
    assert(records.map_values(line) =~= content.context.map_values(own));
    let action = crate::sqlite::codec::optional_bytes(content.action);
    let outcome = crate::sqlite::codec::optional_bytes(content.outcome);
    assert(bytes.skip(25) =~= uleb128(content.context.len()) + encode_records(records)
        + encode_record(word_record(content.observation)) + action + outcome);
}

/// A statement lies as its predicate with its arguments in their order.
pub proof fn law_statements_lie_as_predicate_and_arguments(predicate: u64, arguments: Seq<u64>)
    ensures
        word_record(seq![predicate as int] + arguments.map_values(|term: u64| term as int)) == (
            predicate,
            arguments,
        ),
{
    let word = seq![predicate as int] + arguments.map_values(|term: u64| term as int);
    assert(word_record(word).1 =~= arguments);
}

/// A column of numbers holds eight bytes, one of integers an integer, and one of
/// memory identifiers sixteen bytes that are not zero; anything else is refused.
pub proof fn law_columns_hold_their_values(
    value: Value,
    table: &'static str,
    column: &'static str,
)
    ensures
        u64_in(value, table, column) is Ok <==> (value matches Value::Blob(bytes) && bytes@.len()
            == 8),
        u64_in(value, table, column) matches Ok(number) ==> (value matches Value::Blob(bytes)
            && be_value(bytes@) == number),
        integer_in(value, table, column) is Ok <==> value is Integer,
        integer_in(value, table, column) matches Ok(number) ==> value == Value::Integer(number),
        memory_id_error(value, table, column) is None <==> (value matches Value::Blob(bytes)
            && bytes@.len() == 16 && be_value(bytes@) != 0),
{
    if let Value::Blob(bytes) = value {
        crate::bytes::lemma_capacities();
        crate::bytes::lemma_be_canonical(bytes@);
    }
}

/// Two texts are the same without case exactly if they have the same length and
/// every two characters are equal or are a capital letter and its small letter.
pub proof fn law_only_letters_lose_their_case(first: Seq<char>, second: Seq<char>)
    ensures
        same_without_case(first, second) <==> first.len() == second.len() && forall|i: int|
            0 <= i < first.len() ==> #[trigger] first[i] == second[i] || ('A' <= first[i] <= 'Z'
                && second[i] as int == first[i] as int + 32) || ('A' <= second[i] <= 'Z'
                && first[i] as int == second[i] as int + 32),
{
    if same_without_case(first, second) {
        assert forall|i: int| 0 <= i < first.len() implies #[trigger] first[i] == second[i] || (
        'A' <= first[i] <= 'Z' && second[i] as int == first[i] as int + 32) || ('A' <= second[i]
            <= 'Z' && first[i] as int == second[i] as int + 32) by {
            assert(crate::sqlite::session::small_code(first[i])
                == crate::sqlite::session::small_code(second[i]));
        }
    }
}

/// A session checks foreign keys and constraints, trusts no schema, and does not
/// wait for others.
pub proof fn law_sessions_are_strict(name: Seq<char>, value: i64)
    ensures
        session_values().contains((name, value)) <==> {
            ||| name == "foreign_keys"@ && value == 1
            ||| name == "trusted_schema"@ && value == 0
            ||| name == "ignore_check_constraints"@ && value == 0
            ||| name == "busy_timeout"@ && value == 0
        },
{
    let values = session_values();
    assert(values[0] == ("foreign_keys"@, 1i64));
    assert(values[1] == ("trusted_schema"@, 0i64));
    assert(values[2] == ("ignore_check_constraints"@, 0i64));
    assert(values[3] == ("busy_timeout"@, 0i64));
    if values.contains((name, value)) {
        let i = values.index_of((name, value));
        assert(i == 0 || i == 1 || i == 2 || i == 3);
    }
}

} // verus!
