//! Byte-level building blocks of episode payloads.

use vstd::prelude::*;

use crate::bytes::{
    be_bytes, be_value, lemma_be_canonical, lemma_be_round_trip, lemma_capacities, u64_from_be,
    u64_to_be,
};
use crate::model::{two_to, MemoryId};
use crate::order::increasing;

verus! {

/// Encoded width of a memory identifier.
pub const MEMORY_ID_BYTES: usize = 16;

/// Encoded width of an unsigned or signed 64-bit number.
pub const U64_BYTES: usize = 8;

/// Detail of a payload that ends inside a fixed-width field.
pub const TRUNCATED_EPISODE: &'static str = "episode blob is truncated";

/// Detail of a count that ends before its last byte.
pub const TRUNCATED_COUNT: &'static str = "count ULEB128 is truncated";

/// Detail of a count beyond the unsigned 64-bit range.
pub const OVERFLOWING_COUNT: &'static str = "count ULEB128 overflows u64";

/// Detail of a count that has a shorter encoding.
pub const NON_CANONICAL_COUNT: &'static str = "count ULEB128 is not canonical";

/// Why a payload is not a canonical episode.
#[derive(Clone, Copy, Debug, PartialEq, Eq)]
pub struct EpisodeDecodeError {
    detail: &'static str,
}

impl View for EpisodeDecodeError {
    type V = Seq<char>;

    closed spec fn view(&self) -> Seq<char> {
        self.detail@
    }
}

impl EpisodeDecodeError {
    /// Creates an error with its detail.
    pub fn new(detail: &'static str) -> (error: EpisodeDecodeError)
        ensures
            error@ == detail@,
    {
        EpisodeDecodeError { detail }
    }

    /// Returns the violated rule.
    pub fn detail(&self) -> (detail: &'static str)
        ensures
            detail@ == self@,
    {
        self.detail
    }
}

/// A parsed value with the bytes that follow it, or the violated rule.
pub type Parsed<T> = Result<(T, Seq<u8>), Seq<char>>;

/// The unsigned bit pattern of a signed number.
pub open spec fn signed_bits(value: i64) -> nat {
    if value >= 0 {
        value as nat
    } else {
        (value + 0x1_0000_0000_0000_0000) as nat
    }
}

/// The signed number of an unsigned bit pattern.
pub open spec fn from_bits(bits: nat) -> i64 {
    if bits < 0x8000_0000_0000_0000 {
        bits as i64
    } else {
        (bits - 0x1_0000_0000_0000_0000) as i64
    }
}

/// Reads a fixed-width unsigned number.
pub open spec fn parse_u64(bytes: Seq<u8>) -> Parsed<u64> {
    if bytes.len() < 8 {
        Err(TRUNCATED_EPISODE@)
    } else {
        Ok((be_value(bytes.take(8)) as u64, bytes.skip(8)))
    }
}

/// Reads a fixed-width signed number.
pub open spec fn parse_i64(bytes: Seq<u8>) -> Parsed<i64> {
    if bytes.len() < 8 {
        Err(TRUNCATED_EPISODE@)
    } else {
        Ok((from_bits(be_value(bytes.take(8))), bytes.skip(8)))
    }
}

/// Shortest little-endian base-128 encoding of a count.
pub open spec fn uleb128(value: nat) -> Seq<u8>
    decreases value,
{
    if value < 128 {
        seq![value as u8]
    } else {
        seq![(128 + value % 128) as u8] + uleb128(value / 128)
    }
}

/// Reads the rest of a count whose first `index` bytes were read.
pub open spec fn parse_uleb128_at(bytes: Seq<u8>, index: nat) -> Parsed<nat>
    decreases 10 - index,
{
    if bytes.len() == 0 {
        Err(TRUNCATED_COUNT@)
    } else {
        let payload = (bytes[0] % 128) as nat;
        if index == 9 && payload > 1 {
            Err(OVERFLOWING_COUNT@)
        } else if bytes[0] < 128 {
            if index != 0 && payload == 0 {
                Err(NON_CANONICAL_COUNT@)
            } else {
                Ok((payload, bytes.skip(1)))
            }
        } else if index >= 9 {
            Err(OVERFLOWING_COUNT@)
        } else {
            match parse_uleb128_at(bytes.skip(1), index + 1) {
                Ok((high, rest)) => Ok((payload + 128 * high, rest)),
                Err(detail) => Err(detail),
            }
        }
    }
}

/// Reads a canonical count.
pub open spec fn parse_uleb128(bytes: Seq<u8>) -> Parsed<nat> {
    parse_uleb128_at(bytes, 0)
}

/// The range of what follows the first `index` bytes of a count.
spec fn uleb128_bound(index: nat) -> nat {
    two_to((64 - 7 * index) as nat)
}

proof fn lemma_uleb128_bound(index: nat)
    requires
        index <= 9,
    ensures
        index < 9 ==> uleb128_bound(index) == 128 * uleb128_bound(index + 1),
        uleb128_bound(9) == 2,
        uleb128_bound(0) == 0x1_0000_0000_0000_0000,
        uleb128_bound(index) >= 2,
    decreases 9 - index,
{
    reveal_with_fuel(two_to, 8);
    assert(two_to(1) == 2);
    assert(two_to(9) == 512);
    assert(two_to(16) == 65536);
    assert(two_to(23) == 0x80_0000);
    assert(two_to(30) == 0x4000_0000);
    assert(two_to(37) == 0x20_0000_0000);
    assert(two_to(44) == 0x1000_0000_0000);
    assert(two_to(51) == 0x8_0000_0000_0000);
    assert(two_to(58) == 0x400_0000_0000_0000);
    assert(two_to(64) == 0x1_0000_0000_0000_0000);
    if index < 9 {
        lemma_uleb128_bound(index + 1);
        let low = (64 - 7 * (index + 1)) as nat;
        assert(two_to(low + 7) == 128 * two_to(low));
        assert((64 - 7 * index) as nat == low + 7);
    }
}

proof fn lemma_uleb128_decodes(value: nat, index: nat, rest: Seq<u8>)
    requires
        index <= 9,
        value < uleb128_bound(index),
        index == 0 || value > 0,
    ensures
        parse_uleb128_at(uleb128(value) + rest, index) == Ok::<(nat, Seq<u8>), Seq<char>>(
            (value, rest),
        ),
    decreases value,
{
    lemma_uleb128_bound(index);
    let bytes = uleb128(value) + rest;
    if value < 128 {
        assert(bytes[0] == value as u8);
        assert(bytes.skip(1) =~= rest);
    } else {
        assert(index < 9);
        assert(bytes[0] == (128 + value % 128) as u8);
        assert(bytes.skip(1) =~= uleb128(value / 128) + rest);
        lemma_uleb128_decodes(value / 128, index + 1, rest);
    }
}

proof fn lemma_uleb128_canonical(bytes: Seq<u8>, index: nat)
    requires
        index <= 9,
        parse_uleb128_at(bytes, index) is Ok,
    ensures
        ({
            let (value, rest) = parse_uleb128_at(bytes, index)->Ok_0;
            &&& value < uleb128_bound(index)
            &&& bytes == uleb128(value) + rest
            &&& index == 0 || value > 0
        }),
    decreases 10 - index,
{
    lemma_uleb128_bound(index);
    let (value, rest) = parse_uleb128_at(bytes, index)->Ok_0;
    if bytes[0] < 128 {
        assert(uleb128(value) =~= seq![bytes[0]]);
        assert(bytes =~= seq![bytes[0]] + bytes.skip(1));
        if index < 9 {
            lemma_uleb128_bound(index + 1);
        }
    } else {
        lemma_uleb128_canonical(bytes.skip(1), index + 1);
        let (high, _) = parse_uleb128_at(bytes.skip(1), index + 1)->Ok_0;
        assert(high > 0);
        assert(value / 128 == high && value % 128 == bytes[0] % 128);
        assert(uleb128(value) =~= seq![bytes[0]] + uleb128(high));
        assert(bytes =~= seq![bytes[0]] + bytes.skip(1));
        assert(bytes =~= uleb128(value) + rest);
    }
}

/// A count is read back from its encoding, and only its shortest encoding is accepted.
pub proof fn law_uleb128_round_trip(value: u64, rest: Seq<u8>, bytes: Seq<u8>)
    ensures
        parse_uleb128(uleb128(value as nat) + rest) == Ok::<(nat, Seq<u8>), Seq<char>>(
            (value as nat, rest),
        ),
        parse_uleb128(bytes) matches Ok((found, tail)) ==> found <= u64::MAX && bytes == uleb128(
            found,
        ) + tail,
{
    lemma_uleb128_bound(0);
    lemma_uleb128_decodes(value as nat, 0, rest);
    if parse_uleb128(bytes) is Ok {
        lemma_uleb128_canonical(bytes, 0);
    }
}

/// One identifier with the identifiers that belong to it.
pub type Record = (u64, Seq<u64>);

/// The fixed-width encodings of numbers, one after the other.
pub open spec fn encode_numbers(numbers: Seq<u64>) -> Seq<u8>
    decreases numbers.len(),
{
    if numbers.len() == 0 {
        Seq::empty()
    } else {
        be_bytes(numbers[0] as nat, 8) + encode_numbers(numbers.skip(1))
    }
}

/// Reads a known quantity of fixed-width numbers.
pub open spec fn parse_numbers(bytes: Seq<u8>, count: nat) -> Parsed<Seq<u64>>
    decreases count,
{
    if count == 0 {
        Ok((Seq::empty(), bytes))
    } else {
        match parse_u64(bytes) {
            Err(detail) => Err(detail),
            Ok((number, rest)) => match parse_numbers(rest, (count - 1) as nat) {
                Err(detail) => Err(detail),
                Ok((numbers, rest)) => Ok((seq![number] + numbers, rest)),
            },
        }
    }
}

/// What a record must satisfy, with the detail of each violation.
pub ghost struct Rules {
    /// Detail of a record without numbers.
    pub empty: Seq<char>,
    /// Detail of a count beyond the bytes that follow.
    pub exceeds: Seq<char>,
    /// Detail of numbers that do not strictly increase, where they must.
    pub unordered: Option<Seq<char>>,
}

impl Rules {
    /// The rules accept the record.
    pub open spec fn accept(self, record: Record) -> bool {
        &&& record.1.len() > 0
        &&& self.unordered is Some ==> increasing(record.1)
    }
}

/// An identifier, a count and that many identifiers.
pub open spec fn encode_record(record: Record) -> Seq<u8> {
    be_bytes(record.0 as nat, 8) + uleb128(record.1.len()) + encode_numbers(record.1)
}

/// Reads one record.
pub open spec fn parse_record(bytes: Seq<u8>, rules: Rules) -> Parsed<Record> {
    match parse_u64(bytes) {
        Err(detail) => Err(detail),
        Ok((head, rest)) => match parse_uleb128(rest) {
            Err(detail) => Err(detail),
            Ok((count, rest)) => if count == 0 {
                Err(rules.empty)
            } else if count > rest.len() / 8 {
                Err(rules.exceeds)
            } else {
                match parse_numbers(rest, count) {
                    Err(detail) => Err(detail),
                    Ok((numbers, rest)) => if rules.unordered is Some && !increasing(numbers) {
                        Err(rules.unordered->0)
                    } else {
                        Ok(((head, numbers), rest))
                    },
                }
            },
        },
    }
}

/// The encodings of records, one after the other.
pub open spec fn encode_records(records: Seq<Record>) -> Seq<u8>
    decreases records.len(),
{
    if records.len() == 0 {
        Seq::empty()
    } else {
        encode_record(records[0]) + encode_records(records.skip(1))
    }
}

/// Reads a known quantity of records.
pub open spec fn parse_records(bytes: Seq<u8>, count: nat, rules: Rules) -> Parsed<Seq<Record>>
    decreases count,
{
    if count == 0 {
        Ok((Seq::empty(), bytes))
    } else {
        match parse_record(bytes, rules) {
            Err(detail) => Err(detail),
            Ok((record, rest)) => match parse_records(rest, (count - 1) as nat, rules) {
                Err(detail) => Err(detail),
                Ok((records, rest)) => Ok((seq![record] + records, rest)),
            },
        }
    }
}

/// A fixed-width number is read back from its encoding.
pub proof fn lemma_u64_parse(value: u64, rest: Seq<u8>)
    ensures
        parse_u64(be_bytes(value as nat, 8) + rest) == Ok::<(u64, Seq<u8>), Seq<char>>(
            (value, rest),
        ),
        be_bytes(value as nat, 8).len() == 8,
{
    lemma_capacities();
    lemma_be_round_trip(value as nat, 8);
    let bytes = be_bytes(value as nat, 8) + rest;
    assert(bytes.take(8) =~= be_bytes(value as nat, 8));
    assert(bytes.skip(8) =~= rest);
}

/// Bytes that parse as a fixed-width number are its encoding.
pub proof fn lemma_u64_canonical(bytes: Seq<u8>)
    requires
        parse_u64(bytes) is Ok,
    ensures
        bytes == be_bytes((parse_u64(bytes)->Ok_0).0 as nat, 8) + (parse_u64(bytes)->Ok_0).1,
{
    lemma_capacities();
    lemma_be_canonical(bytes.take(8));
    assert(bytes =~= bytes.take(8) + bytes.skip(8));
}

/// A signed number is read back from its encoding, and no other bytes give it.
pub proof fn lemma_i64_parse(value: i64, rest: Seq<u8>, bytes: Seq<u8>)
    ensures
        parse_i64(be_bytes(signed_bits(value), 8) + rest) == Ok::<(i64, Seq<u8>), Seq<char>>(
            (value, rest),
        ),
        be_bytes(signed_bits(value), 8).len() == 8,
        parse_i64(bytes) matches Ok((found, tail)) ==> bytes == be_bytes(signed_bits(found), 8)
            + tail,
{
    lemma_capacities();
    lemma_be_round_trip(signed_bits(value), 8);
    let encoded = be_bytes(signed_bits(value), 8) + rest;
    assert(encoded.take(8) =~= be_bytes(signed_bits(value), 8));
    assert(encoded.skip(8) =~= rest);
    if parse_i64(bytes) is Ok {
        lemma_be_canonical(bytes.take(8));
        assert(bytes =~= bytes.take(8) + bytes.skip(8));
    }
}

proof fn lemma_numbers_parse(numbers: Seq<u64>, rest: Seq<u8>)
    ensures
        parse_numbers(encode_numbers(numbers) + rest, numbers.len()) == Ok::<
            (Seq<u64>, Seq<u8>),
            Seq<char>,
        >((numbers, rest)),
        encode_numbers(numbers).len() == 8 * numbers.len(),
    decreases numbers.len(),
{
    let bytes = encode_numbers(numbers) + rest;
    if numbers.len() == 0 {
        assert(bytes =~= rest);
        assert(numbers =~= Seq::empty());
    } else {
        let tail = numbers.skip(1);
        lemma_numbers_parse(tail, rest);
        lemma_u64_parse(numbers[0], encode_numbers(tail) + rest);
        assert(bytes =~= be_bytes(numbers[0] as nat, 8) + (encode_numbers(tail) + rest));
        assert(seq![numbers[0]] + tail =~= numbers);
    }
}

proof fn lemma_numbers_canonical(bytes: Seq<u8>, count: nat)
    requires
        parse_numbers(bytes, count) is Ok,
    ensures
        ({
            let (numbers, rest) = parse_numbers(bytes, count)->Ok_0;
            &&& bytes == encode_numbers(numbers) + rest
            &&& numbers.len() == count
        }),
    decreases count,
{
    if count == 0 {
        assert(bytes =~= encode_numbers(Seq::empty()) + bytes);
    } else {
        lemma_u64_canonical(bytes);
        let (number, middle) = parse_u64(bytes)->Ok_0;
        lemma_numbers_canonical(middle, (count - 1) as nat);
        let (tail, rest) = parse_numbers(middle, (count - 1) as nat)->Ok_0;
        let numbers = seq![number] + tail;
        assert(numbers.skip(1) =~= tail);
        assert(bytes =~= encode_numbers(numbers) + rest);
    }
}

/// Counting enough bytes guarantees that the numbers can be read.
proof fn lemma_numbers_available(bytes: Seq<u8>, count: nat)
    requires
        count <= bytes.len() / 8,
    ensures
        parse_numbers(bytes, count) is Ok,
    decreases count,
{
    if count > 0 {
        lemma_numbers_available(bytes.skip(8), (count - 1) as nat);
    }
}

/// A record that the rules accept is read back from its encoding.
pub proof fn lemma_record_parse(record: Record, rules: Rules, rest: Seq<u8>)
    requires
        rules.accept(record),
        record.1.len() <= u64::MAX,
    ensures
        parse_record(encode_record(record) + rest, rules) == Ok::<(Record, Seq<u8>), Seq<char>>(
            (record, rest),
        ),
        encode_record(record).len() >= 17,
{
    let count = record.1.len();
    let numbers = encode_numbers(record.1) + rest;
    let counted = uleb128(count) + numbers;
    let bytes = encode_record(record) + rest;
    assert(bytes =~= be_bytes(record.0 as nat, 8) + counted);
    lemma_u64_parse(record.0, counted);
    law_uleb128_round_trip(count as u64, numbers, bytes);
    lemma_numbers_parse(record.1, rest);
    assert(numbers.len() == 8 * count + rest.len());
    assert(uleb128(count).len() >= 1);
}

/// Bytes that parse as a record are its encoding, and the rules accept it.
pub proof fn lemma_record_canonical(bytes: Seq<u8>, rules: Rules)
    requires
        parse_record(bytes, rules) is Ok,
    ensures
        ({
            let (record, rest) = parse_record(bytes, rules)->Ok_0;
            &&& bytes == encode_record(record) + rest
            &&& rules.accept(record)
            &&& record.1.len() <= u64::MAX
        }),
{
    lemma_u64_canonical(bytes);
    let (head, counted) = parse_u64(bytes)->Ok_0;
    law_uleb128_round_trip(0, counted, counted);
    let (count, numbered) = parse_uleb128(counted)->Ok_0;
    lemma_numbers_canonical(numbered, count);
    let (numbers, rest) = parse_numbers(numbered, count)->Ok_0;
    assert(bytes =~= encode_record((head, numbers)) + rest);
}

/// Records that the rules accept are read back from their encodings.
pub proof fn lemma_records_parse(records: Seq<Record>, rules: Rules, rest: Seq<u8>)
    requires
        forall|i: int|
            0 <= i < records.len() ==> rules.accept(#[trigger] records[i]) && records[i].1.len()
                <= u64::MAX,
    ensures
        parse_records(encode_records(records) + rest, records.len(), rules) == Ok::<
            (Seq<Record>, Seq<u8>),
            Seq<char>,
        >((records, rest)),
        encode_records(records).len() >= 17 * records.len(),
    decreases records.len(),
{
    let bytes = encode_records(records) + rest;
    if records.len() == 0 {
        assert(bytes =~= rest);
        assert(records =~= Seq::empty());
    } else {
        let tail = records.skip(1);
        assert forall|i: int| 0 <= i < tail.len() implies rules.accept(#[trigger] tail[i])
            && tail[i].1.len() <= u64::MAX by {
            assert(tail[i] == records[i + 1]);
        }
        lemma_records_parse(tail, rules, rest);
        assert(rules.accept(records[0]));
        lemma_record_parse(records[0], rules, encode_records(tail) + rest);
        assert(bytes =~= encode_record(records[0]) + (encode_records(tail) + rest));
        assert(seq![records[0]] + tail =~= records);
    }
}

/// Bytes that parse as records are their encodings, and the rules accept them.
pub proof fn lemma_records_canonical(bytes: Seq<u8>, count: nat, rules: Rules)
    requires
        parse_records(bytes, count, rules) is Ok,
    ensures
        ({
            let (records, rest) = parse_records(bytes, count, rules)->Ok_0;
            &&& bytes == encode_records(records) + rest
            &&& records.len() == count
            &&& forall|i: int|
                0 <= i < records.len() ==> rules.accept(#[trigger] records[i])
                    && records[i].1.len() <= u64::MAX
        }),
    decreases count,
{
    if count == 0 {
        assert(bytes =~= encode_records(Seq::empty()) + bytes);
    } else {
        lemma_record_canonical(bytes, rules);
        let (record, middle) = parse_record(bytes, rules)->Ok_0;
        lemma_records_canonical(middle, (count - 1) as nat, rules);
        let (tail, rest) = parse_records(middle, (count - 1) as nat, rules)->Ok_0;
        let records = seq![record] + tail;
        assert(records.skip(1) =~= tail);
        assert(bytes =~= encode_records(records) + rest);
        assert forall|i: int| 0 <= i < records.len() implies rules.accept(#[trigger] records[i])
            && records[i].1.len() <= u64::MAX by {
            if i > 0 {
                assert(records[i] == tail[i - 1]);
            }
        }
    }
}

/// Returns the canonical bytes of a memory identifier.
pub fn encode_memory_id(memory_id: MemoryId) -> (bytes: [u8; 16])
    ensures
        bytes@ == be_bytes(memory_id@, 16),
{
    memory_id.to_be_bytes()
}

/// Reads a memory identifier, rejecting any other width and zero.
pub fn decode_memory_id(bytes: &[u8]) -> (memory_id: Option<MemoryId>)
    ensures
        memory_id is Some <==> bytes@.len() == MEMORY_ID_BYTES && be_value(bytes@) != 0,
        memory_id matches Some(id) ==> id@ == be_value(bytes@),
{
    if bytes.len() != MEMORY_ID_BYTES {
        return None;
    }
    match MemoryId::new(crate::bytes::u128_from_be(bytes)) {
        Ok(id) => Some(id),
        Err(_) => None,
    }
}

/// Returns the canonical bytes of an unsigned number.
pub fn encode_u64(value: u64) -> (bytes: [u8; 8])
    ensures
        bytes@ == be_bytes(value as nat, 8),
{
    u64_to_be(value)
}

/// Reads an unsigned number, rejecting any other width.
pub fn decode_u64(bytes: &[u8]) -> (value: Option<u64>)
    ensures
        value is Some <==> bytes@.len() == U64_BYTES,
        value matches Some(value) ==> value == be_value(bytes@),
{
    if bytes.len() != U64_BYTES {
        return None;
    }
    Some(u64_from_be(bytes))
}

/// An unsigned number is read back from its bytes, its bytes are the only ones
/// that give it, and bytes are ordered as their numbers are.
pub proof fn law_u64_encoding(value: u64, other: u64, bytes: Seq<u8>)
    ensures
        be_value(be_bytes(value as nat, 8)) == value,
        be_bytes(value as nat, 8).len() == 8,
        bytes.len() == 8 && be_value(bytes) == value ==> bytes == be_bytes(value as nat, 8),
        value < other ==> crate::order::lexically_less(
            crate::bytes::byte_word(be_bytes(value as nat, 8)),
            crate::bytes::byte_word(be_bytes(other as nat, 8)),
        ),
{
    lemma_capacities();
    lemma_be_round_trip(value as nat, 8);
    lemma_be_canonical(bytes);
    if value < other {
        crate::bytes::lemma_be_order(value as nat, other as nat, 8);
    }
}

/// Appends bytes to an encoding.
pub fn push_bytes(encoded: &mut Vec<u8>, bytes: &[u8])
    ensures
        final(encoded)@ == old(encoded)@ + bytes@,
{
    encoded.extend_from_slice(bytes);
    assert(encoded@ =~= old(encoded)@ + bytes@);
}

/// Appends a fixed-width unsigned number.
pub fn push_u64(encoded: &mut Vec<u8>, value: u64)
    ensures
        final(encoded)@ == old(encoded)@ + be_bytes(value as nat, 8),
{
    let bytes: [u8; 8] = u64_to_be(value);
    push_bytes(encoded, bytes.as_slice());
}

/// Appends a fixed-width signed number.
pub fn push_i64(encoded: &mut Vec<u8>, value: i64)
    ensures
        final(encoded)@ == old(encoded)@ + be_bytes(signed_bits(value), 8),
{
    let bits: u64 = if value >= 0 {
        value as u64
    } else {
        ((value as i128) + 0x1_0000_0000_0000_0000) as u64
    };
    push_u64(encoded, bits);
}

/// Appends the shortest encoding of a count.
pub fn encode_uleb128(value: u64, encoded: &mut Vec<u8>)
    ensures
        final(encoded)@ == old(encoded)@ + uleb128(value as nat),
{
    let mut rest: u64 = value;
    let ghost start = encoded@;
    assert(start + uleb128(value as nat) =~= encoded@ + uleb128(rest as nat));
    while rest >= 128
        invariant
            start == old(encoded)@,
            start + uleb128(value as nat) == encoded@ + uleb128(rest as nat),
        decreases rest,
    {
        let ghost before = encoded@;
        let byte: u8 = 128 + (rest % 128) as u8;
        encoded.push(byte);
        assert(before + uleb128(rest as nat) =~= encoded@ + uleb128((rest / 128) as nat));
        rest = rest / 128;
    }
    let ghost before = encoded@;
    encoded.push(rest as u8);
    assert(before + uleb128(rest as nat) =~= encoded@);
}

/// Appends the count of a collection.
pub fn encode_count(count: usize, encoded: &mut Vec<u8>)
    ensures
        final(encoded)@ == old(encoded)@ + uleb128(count as nat),
{
    encode_uleb128(count as u64, encoded);
}

/// The parse result that an executable reader owes, and the bytes it leaves.
pub open spec fn reads<T>(
    parsed: Parsed<T>,
    result: Result<T, EpisodeDecodeError>,
    rest: Seq<u8>,
) -> bool {
    match parsed {
        Ok((value, tail)) => result == Ok::<T, EpisodeDecodeError>(value) && rest == tail,
        Err(detail) => result is Err && result->Err_0@ == detail,
    }
}

/// Whether a count of items can stand in the bytes that remain.
pub fn count_fits_remaining(count: u64, item_bytes: usize, remaining_bytes: usize) -> (fits: bool)
    requires
        item_bytes > 0,
    ensures
        fits == (count <= remaining_bytes as nat / item_bytes as nat),
{
    count <= (remaining_bytes / item_bytes) as u64
}

/// A reader of the bytes of one payload.
#[derive(Debug)]
pub struct Decoder<'a> {
    remaining: &'a [u8],
}

impl<'a> View for Decoder<'a> {
    type V = Seq<u8>;

    closed spec fn view(&self) -> Seq<u8> {
        self.remaining@
    }
}

impl<'a> Decoder<'a> {
    /// Starts at the first byte.
    pub fn new(bytes: &'a [u8]) -> (decoder: Decoder<'a>)
        ensures
            decoder@ == bytes@,
    {
        Decoder { remaining: bytes }
    }

    /// Returns how many bytes remain.
    pub fn remaining_len(&self) -> (len: usize)
        ensures
            len == self@.len(),
    {
        self.remaining.len()
    }

    /// Takes the next bytes, or fails with the given detail.
    pub fn take(&mut self, count: usize, detail: &'static str) -> (result: Result<
        &'a [u8],
        EpisodeDecodeError,
    >)
        ensures
            result is Ok <==> count <= old(self)@.len(),
            result matches Ok(bytes) ==> bytes@ == old(self)@.take(count as int) && final(self)@
                == old(self)@.skip(count as int),
            result matches Err(error) ==> error@ == detail@ && final(self)@ == old(self)@,
    {
        let whole: &'a [u8] = self.remaining;
        if whole.len() < count {
            return Err(EpisodeDecodeError::new(detail));
        }
        let (value, remaining) = whole.split_at(count);
        assert(value@ =~= whole@.take(count as int));
        assert(remaining@ =~= whole@.skip(count as int));
        self.remaining = remaining;
        Ok(value)
    }

    /// Reads one byte, or fails with the given detail.
    pub fn read_byte(&mut self, detail: &'static str) -> (result: Result<u8, EpisodeDecodeError>)
        ensures
            result is Ok <==> old(self)@.len() > 0,
            result matches Ok(byte) ==> byte == old(self)@[0] && final(self)@ == old(self)@.skip(1),
            result matches Err(error) ==> error@ == detail@,
    {
        match self.take(1, detail) {
            Ok(bytes) => Ok(bytes[0]),
            Err(error) => Err(error),
        }
    }

    /// Reads a fixed-width signed number.
    pub fn read_i64(&mut self) -> (result: Result<i64, EpisodeDecodeError>)
        ensures
            reads(parse_i64(old(self)@), result, final(self)@),
    {
        match self.take(U64_BYTES, TRUNCATED_EPISODE) {
            Ok(bytes) => {
                let bits: u64 = u64_from_be(bytes);
                if bits < 0x8000_0000_0000_0000 {
                    Ok(bits as i64)
                } else {
                    Ok((bits as i128 - 0x1_0000_0000_0000_0000) as i64)
                }
            },
            Err(error) => Err(error),
        }
    }

    /// Reads a fixed-width unsigned number.
    pub fn read_u64(&mut self) -> (result: Result<u64, EpisodeDecodeError>)
        ensures
            reads(parse_u64(old(self)@), result, final(self)@),
    {
        match self.take(U64_BYTES, TRUNCATED_EPISODE) {
            Ok(bytes) => Ok(u64_from_be(bytes)),
            Err(error) => Err(error),
        }
    }

    /// Reads a canonical count.
    pub fn read_uleb128(&mut self) -> (result: Result<u64, EpisodeDecodeError>)
        ensures
            match parse_uleb128(old(self)@) {
                Ok((count, rest)) => result is Ok && result->Ok_0 == count && final(self)@ == rest,
                Err(detail) => result is Err && result->Err_0@ == detail,
            },
    {
        let ghost start = self@;
        let mut value: u64 = 0;
        let mut scale: u64 = 1;
        let mut index: u8 = 0;
        proof {
            lemma_uleb128_bound(0);
        }
        while index < 10
            invariant
                index <= 10,
                index <= 9 ==> {
                    &&& scale * uleb128_bound(index as nat) == 0x1_0000_0000_0000_0000
                    &&& value < scale
                    &&& match parse_uleb128_at(self@, index as nat) {
                        Ok((high, rest)) => parse_uleb128(start) == Ok::<
                            (nat, Seq<u8>),
                            Seq<char>,
                        >(((value + scale * high) as nat, rest)),
                        Err(detail) => parse_uleb128(start) == Err::<(nat, Seq<u8>), Seq<char>>(
                            detail,
                        ),
                    }
                },
                index == 10 ==> parse_uleb128(start) == Err::<(nat, Seq<u8>), Seq<char>>(
                    OVERFLOWING_COUNT@,
                ),
                start == old(self)@,
            decreases 10 - index,
        {
            let ghost before = self@;
            proof {
                lemma_uleb128_bound(index as nat);
            }
            let byte: u8 = match self.read_byte(TRUNCATED_COUNT) {
                Ok(byte) => byte,
                Err(error) => {
                    return Err(error);
                },
            };
            let payload: u8 = byte % 128;
            if index == 9 && payload > 1 {
                return Err(EpisodeDecodeError::new(OVERFLOWING_COUNT));
            }
            let ghost old_scale = scale;
            let ghost old_value = value;
            let ghost bound = uleb128_bound(index as nat);
            proof {
                if index < 9 {
                    let next = uleb128_bound((index + 1) as nat);
                    assert(scale * (128 * next) == 0x1_0000_0000_0000_0000);
                    assert((scale * 128) * next == 0x1_0000_0000_0000_0000) by (nonlinear_arith)
                        requires
                            scale * (128 * next) == 0x1_0000_0000_0000_0000,
                    ;
                    lemma_uleb128_bound((index + 1) as nat);
                    assert(scale * 128 <= 0x8000_0000_0000_0000) by (nonlinear_arith)
                        requires
                            (scale * 128) * next == 0x1_0000_0000_0000_0000,
                            next >= 2,
                    ;
                    assert(payload * scale <= 127 * scale) by (nonlinear_arith)
                        requires
                            payload <= 127,
                    ;
                } else {
                    assert(scale * 2 == 0x1_0000_0000_0000_0000);
                    assert(payload * scale <= scale) by (nonlinear_arith)
                        requires
                            payload <= 1,
                    ;
                }
            }
            value = value + payload as u64 * scale;
            proof {
                assert(payload * scale == scale * payload) by (nonlinear_arith);
            }
            if byte < 128 {
                if index != 0 && payload == 0 {
                    return Err(EpisodeDecodeError::new(NON_CANONICAL_COUNT));
                }
                return Ok(value);
            }
            if index < 9 {
                scale = scale * 128;
                proof {
                    match parse_uleb128_at(self@, (index + 1) as nat) {
                        Ok((high, rest)) => {
                            assert(old_scale * (payload + 128 * high) == old_scale * payload + (
                            old_scale * 128) * high) by (nonlinear_arith);
                        },
                        Err(_) => {},
                    }
                }
            }
            index = index + 1;
        }
        Err(EpisodeDecodeError::new(OVERFLOWING_COUNT))
    }

    /// Reads a known quantity of fixed-width numbers that are known to remain.
    fn read_numbers(&mut self, count: usize) -> (numbers: Vec<u64>)
        requires
            count <= old(self)@.len() / 8,
        ensures
            parse_numbers(old(self)@, count as nat) == Ok::<(Seq<u64>, Seq<u8>), Seq<char>>(
                (numbers@, final(self)@),
            ),
    {
        let mut numbers: Vec<u64> = Vec::new();
        let mut index: usize = 0;
        let ghost start = self@;
        proof {
            lemma_numbers_available(start, count as nat);
            let (all, rest) = parse_numbers(start, count as nat)->Ok_0;
            assert(numbers@ + all =~= all);
        }
        while index < count
            invariant
                index <= count,
                start == old(self)@,
                count - index <= self@.len() / 8,
                parse_numbers(self@, (count - index) as nat) is Ok,
                ({
                    let (tail, rest) = parse_numbers(self@, (count - index) as nat)->Ok_0;
                    parse_numbers(start, count as nat) == Ok::<(Seq<u64>, Seq<u8>), Seq<char>>(
                        (numbers@ + tail, rest),
                    )
                }),
            decreases count - index,
        {
            let ghost before = self@;
            let ghost earlier = numbers@;
            let number: u64 = self.read_u64().unwrap();
            numbers.push(number);
            proof {
                let (tail, rest) = parse_numbers(self@, (count - index - 1) as nat)->Ok_0;
                assert((count - index - 1) as nat == ((count - index) as nat - 1) as nat);
                assert(earlier + (seq![number] + tail) =~= numbers@ + tail);
            }
            index = index + 1;
        }
        proof {
            assert(numbers@ + Seq::<u64>::empty() =~= numbers@);
        }
        numbers
    }

    /// Reads one record under the given rules.
    pub fn read_record(
        &mut self,
        empty: &'static str,
        exceeds: &'static str,
        unordered: Option<&'static str>,
    ) -> (result: Result<(u64, Vec<u64>), EpisodeDecodeError>)
        ensures
            match parse_record(old(self)@, rules_of(empty, exceeds, unordered)) {
                Ok(((head, numbers), rest)) => result is Ok && (result->Ok_0).0 == head && (
                result->Ok_0).1@ == numbers && final(self)@ == rest,
                Err(detail) => result is Err && result->Err_0@ == detail,
            },
    {
        let head: u64 = match self.read_u64() {
            Ok(head) => head,
            Err(error) => {
                return Err(error);
            },
        };
        let count: u64 = match self.read_uleb128() {
            Ok(count) => count,
            Err(error) => {
                return Err(error);
            },
        };
        if count == 0 {
            return Err(EpisodeDecodeError::new(empty));
        }
        if !count_fits_remaining(count, U64_BYTES, self.remaining_len()) {
            return Err(EpisodeDecodeError::new(exceeds));
        }
        let numbers: Vec<u64> = self.read_numbers(count as usize);
        if let Some(detail) = unordered {
            if !is_increasing(&numbers) {
                return Err(EpisodeDecodeError::new(detail));
            }
        }
        Ok((head, numbers))
    }
}

/// The rules that executable details stand for.
pub open spec fn rules_of(empty: &str, exceeds: &str, unordered: Option<&str>) -> Rules {
    Rules {
        empty: empty@,
        exceeds: exceeds@,
        unordered: match unordered {
            Some(detail) => Some(detail@),
            None => None,
        },
    }
}

/// Whether numbers strictly increase.
pub fn is_increasing(numbers: &Vec<u64>) -> (ordered: bool)
    ensures
        ordered == increasing(numbers@),
{
    let mut index: usize = 1;
    while index < numbers.len()
        invariant
            1 <= index,
            index <= numbers@.len() || numbers@.len() == 0,
            forall|i: int, j: int|
                #![trigger numbers@[i], numbers@[j]]
                0 <= i < j < index && j < numbers@.len() ==> numbers@[i] < numbers@[j],
        decreases numbers@.len() - index,
    {
        if numbers[index - 1] >= numbers[index] {
            assert(!(numbers@[index - 1] < numbers@[index as int]));
            return false;
        }
        assert forall|i: int, j: int|
            #![trigger numbers@[i], numbers@[j]]
            0 <= i < j < index + 1 && j < numbers@.len() implies numbers@[i] < numbers@[j] by {
            if j == index && i < index - 1 {
                assert(numbers@[i] < numbers@[index - 1]);
            }
        }
        index = index + 1;
    }
    true
}

} // verus!
