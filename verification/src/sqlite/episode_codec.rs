//! Canonical payloads of attribute episodes.

use vstd::prelude::*;

use crate::attribute::{
    canonical_group, canonical_groups, groups, law_canonical_groups_are_unique, numbers, Attribute,
    EpisodeAtom, EpisodeDraft,
};
use crate::bytes::be_bytes;
use crate::model::{SymbolId, TimestampMs};
use crate::order::lemma_increasing_unique;
use crate::sqlite::wire::{
    count_fits_remaining, encode_count, encode_numbers, encode_record, encode_records,
    law_uleb128_round_trip, lemma_i64_parse, lemma_record_canonical, lemma_records_canonical,
    lemma_records_parse, parse_i64, parse_record, parse_records, parse_uleb128, push_i64, push_u64,
    rules_of, signed_bits, uleb128, Decoder, EpisodeDecodeError, Record, Rules,
};

verus! {

/// Smallest encoding of an attribute.
pub const MIN_ATTRIBUTE_BYTES: usize = 17;

/// Smallest payload of an episode.
pub const MIN_EPISODE_PAYLOAD_BYTES: usize = 26;

/// Detail of an episode without attributes.
pub const EMPTY_ATTRIBUTES: &'static str = "episode has no attributes";

/// Detail of an attribute count beyond the bytes that follow.
pub const ATTRIBUTE_COUNT_EXCEEDS_REST: &'static str =
    "episode attribute count exceeds remaining bytes";

/// Detail of an attribute without values.
pub const EMPTY_VALUES: &'static str = "attribute has no values";

/// Detail of a value count beyond the bytes that follow.
pub const VALUE_COUNT_EXCEEDS_REST: &'static str = "attribute value count exceeds remaining bytes";

/// Detail of keys that do not strictly increase.
pub const NON_CANONICAL_ATTRIBUTE_KEYS: &'static str =
    "attribute keys are not strictly sorted and unique";

/// Detail of values that do not strictly increase.
pub const NON_CANONICAL_ATTRIBUTE_VALUES: &'static str =
    "attribute values are not strictly sorted and unique";

/// Detail of bytes after the last attribute.
pub const TRAILING_BYTES: &'static str = "episode blob has trailing bytes";

/// Attributes need values in increasing order.
pub open spec fn attribute_rules() -> Rules {
    rules_of(EMPTY_VALUES, VALUE_COUNT_EXCEEDS_REST, Some(NON_CANONICAL_ATTRIBUTE_VALUES))
}

/// Keys strictly increase.
pub open spec fn increasing_heads(records: Seq<Record>) -> bool {
    forall|i: int, j: int|
        #![trigger records[i], records[j]]
        0 <= i < j < records.len() ==> records[i].0 < records[j].0
}

/// Canonical attributes whose counts fit the encoding.
pub open spec fn storable_groups(groups: Seq<Record>) -> bool {
    &&& 0 < groups.len() <= u64::MAX
    &&& canonical_groups(groups)
    &&& forall|i: int| 0 <= i < groups.len() ==> (#[trigger] groups[i]).1.len() <= u64::MAX
}

/// The payload of a timestamp and attributes.
pub open spec fn episode_bytes(timestamp: TimestampMs, groups: Seq<Record>) -> Seq<u8> {
    be_bytes(signed_bits(timestamp.0), 8) + (uleb128(groups.len()) + encode_records(groups))
}

/// Reads a payload.
pub open spec fn parse_episode(bytes: Seq<u8>) -> Result<(TimestampMs, Seq<Record>), Seq<char>> {
    match parse_i64(bytes) {
        Err(detail) => Err(detail),
        Ok((timestamp, rest)) => match parse_uleb128(rest) {
            Err(detail) => Err(detail),
            Ok((count, rest)) => if count == 0 {
                Err(EMPTY_ATTRIBUTES@)
            } else if count > rest.len() / MIN_ATTRIBUTE_BYTES as nat {
                Err(ATTRIBUTE_COUNT_EXCEEDS_REST@)
            } else {
                match parse_records(rest, count, attribute_rules()) {
                    Err(detail) => Err(detail),
                    Ok((records, rest)) => if !increasing_heads(records) {
                        Err(NON_CANONICAL_ATTRIBUTE_KEYS@)
                    } else if rest.len() != 0 {
                        Err(TRAILING_BYTES@)
                    } else {
                        Ok((TimestampMs(timestamp), records))
                    },
                }
            },
        },
    }
}

proof fn lemma_accepted_groups(records: Seq<Record>)
    requires
        forall|i: int| 0 <= i < records.len() ==> attribute_rules().accept(#[trigger] records[i]),
    ensures
        canonical_groups(records) <==> increasing_heads(records),
{
    assert forall|i: int| 0 <= i < records.len() implies canonical_group(#[trigger] records[i]) by {
        assert(attribute_rules().accept(records[i]));
    }
}

/// A canonical episode is read back from its payload.
pub proof fn law_episode_payload_round_trip(timestamp: TimestampMs, groups: Seq<Record>)
    requires
        storable_groups(groups),
    ensures
        parse_episode(episode_bytes(timestamp, groups)) == Ok::<
            (TimestampMs, Seq<Record>),
            Seq<char>,
        >((timestamp, groups)),
        episode_bytes(timestamp, groups).len() >= MIN_EPISODE_PAYLOAD_BYTES,
{
    let listed = encode_records(groups);
    let counted = uleb128(groups.len()) + listed;
    let bytes = episode_bytes(timestamp, groups);
    lemma_i64_parse(timestamp.0, counted, bytes);
    law_uleb128_round_trip(groups.len() as u64, listed, bytes);
    assert forall|i: int| 0 <= i < groups.len() implies attribute_rules().accept(
        #[trigger] groups[i],
    ) && groups[i].1.len() <= u64::MAX by {
        assert(canonical_group(groups[i]));
    }
    lemma_records_parse(groups, attribute_rules(), Seq::empty());
    assert(listed + Seq::<u8>::empty() =~= listed);
    lemma_accepted_groups(groups);
    assert(uleb128(groups.len()).len() >= 1);
}

/// Only the payload of an episode is read as that episode.
pub proof fn law_episode_payload_is_canonical(bytes: Seq<u8>)
    requires
        parse_episode(bytes) is Ok,
    ensures
        storable_groups((parse_episode(bytes)->Ok_0).1),
        bytes == episode_bytes((parse_episode(bytes)->Ok_0).0, (parse_episode(bytes)->Ok_0).1),
{
    lemma_i64_parse(0, bytes, bytes);
    let (timestamp, counted) = parse_i64(bytes)->Ok_0;
    law_uleb128_round_trip(0, counted, counted);
    let (count, listed) = parse_uleb128(counted)->Ok_0;
    lemma_records_canonical(listed, count, attribute_rules());
    let (records, end) = parse_records(listed, count, attribute_rules())->Ok_0;
    lemma_accepted_groups(records);
    assert(end =~= Seq::empty());
    assert(encode_records(records) + end =~= encode_records(records));
}

/// Appends the encoding of an attribute.
pub fn encode_attribute(attribute: &Attribute, encoded: &mut Vec<u8>)
    ensures
        final(encoded)@ == old(encoded)@ + encode_record(attribute@),
{
    let ghost record = attribute@;
    push_u64(encoded, attribute.key().0);
    let values = attribute.values();
    assert(values@.len() == numbers(values@).len());
    encode_count(values.len(), encoded);
    let ghost start = encoded@;
    let ghost all = record.1;
    let mut index: usize = 0;
    assert(all.skip(0) =~= all);
    while index < values.len()
        invariant
            index <= values@.len(),
            all == numbers(values@),
            start + encode_numbers(all) == encoded@ + encode_numbers(all.skip(index as int)),
        decreases values@.len() - index,
    {
        let ghost before = encoded@;
        push_u64(encoded, values[index].0);
        proof {
            let tail = all.skip(index as int);
            assert(tail[0] == values@[index as int].0);
            assert(tail.skip(1) =~= all.skip(index + 1));
            assert(before + encode_numbers(tail) =~= encoded@ + encode_numbers(
                all.skip(index + 1),
            ));
        }
        index = index + 1;
    }
    proof {
        assert(all.skip(index as int) =~= Seq::empty());
        assert(encoded@ =~= start + encode_numbers(all));
        assert(encoded@ =~= old(encoded)@ + encode_record(record));
    }
}

/// Replaces a buffer with the payload of an episode.
pub fn encode_episode(episode: &EpisodeAtom, encoded: &mut Vec<u8>)
    ensures
        final(encoded)@ == episode_bytes(episode.content().timestamp, episode.groups()),
{
    encoded.clear();
    push_i64(encoded, episode.timestamp().0);
    let ghost stamped = be_bytes(signed_bits(episode.content().timestamp.0), 8);
    assert(encoded@ =~= stamped);
    let attributes = episode.attributes();
    let ghost records = groups(attributes@);
    assert(attributes@.len() == records.len());
    encode_count(attributes.len(), encoded);
    let ghost start = encoded@;
    let mut index: usize = 0;
    assert(records.skip(0) =~= records);
    while index < attributes.len()
        invariant
            index <= attributes@.len(),
            records == groups(attributes@),
            start + encode_records(records) == encoded@ + encode_records(
                records.skip(index as int),
            ),
        decreases attributes@.len() - index,
    {
        let ghost before = encoded@;
        encode_attribute(&attributes[index], encoded);
        proof {
            let tail = records.skip(index as int);
            assert(tail[0] == attributes@[index as int]@);
            assert(tail.skip(1) =~= records.skip(index + 1));
            assert(before + encode_records(tail) =~= encoded@ + encode_records(
                records.skip(index + 1),
            ));
        }
        index = index + 1;
    }
    proof {
        assert(records.skip(index as int) =~= Seq::empty());
        assert(encoded@ =~= start + encode_records(records));
        assert(encoded@ =~= stamped + (uleb128(records.len()) + encode_records(records)));
    }
}

/// Reads one attribute.
pub fn read_attribute(decoder: &mut Decoder) -> (result: Result<Attribute, EpisodeDecodeError>)
    ensures
        match parse_record(old(decoder)@, attribute_rules()) {
            Ok((record, rest)) => result is Ok && result->Ok_0@ == record && final(decoder)@ == rest,
            Err(detail) => result is Err && result->Err_0@ == detail,
        },
{
    let ghost bytes = decoder@;
    match decoder.read_record(
        EMPTY_VALUES,
        VALUE_COUNT_EXCEEDS_REST,
        Some(NON_CANONICAL_ATTRIBUTE_VALUES),
    ) {
        Err(error) => Err(error),
        Ok((head, listed)) => {
            proof {
                lemma_record_canonical(bytes, attribute_rules());
            }
            let mut values: Vec<SymbolId> = Vec::new();
            let mut index: usize = 0;
            while index < listed.len()
                invariant
                    index <= listed@.len(),
                    values@.len() == index,
                    forall|i: int| 0 <= i < index ==> (#[trigger] values@[i]).0 == listed@[i],
                decreases listed@.len() - index,
            {
                values.push(SymbolId::new(listed[index]));
                index = index + 1;
            }
            assert(numbers(values@) =~= listed@);
            match Attribute::new(SymbolId::new(head), values) {
                Ok(attribute) => {
                    proof {
                        lemma_increasing_unique(attribute@.1, listed@);
                    }
                    Ok(attribute)
                },
                Err(_) => Err(EpisodeDecodeError::new(EMPTY_VALUES)),
            }
        },
    }
}

fn read_attributes(decoder: &mut Decoder, count: usize) -> (result: Result<
    Vec<Attribute>,
    EpisodeDecodeError,
>)
    ensures
        match parse_records(old(decoder)@, count as nat, attribute_rules()) {
            Ok((records, rest)) => result is Ok && groups(result->Ok_0@) == records
                && final(decoder)@ == rest,
            Err(detail) => result is Err && result->Err_0@ == detail,
        },
{
    let ghost start = decoder@;
    let mut attributes: Vec<Attribute> = Vec::new();
    let mut index: usize = 0;
    proof {
        match parse_records(start, count as nat, attribute_rules()) {
            Ok((records, _)) => {
                assert(groups(attributes@) + records =~= records);
            },
            Err(_) => {},
        }
    }
    while index < count
        invariant
            index <= count,
            start == old(decoder)@,
            match parse_records(decoder@, (count - index) as nat, attribute_rules()) {
                Ok((records, rest)) => parse_records(start, count as nat, attribute_rules()) == Ok::<
                    (Seq<Record>, Seq<u8>),
                    Seq<char>,
                >((groups(attributes@) + records, rest)),
                Err(detail) => parse_records(start, count as nat, attribute_rules()) == Err::<
                    (Seq<Record>, Seq<u8>),
                    Seq<char>,
                >(detail),
            },
        decreases count - index,
    {
        let ghost before = decoder@;
        let ghost earlier = groups(attributes@);
        match read_attribute(decoder) {
            Err(error) => {
                return Err(error);
            },
            Ok(attribute) => {
                attributes.push(attribute);
                proof {
                    let (record, _) = parse_record(before, attribute_rules())->Ok_0;
                    let longer = groups(attributes@);
                    assert(longer =~= earlier.push(record));
                    assert((count - index - 1) as nat == ((count - index) as nat - 1) as nat);
                    match parse_records(decoder@, (count - index - 1) as nat, attribute_rules()) {
                        Ok((records, _)) => {
                            assert(earlier + (seq![record] + records) =~= longer + records);
                        },
                        Err(_) => {},
                    }
                }
            },
        }
        index = index + 1;
    }
    proof {
        assert(groups(attributes@) + Seq::<Record>::empty() =~= groups(attributes@));
    }
    Ok(attributes)
}

/// Whether keys strictly increase.
fn has_increasing_keys(attributes: &Vec<Attribute>) -> (ordered: bool)
    ensures
        ordered == increasing_heads(groups(attributes@)),
{
    let ghost all = groups(attributes@);
    let mut index: usize = 1;
    while index < attributes.len()
        invariant
            1 <= index,
            index <= attributes@.len() || attributes@.len() == 0,
            all == groups(attributes@),
            forall|i: int, j: int|
                #![trigger all[i], all[j]]
                0 <= i < j < index && j < all.len() ==> all[i].0 < all[j].0,
        decreases attributes@.len() - index,
    {
        let first: u64 = attributes[index - 1].key().0;
        let second: u64 = attributes[index].key().0;
        assert(all[index - 1].0 == first && all[index as int].0 == second);
        if first >= second {
            return false;
        }
        assert forall|i: int, j: int|
            #![trigger all[i], all[j]]
            0 <= i < j < index + 1 && j < all.len() implies all[i].0 < all[j].0 by {
            if j == index && i < index - 1 {
                assert(all[i].0 < all[index - 1].0);
            }
        }
        index = index + 1;
    }
    true
}

/// Reads a payload.
pub fn decode_episode(bytes: &[u8]) -> (result: Result<EpisodeDraft, EpisodeDecodeError>)
    ensures
        match parse_episode(bytes@) {
            Ok((timestamp, groups)) => result is Ok && result->Ok_0.content().timestamp == timestamp
                && result->Ok_0.groups() == groups,
            Err(detail) => result is Err && result->Err_0@ == detail,
        },
{
    let mut decoder = Decoder::new(bytes);
    let timestamp: i64 = match decoder.read_i64() {
        Ok(value) => value,
        Err(error) => {
            return Err(error);
        },
    };
    let count: u64 = match decoder.read_uleb128() {
        Ok(value) => value,
        Err(error) => {
            return Err(error);
        },
    };
    if count == 0 {
        return Err(EpisodeDecodeError::new(EMPTY_ATTRIBUTES));
    }
    if !count_fits_remaining(count, MIN_ATTRIBUTE_BYTES, decoder.remaining_len()) {
        return Err(EpisodeDecodeError::new(ATTRIBUTE_COUNT_EXCEEDS_REST));
    }
    let ghost listed = decoder@;
    let attributes = match read_attributes(&mut decoder, count as usize) {
        Ok(attributes) => attributes,
        Err(error) => {
            return Err(error);
        },
    };
    if !has_increasing_keys(&attributes) {
        return Err(EpisodeDecodeError::new(NON_CANONICAL_ATTRIBUTE_KEYS));
    }
    if decoder.remaining_len() != 0 {
        return Err(EpisodeDecodeError::new(TRAILING_BYTES));
    }
    let ghost records = groups(attributes@);
    proof {
        lemma_records_canonical(listed, count as nat, attribute_rules());
        lemma_accepted_groups(records);
        assert(attributes@.len() == records.len());
    }
    match EpisodeDraft::new(TimestampMs::new(timestamp), attributes) {
        Ok(draft) => {
            proof {
                law_canonical_groups_are_unique(draft.groups(), records);
            }
            Ok(draft)
        },
        Err(_) => Err(EpisodeDecodeError::new(EMPTY_ATTRIBUTES)),
    }
}

} // verus!
