//! Fixed-width big-endian numbers and little-endian 16-bit components.

use vstd::prelude::*;

use crate::order::{lexically_less, lexically_less_at};

verus! {

/// Number of values that `width` bytes can hold.
pub open spec fn capacity(width: nat) -> nat
    decreases width,
{
    if width == 0 {
        1
    } else {
        256 * capacity((width - 1) as nat)
    }
}

/// The number that bytes spell, most significant first.
pub open spec fn be_value(bytes: Seq<u8>) -> nat
    decreases bytes.len(),
{
    if bytes.len() == 0 {
        0
    } else {
        256 * be_value(bytes.drop_last()) + bytes.last() as nat
    }
}

/// The lowest `width` bytes of a number, most significant first.
pub open spec fn be_bytes(value: nat, width: nat) -> Seq<u8>
    decreases width,
{
    if width == 0 {
        Seq::empty()
    } else {
        be_bytes(value / 256, (width - 1) as nat).push((value % 256) as u8)
    }
}

/// Bytes as the integers that order them.
pub open spec fn byte_word(bytes: Seq<u8>) -> Seq<int> {
    bytes.map_values(|byte: u8| byte as int)
}

/// Encoding has exactly the requested width, and decoding gives the number back.
pub proof fn lemma_be_round_trip(value: nat, width: nat)
    ensures
        be_bytes(value, width).len() == width,
        value < capacity(width) ==> be_value(be_bytes(value, width)) == value,
    decreases width,
{
    if width > 0 {
        lemma_be_round_trip(value / 256, (width - 1) as nat);
        let bytes = be_bytes(value, width);
        assert(bytes.drop_last() =~= be_bytes(value / 256, (width - 1) as nat));
        assert(bytes.last() == (value % 256) as u8);
    }
}

/// Every byte sequence is the encoding of the number that it spells.
pub proof fn lemma_be_canonical(bytes: Seq<u8>)
    ensures
        be_value(bytes) < capacity(bytes.len()),
        be_bytes(be_value(bytes), bytes.len()) == bytes,
    decreases bytes.len(),
{
    if bytes.len() > 0 {
        lemma_be_canonical(bytes.drop_last());
        let value = be_value(bytes);
        assert(value / 256 == be_value(bytes.drop_last()));
        assert(value % 256 == bytes.last() as nat);
        assert(be_bytes(value, bytes.len()) =~= bytes.drop_last().push(bytes.last()));
        assert(bytes =~= bytes.drop_last().push(bytes.last()));
    } else {
        assert(be_bytes(0, 0) =~= bytes);
    }
}

/// Big-endian encodings of one width are ordered as their numbers are.
pub proof fn lemma_be_order(first: nat, second: nat, width: nat)
    requires
        first < capacity(width),
        second < capacity(width),
        first < second,
    ensures
        lexically_less(byte_word(be_bytes(first, width)), byte_word(be_bytes(second, width))),
    decreases width,
{
    lemma_be_round_trip(first, width);
    lemma_be_round_trip(second, width);
    let a = byte_word(be_bytes(first, width));
    let b = byte_word(be_bytes(second, width));
    let shorter = (width - 1) as nat;
    lemma_be_round_trip(first / 256, shorter);
    lemma_be_round_trip(second / 256, shorter);
    let a_high = byte_word(be_bytes(first / 256, shorter));
    let b_high = byte_word(be_bytes(second / 256, shorter));
    assert(a =~= a_high.push((first % 256) as u8 as int));
    assert(b =~= b_high.push((second % 256) as u8 as int));
    if first / 256 == second / 256 {
        assert(lexically_less_at(a, b, shorter as int));
    } else {
        lemma_be_order(first / 256, second / 256, shorter);
        let position = choose|position: int| lexically_less_at(a_high, b_high, position);
        assert(lexically_less_at(a, b, position));
    }
}

/// The eight-byte and sixteen-byte capacities in numbers.
pub proof fn lemma_capacities()
    ensures
        capacity(8) == 0x1_0000_0000_0000_0000,
        capacity(16) == 0x1_0000_0000_0000_0000 * 0x1_0000_0000_0000_0000,
{
    assert(capacity(4) == 0x1_0000_0000) by {
        reveal_with_fuel(capacity, 5);
    }
    assert(capacity(8) == 0x1_0000_0000_0000_0000) by {
        reveal_with_fuel(capacity, 5);
    }
    assert(capacity(12) == 0x1_0000_0000_0000_0000 * 0x1_0000_0000) by {
        reveal_with_fuel(capacity, 5);
    }
    assert(capacity(16) == 0x1_0000_0000_0000_0000 * 0x1_0000_0000_0000_0000) by {
        reveal_with_fuel(capacity, 5);
    }
}

/// Returns the eight big-endian bytes of a number.
pub fn u64_to_be(value: u64) -> (bytes: [u8; 8])
    ensures
        bytes@ == be_bytes(value as nat, 8),
{
    let b7: u8 = (value % 256) as u8;
    let v6: u64 = value / 256;
    let b6: u8 = (v6 % 256) as u8;
    let v5: u64 = v6 / 256;
    let b5: u8 = (v5 % 256) as u8;
    let v4: u64 = v5 / 256;
    let b4: u8 = (v4 % 256) as u8;
    let v3: u64 = v4 / 256;
    let b3: u8 = (v3 % 256) as u8;
    let v2: u64 = v3 / 256;
    let b2: u8 = (v2 % 256) as u8;
    let v1: u64 = v2 / 256;
    let b1: u8 = (v1 % 256) as u8;
    let v0: u64 = v1 / 256;
    let b0: u8 = (v0 % 256) as u8;
    let bytes: [u8; 8] = [b0, b1, b2, b3, b4, b5, b6, b7];
    proof {
        reveal_with_fuel(be_bytes, 9);
        assert(bytes@ =~= be_bytes(value as nat, 8));
    }
    bytes
}

/// Returns the number that eight big-endian bytes spell.
pub fn u64_from_be(bytes: &[u8]) -> (value: u64)
    requires
        bytes@.len() == 8,
    ensures
        value == be_value(bytes@),
{
    let mut value: u64 = 0;
    let mut index: usize = 0;
    proof {
        lemma_capacities();
    }
    while index < 8
        invariant
            index <= 8,
            bytes@.len() == 8,
            value == be_value(bytes@.take(index as int)),
            capacity(8) == 0x1_0000_0000_0000_0000,
        decreases 8 - index,
    {
        let ghost taken = bytes@.take(index + 1);
        proof {
            lemma_be_canonical(taken);
            assert(taken.drop_last() =~= bytes@.take(index as int));
            assert(capacity((index + 1) as nat) <= capacity(8)) by {
                reveal_with_fuel(capacity, 9);
            }
        }
        value = value * 256 + bytes[index] as u64;
        index = index + 1;
    }
    assert(bytes@.take(8) =~= bytes@);
    value
}

/// Returns the sixteen big-endian bytes of a number.
pub fn u128_to_be(value: u128) -> (bytes: [u8; 16])
    ensures
        bytes@ == be_bytes(value as nat, 16),
{
    let high: u64 = (value / 0x1_0000_0000_0000_0000) as u64;
    let low: u64 = (value % 0x1_0000_0000_0000_0000) as u64;
    let h: [u8; 8] = u64_to_be(high);
    let l: [u8; 8] = u64_to_be(low);
    let bytes: [u8; 16] = [
        h[0],
        h[1],
        h[2],
        h[3],
        h[4],
        h[5],
        h[6],
        h[7],
        l[0],
        l[1],
        l[2],
        l[3],
        l[4],
        l[5],
        l[6],
        l[7],
    ];
    proof {
        lemma_capacities();
        lemma_be_split(high as nat, low as nat, 8, 8);
        assert(bytes@ =~= h@ + l@);
    }
    bytes
}

/// Encoding a high and a low part side by side encodes the combined number.
proof fn lemma_be_split(high: nat, low: nat, high_width: nat, low_width: nat)
    requires
        low < capacity(low_width),
    ensures
        be_bytes(high * capacity(low_width) + low, high_width + low_width) == be_bytes(
            high,
            high_width,
        ) + be_bytes(low, low_width),
    decreases low_width,
{
    if low_width == 0 {
        assert(high * capacity(0) + low == high) by {
            assert(high * 1 == high);
        }
        assert(be_bytes(high, high_width) + be_bytes(low, 0) =~= be_bytes(high, high_width));
    } else {
        let shorter = (low_width - 1) as nat;
        let combined = high * capacity(low_width) + low;
        assert(high * (256 * capacity(shorter)) == 256 * (high * capacity(shorter)))
            by (nonlinear_arith);
        assert(combined / 256 == high * capacity(shorter) + low / 256);
        assert(combined % 256 == low % 256);
        lemma_be_split(high, low / 256, high_width, shorter);
        assert((high_width + low_width - 1) as nat == high_width + shorter);
        assert(be_bytes(combined, high_width + low_width) =~= be_bytes(high, high_width)
            + be_bytes(low, low_width));
    }
}

/// Returns the number that sixteen big-endian bytes spell.
pub fn u128_from_be(bytes: &[u8]) -> (value: u128)
    requires
        bytes@.len() == 16,
    ensures
        value == be_value(bytes@),
{
    let mut value: u128 = 0;
    let mut index: usize = 0;
    proof {
        lemma_capacities();
    }
    while index < 16
        invariant
            index <= 16,
            bytes@.len() == 16,
            value == be_value(bytes@.take(index as int)),
            capacity(16) == 0x1_0000_0000_0000_0000 * 0x1_0000_0000_0000_0000,
        decreases 16 - index,
    {
        let ghost taken = bytes@.take(index + 1);
        proof {
            lemma_be_canonical(taken);
            assert(taken.drop_last() =~= bytes@.take(index as int));
            lemma_capacity_monotone((index + 1) as nat, 16);
        }
        value = value * 256 + bytes[index] as u128;
        index = index + 1;
    }
    assert(bytes@.take(16) =~= bytes@);
    value
}

proof fn lemma_capacity_monotone(narrow: nat, wide: nat)
    requires
        narrow <= wide,
    ensures
        0 < capacity(narrow) <= capacity(wide),
    decreases wide,
{
    if narrow < wide {
        lemma_capacity_monotone(narrow, (wide - 1) as nat);
    } else if wide > 0 {
        lemma_capacity_monotone((wide - 1) as nat, (wide - 1) as nat);
    }
}

} // verus!
