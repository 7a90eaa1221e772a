//! Identifiers, fixed-point values, feedback traces and errors of the kernel.

use core::cmp::Ordering;

use vstd::prelude::*;
use vstd::std_specs::cmp::PartialOrdSpec;
use vstd::string::*;

use crate::bytes::{
    be_bytes, be_value, lemma_be_canonical, lemma_be_round_trip, lemma_capacities, u128_from_be,
    u128_to_be,
};
use crate::parameters::{FEEDBACK_HISTORY_CAPACITY, SCALE};
use crate::text::{decimal, hexadecimal, push_decimal, push_hexadecimal};

verus! {

/// Non-zero 128-bit identifier for one logical memory.
///
/// Persist its canonical bytes. The text form is exactly 32 lowercase
/// hexadecimal digits, for diagnostics only.
#[derive(Clone, Copy, Debug, PartialEq, Eq, Ord, Hash, Structural)]
pub struct MemoryId {
    high: u64,
    low: u64,
}

impl View for MemoryId {
    type V = nat;

    closed spec fn view(&self) -> nat {
        (self.high as nat) * 0x1_0000_0000_0000_0000 + self.low as nat
    }
}

impl vstd::std_specs::cmp::PartialOrdSpecImpl for MemoryId {
    open spec fn obeys_partial_cmp_spec() -> bool {
        true
    }

    /// Memory identifiers order as their numbers.
    open spec fn partial_cmp_spec(&self, other: &MemoryId) -> Option<Ordering> {
        if self@ < other@ {
            Some(Ordering::Less)
        } else if self@ == other@ {
            Some(Ordering::Equal)
        } else {
            Some(Ordering::Greater)
        }
    }
}

impl PartialOrd for MemoryId {
    fn partial_cmp(&self, other: &MemoryId) -> (relation: Option<Ordering>) {
        if self.high < other.high {
            Some(Ordering::Less)
        } else if self.high > other.high {
            Some(Ordering::Greater)
        } else if self.low < other.low {
            Some(Ordering::Less)
        } else if self.low > other.low {
            Some(Ordering::Greater)
        } else {
            Some(Ordering::Equal)
        }
    }
}

/// Memory identifiers order as their numbers do, and only an identifier itself
/// is neither below nor above it.
pub proof fn law_memory_ids_order_as_numbers(first: MemoryId, second: MemoryId)
    ensures
        first.partial_cmp_spec(&second) == Some(Ordering::Less) <==> first@ < second@,
        first.partial_cmp_spec(&second) == Some(Ordering::Greater) <==> first@ > second@,
        first.partial_cmp_spec(&second) == Some(Ordering::Equal) <==> first == second,
{
}

impl MemoryId {
    #[verifier::type_invariant]
    spec fn non_zero(self) -> bool {
        self@ != 0
    }

    /// Creates a non-zero memory identifier.
    pub fn new(value: u128) -> (result: Result<MemoryId, MemoryIdError>)
        ensures
            value == 0 ==> result == Err::<MemoryId, MemoryIdError>(MemoryIdError::Zero),
            value != 0 ==> result is Ok && result->Ok_0@ == value,
    {
        if value == 0 {
            return Err(MemoryIdError::Zero);
        }
        let high: u64 = (value / 0x1_0000_0000_0000_0000) as u64;
        let low: u64 = (value % 0x1_0000_0000_0000_0000) as u64;
        Ok(MemoryId { high, low })
    }

    /// Reconstructs a memory identifier from its canonical big-endian bytes.
    pub fn from_be_bytes(bytes: [u8; 16]) -> (result: Result<MemoryId, MemoryIdError>)
        ensures
            be_value(bytes@) == 0 ==> result == Err::<MemoryId, MemoryIdError>(MemoryIdError::Zero),
            be_value(bytes@) != 0 ==> result is Ok && result->Ok_0@ == be_value(bytes@),
    {
        MemoryId::new(u128_from_be(bytes.as_slice()))
    }

    /// Returns the underlying numeric value.
    pub fn get(self) -> (value: u128)
        ensures
            value == self@,
            value != 0,
    {
        proof {
            use_type_invariant(&self);
        }
        (self.high as u128) * 0x1_0000_0000_0000_0000 + self.low as u128
    }

    /// Returns the canonical 16-byte big-endian representation.
    pub fn to_be_bytes(self) -> (bytes: [u8; 16])
        ensures
            bytes@ == be_bytes(self@, 16),
            be_value(bytes@) == self@,
            self@ != 0,
    {
        let value: u128 = self.get();
        proof {
            lemma_capacities();
            lemma_be_round_trip(self@, 16);
        }
        u128_to_be(value)
    }

    /// The 32 hexadecimal digits of the identifier.
    pub closed spec fn text(self) -> Seq<char> {
        hexadecimal(self.high as nat, 16) + hexadecimal(self.low as nat, 16)
    }

    /// Returns the 32 hexadecimal digits of the identifier.
    pub fn to_string(&self) -> (text: String)
        ensures
            text@ == self.text(),
    {
        let mut text = String::new();
        push_hexadecimal(&mut text, self.high, 16);
        push_hexadecimal(&mut text, self.low, 16);
        assert(text@ =~= self.text());
        text
    }
}

/// The canonical bytes of an identifier determine it: what `to_be_bytes` writes,
/// `from_be_bytes` reads back, and each non-zero byte string is written by
/// exactly one identifier.
pub proof fn law_memory_id_bytes_round_trip(id: MemoryId, bytes: Seq<u8>)
    ensures
        be_value(be_bytes(id@, 16)) == id@,
        bytes.len() == 16 && be_value(bytes) == id@ ==> bytes == be_bytes(id@, 16),
{
    lemma_capacities();
    lemma_be_round_trip(id@, 16);
    lemma_be_canonical(bytes);
}

/// The text of a memory identifier is its value in 32 hexadecimal digits.
pub proof fn law_memory_id_text(id: MemoryId)
    ensures
        id.text() == hexadecimal(id@, 32),
        id.text().len() == 32,
{
    lemma_hexadecimal_split(id.high as nat, id.low as nat, 16, 16);
    lemma_hexadecimal_width(id@, 32);
}

spec fn sixteen_to(width: nat) -> nat
    decreases width,
{
    if width == 0 {
        1
    } else {
        16 * sixteen_to((width - 1) as nat)
    }
}

proof fn lemma_hexadecimal_width(value: nat, width: nat)
    ensures
        hexadecimal(value, width).len() == width,
    decreases width,
{
    if width > 0 {
        lemma_hexadecimal_width(value / 16, (width - 1) as nat);
    }
}

proof fn lemma_hexadecimal_split(high: nat, low: nat, high_width: nat, low_width: nat)
    requires
        low < 0x1_0000_0000_0000_0000,
        low_width == 16,
    ensures
        hexadecimal(high * 0x1_0000_0000_0000_0000 + low, high_width + low_width) == hexadecimal(
            high,
            high_width,
        ) + hexadecimal(low, low_width),
{
    assert(sixteen_to(16) == 0x1_0000_0000_0000_0000) by {
        reveal_with_fuel(sixteen_to, 17);
    }
    lemma_hexadecimal_parts(high, low, high_width, low_width);
}

proof fn lemma_hexadecimal_parts(high: nat, low: nat, high_width: nat, low_width: nat)
    requires
        low < sixteen_to(low_width),
    ensures
        hexadecimal(high * sixteen_to(low_width) + low, high_width + low_width) == hexadecimal(
            high,
            high_width,
        ) + hexadecimal(low, low_width),
    decreases low_width,
{
    if low_width == 0 {
        assert(high * 1 == high);
        assert(hexadecimal(high, high_width) + hexadecimal(low, 0) =~= hexadecimal(
            high,
            high_width,
        ));
    } else {
        let shorter = (low_width - 1) as nat;
        let combined = high * sixteen_to(low_width) + low;
        assert(high * (16 * sixteen_to(shorter)) == 16 * (high * sixteen_to(shorter)))
            by (nonlinear_arith);
        assert(combined / 16 == high * sixteen_to(shorter) + low / 16);
        assert(combined % 16 == low % 16);
        lemma_hexadecimal_parts(high, low / 16, high_width, shorter);
        assert((high_width + low_width - 1) as nat == high_width + shorter);
        assert(hexadecimal(combined, high_width + low_width) =~= hexadecimal(high, high_width)
            + hexadecimal(low, low_width));
    }
}

/// Durable atom reference composed of a memory ID and insertion sequence.
///
/// The text form joins the memory ID and decimal sequence with a colon, for
/// diagnostics only. The ID is a reference, not a permission or content hash.
#[derive(Clone, Copy, Debug, PartialEq, Eq, Ord, Hash, Structural)]
pub struct AtomId {
    memory_id: MemoryId,
    sequence: u64,
}

impl AtomId {
    /// The identifier with the given parts.
    pub closed spec fn of(memory_id: MemoryId, sequence: u64) -> AtomId {
        AtomId { memory_id, sequence }
    }

    /// The owning logical memory.
    pub closed spec fn memory(self) -> MemoryId {
        self.memory_id
    }

    /// The insertion sequence within the memory.
    pub closed spec fn position(self) -> u64 {
        self.sequence
    }

    /// Constructs an identifier without checking that the atom exists.
    pub fn from_parts(memory_id: MemoryId, sequence: u64) -> (id: AtomId)
        ensures
            id == AtomId::of(memory_id, sequence),
            id.memory() == memory_id,
            id.position() == sequence,
    {
        AtomId { memory_id, sequence }
    }

    /// Returns the owning logical memory identifier.
    pub fn memory_id(self) -> (memory_id: MemoryId)
        ensures
            memory_id == self.memory(),
    {
        self.memory_id
    }

    /// Returns the monotonic insertion sequence within the memory.
    pub fn sequence(self) -> (sequence: u64)
        ensures
            sequence == self.position(),
    {
        self.sequence
    }

    /// The memory digits, a colon and the decimal sequence.
    pub open spec fn text(self) -> Seq<char> {
        self.memory().text() + seq![':'] + decimal(self.position() as nat)
    }

    /// Returns the memory digits, a colon and the decimal sequence.
    pub fn to_string(&self) -> (text: String)
        ensures
            text@ == self.text(),
    {
        let mut text = self.memory_id.to_string();
        text.push(':');
        push_decimal(&mut text, self.sequence);
        assert(text@ =~= self.text());
        text
    }
}

impl vstd::std_specs::cmp::PartialOrdSpecImpl for AtomId {
    open spec fn obeys_partial_cmp_spec() -> bool {
        true
    }

    /// Atom identifiers order by memory, and within a memory by sequence.
    open spec fn partial_cmp_spec(&self, other: &AtomId) -> Option<Ordering> {
        if self.memory()@ < other.memory()@ {
            Some(Ordering::Less)
        } else if self.memory()@ > other.memory()@ {
            Some(Ordering::Greater)
        } else if self.position() < other.position() {
            Some(Ordering::Less)
        } else if self.position() > other.position() {
            Some(Ordering::Greater)
        } else {
            Some(Ordering::Equal)
        }
    }
}

impl PartialOrd for AtomId {
    fn partial_cmp(&self, other: &AtomId) -> (relation: Option<Ordering>) {
        match self.memory_id.partial_cmp(&other.memory_id) {
            Some(Ordering::Equal) => if self.sequence < other.sequence {
                Some(Ordering::Less)
            } else if self.sequence > other.sequence {
                Some(Ordering::Greater)
            } else {
                Some(Ordering::Equal)
            },
            relation => relation,
        }
    }
}

/// An atom identifier has the parts that it was made of and is made again of
/// them; atom identifiers order by memory, and within a memory by sequence.
pub proof fn law_atom_ids_order_by_memory_and_sequence(
    memory_id: MemoryId,
    other_memory_id: MemoryId,
    sequence: u64,
    other_sequence: u64,
)
    ensures
        AtomId::of(memory_id, sequence).memory() == memory_id,
        AtomId::of(memory_id, sequence).position() == sequence,
        AtomId::of(memory_id, sequence).partial_cmp_spec(
            &AtomId::of(other_memory_id, other_sequence),
        ) == Some(Ordering::Less) <==> memory_id@ < other_memory_id@ || memory_id
            == other_memory_id && sequence < other_sequence,
        AtomId::of(memory_id, sequence).partial_cmp_spec(
            &AtomId::of(other_memory_id, other_sequence),
        ) == Some(Ordering::Equal) <==> AtomId::of(memory_id, sequence) == AtomId::of(
            other_memory_id,
            other_sequence,
        ),
        forall|id: AtomId| #[trigger] AtomId::of(id.memory(), id.position()) == id,
{
    law_memory_ids_order_as_numbers(memory_id, other_memory_id);
}

/// An atom identifier is exactly its two parts.
pub broadcast proof fn lemma_atom_id_parts(memory_id: MemoryId, sequence: u64)
    ensures
        (#[trigger] AtomId::of(memory_id, sequence)).memory() == memory_id,
        AtomId::of(memory_id, sequence).position() == sequence,
{
}

/// Atom identifiers with equal parts are equal.
pub proof fn lemma_atom_id_injective(first: AtomId, second: AtomId)
    requires
        first.memory() == second.memory(),
        first.position() == second.position(),
    ensures
        first == second,
{
}

/// Caller-owned identifier for the predicate of a statement.
#[derive(Clone, Copy, Debug, PartialEq, Eq, PartialOrd, Ord, Hash, Structural)]
pub struct PredicateId(pub u64);

impl PredicateId {
    /// Creates a new PredicateId.
    pub fn new(value: u64) -> (id: PredicateId)
        ensures
            id.0 == value,
    {
        PredicateId(value)
    }

    /// Returns the numeric value of this PredicateId.
    pub fn get(self) -> (value: u64)
        ensures
            value == self.0,
    {
        self.0
    }
}

impl From<u64> for PredicateId {
    fn from(value: u64) -> (id: PredicateId) {
        PredicateId(value)
    }
}

impl vstd::std_specs::convert::FromSpecImpl<u64> for PredicateId {
    open spec fn obeys_from_spec() -> bool {
        true
    }

    open spec fn from_spec(value: u64) -> PredicateId {
        PredicateId(value)
    }
}

/// Caller-owned identifier for an entity, value, or other symbolic term.
#[derive(Clone, Copy, Debug, PartialEq, Eq, PartialOrd, Ord, Hash, Structural)]
pub struct TermId(pub u64);

impl TermId {
    /// Creates a new TermId.
    pub fn new(value: u64) -> (id: TermId)
        ensures
            id.0 == value,
    {
        TermId(value)
    }

    /// Returns the numeric value of this TermId.
    pub fn get(self) -> (value: u64)
        ensures
            value == self.0,
    {
        self.0
    }
}

impl From<u64> for TermId {
    fn from(value: u64) -> (id: TermId) {
        TermId(value)
    }
}

impl vstd::std_specs::convert::FromSpecImpl<u64> for TermId {
    open spec fn obeys_from_spec() -> bool {
        true
    }

    open spec fn from_spec(value: u64) -> TermId {
        TermId(value)
    }
}

/// Caller-owned identifier for the provenance source of an episode.
#[derive(Clone, Copy, Debug, PartialEq, Eq, PartialOrd, Ord, Hash, Structural)]
pub struct SourceId(pub u64);

impl SourceId {
    /// Creates a new SourceId.
    pub fn new(value: u64) -> (id: SourceId)
        ensures
            id.0 == value,
    {
        SourceId(value)
    }

    /// Returns the numeric value of this SourceId.
    pub fn get(self) -> (value: u64)
        ensures
            value == self.0,
    {
        self.0
    }
}

impl From<u64> for SourceId {
    fn from(value: u64) -> (id: SourceId) {
        SourceId(value)
    }
}

impl vstd::std_specs::convert::FromSpecImpl<u64> for SourceId {
    open spec fn obeys_from_spec() -> bool {
        true
    }

    open spec fn from_spec(value: u64) -> SourceId {
        SourceId(value)
    }
}

/// Identifier of one normalized symbol, used for attribute keys and values.
#[derive(Clone, Copy, Debug, PartialEq, Eq, PartialOrd, Ord, Hash, Structural)]
pub struct SymbolId(pub u64);

impl SymbolId {
    /// Creates a new SymbolId.
    pub fn new(value: u64) -> (id: SymbolId)
        ensures
            id.0 == value,
    {
        SymbolId(value)
    }

    /// Returns the numeric value of this SymbolId.
    pub fn get(self) -> (value: u64)
        ensures
            value == self.0,
    {
        self.0
    }
}

impl From<u64> for SymbolId {
    fn from(value: u64) -> (id: SymbolId) {
        SymbolId(value)
    }
}

impl vstd::std_specs::convert::FromSpecImpl<u64> for SymbolId {
    open spec fn obeys_from_spec() -> bool {
        true
    }

    open spec fn from_spec(value: u64) -> SymbolId {
        SymbolId(value)
    }
}

/// Signed milliseconds on a caller-defined timeline.
#[derive(Clone, Copy, Debug, PartialEq, Eq, PartialOrd, Ord, Hash, Structural)]
pub struct TimestampMs(pub i64);

impl TimestampMs {
    /// Creates a timestamp without imposing clock or ordering semantics.
    pub fn new(value: i64) -> (timestamp: TimestampMs)
        ensures
            timestamp.0 == value,
    {
        TimestampMs(value)
    }

    /// Returns the underlying millisecond value.
    pub fn get(self) -> (value: i64)
        ensures
            value == self.0,
    {
        self.0
    }
}

impl From<i64> for TimestampMs {
    fn from(value: i64) -> (timestamp: TimestampMs) {
        TimestampMs(value)
    }
}

impl vstd::std_specs::convert::FromSpecImpl<i64> for TimestampMs {
    open spec fn obeys_from_spec() -> bool {
        true
    }

    open spec fn from_spec(value: i64) -> TimestampMs {
        TimestampMs(value)
    }
}

/// Two to the given power.
pub open spec fn two_to(exponent: nat) -> nat
    decreases exponent,
{
    if exponent == 0 {
        1
    } else {
        2 * two_to((exponent - 1) as nat)
    }
}

/// The samples that the lowest `count` bits spell, oldest first.
pub open spec fn samples_of(bits: nat, count: nat) -> Seq<bool>
    decreases count,
{
    if count == 0 {
        Seq::empty()
    } else {
        samples_of(bits / 2, (count - 1) as nat).push(bits % 2 == 1)
    }
}

/// Number of helpful samples.
pub open spec fn count_helpful(samples: Seq<bool>) -> nat
    decreases samples.len(),
{
    if samples.len() == 0 {
        0
    } else {
        count_helpful(samples.drop_last()) + if samples.last() {
            1nat
        } else {
            0nat
        }
    }
}

/// The most recent samples of a history, as many as a trace retains.
pub open spec fn recent(samples: Seq<bool>) -> Seq<bool> {
    if samples.len() > FEEDBACK_HISTORY_CAPACITY {
        samples.skip(samples.len() - FEEDBACK_HISTORY_CAPACITY)
    } else {
        samples
    }
}

proof fn lemma_samples_len(bits: nat, count: nat)
    ensures
        samples_of(bits, count).len() == count,
    decreases count,
{
    if count > 0 {
        lemma_samples_len(bits / 2, (count - 1) as nat);
    }
}

/// Only the lowest `count` bits matter.
proof fn lemma_samples_modulo(bits: nat, count: nat)
    ensures
        samples_of(bits % two_to(count), count) == samples_of(bits, count),
        two_to(count) > 0,
    decreases count,
{
    if count > 0 {
        let shorter = (count - 1) as nat;
        lemma_samples_modulo(bits / 2, shorter);
        let modulus = two_to(shorter);
        let rest = bits % (2 * modulus);
        assert(rest / 2 == (bits / 2) % modulus && rest % 2 == bits % 2) by {
            vstd::arithmetic::div_mod::lemma_mod_breakdown(bits as int, 2, modulus as int);
            assert(bits as int % (2 * modulus as int) == 2 * ((bits as int / 2) % modulus as int)
                + bits as int % 2);
        }
    }
}

/// Leaving out the highest of `count` bits leaves out the oldest sample.
proof fn lemma_samples_drop_oldest(bits: nat, count: nat)
    requires
        count > 0,
    ensures
        samples_of(bits, (count - 1) as nat) == samples_of(bits, count).skip(1),
    decreases count,
{
    lemma_samples_len(bits, count);
    lemma_samples_len(bits, (count - 1) as nat);
    if count > 1 {
        lemma_samples_drop_oldest(bits / 2, (count - 1) as nat);
        lemma_samples_len(bits / 2, (count - 1) as nat);
        assert(samples_of(bits, count).skip(1) =~= samples_of(bits / 2, (count - 1) as nat).skip(
            1,
        ).push(bits % 2 == 1));
    } else {
        assert(samples_of(bits, count).skip(1) =~= samples_of(bits, 0));
    }
}

proof fn lemma_helpful_bounded(samples: Seq<bool>)
    ensures
        count_helpful(samples) <= samples.len(),
    decreases samples.len(),
{
    if samples.len() > 0 {
        lemma_helpful_bounded(samples.drop_last());
    }
}

/// Bounded history of binary feedback samples, the newest in the lowest bit.
#[derive(Clone, Copy, Debug, PartialEq, Eq, Hash, Structural)]
pub struct FeedbackTrace {
    history_bits: u16,
    sample_count: u8,
}

impl FeedbackTrace {
    /// At least one sample, at most the capacity, and no bit beyond the samples.
    #[verifier::type_invariant]
    pub closed spec fn canonical(self) -> bool {
        FeedbackTrace::valid_parts(self.history_bits, self.sample_count)
    }

    /// The parts that make a canonical trace.
    pub open spec fn valid_parts(history_bits: u16, sample_count: u8) -> bool {
        &&& 1 <= sample_count <= FEEDBACK_HISTORY_CAPACITY
        &&& history_bits < two_to(sample_count as nat)
    }

    /// The packed samples.
    pub closed spec fn bits(self) -> u16 {
        self.history_bits
    }

    /// The number of samples.
    pub closed spec fn count(self) -> u8 {
        self.sample_count
    }

    /// The samples, oldest first.
    pub open spec fn samples(self) -> Seq<bool> {
        samples_of(self.bits() as nat, self.count() as nat)
    }

    /// The trace with the packed samples and the count.
    pub closed spec fn of(history_bits: u16, sample_count: u8) -> FeedbackTrace {
        FeedbackTrace { history_bits, sample_count }
    }

    /// Rebuilds a trace from its packed samples, or `None` for a non-canonical pair.
    pub fn from_parts(history_bits: u16, sample_count: u8) -> (trace: Option<FeedbackTrace>)
        ensures
            trace is Some <==> FeedbackTrace::valid_parts(history_bits, sample_count),
            trace matches Some(trace) ==> trace.canonical() && trace.bits() == history_bits
                && trace.count() == sample_count && trace == FeedbackTrace::of(
                history_bits,
                sample_count,
            ),
    {
        if sample_count == 0 || sample_count > FEEDBACK_HISTORY_CAPACITY {
            return None;
        }
        let mut limit: u32 = 1;
        let mut index: u8 = 0;
        proof {
            lemma_two_to_table();
        }
        while index < sample_count
            invariant
                index <= sample_count <= 16,
                limit == two_to(index as nat),
                limit <= 0x1_0000,
                index < 16 ==> limit <= 0x8000,
                limit * two_to((16 - index) as nat) == 0x1_0000,
            decreases sample_count - index,
        {
            proof {
                assert(two_to((16 - index) as nat) == 2 * two_to((15 - index) as nat));
                assert(limit * (2 * two_to((15 - index) as nat)) == (2 * limit) * two_to(
                    (15 - index) as nat,
                )) by (nonlinear_arith);
                lemma_two_to_positive((15 - index) as nat);
                if index < 15 {
                    assert(two_to((15 - index) as nat) == 2 * two_to((14 - index) as nat));
                    lemma_two_to_positive((14 - index) as nat);
                    assert(2 * limit <= 0x8000) by (nonlinear_arith)
                        requires
                            (2 * limit) * (2 * two_to((14 - index) as nat)) == 0x1_0000,
                            two_to((14 - index) as nat) >= 1,
                    ;
                }
            }
            limit = limit * 2;
            index = index + 1;
        }
        if (history_bits as u32) < limit {
            Some(FeedbackTrace { history_bits, sample_count })
        } else {
            None
        }
    }

    /// Creates a trace that holds one sample.
    pub fn from_feedback(helpful: bool) -> (trace: FeedbackTrace)
        ensures
            trace.canonical(),
            trace.samples() == seq![helpful],
            trace.count() == 1,
            trace.bits() == if helpful {
                1u16
            } else {
                0u16
            },
    {
        let history_bits: u16 = if helpful {
            1
        } else {
            0
        };
        proof {
            reveal_with_fuel(two_to, 2);
            reveal_with_fuel(samples_of, 2);
        }
        let trace = FeedbackTrace { history_bits, sample_count: 1 };
        assert(trace.samples() =~= seq![helpful]);
        trace
    }

    /// Adds the newest sample; at capacity the oldest one is dropped.
    pub fn push(&mut self, helpful: bool)
        ensures
            final(self).canonical(),
            final(self).samples() == recent(old(self).samples().push(helpful)),
            final(self).count() == if old(self).count() < FEEDBACK_HISTORY_CAPACITY {
                (old(self).count() + 1) as u8
            } else {
                FEEDBACK_HISTORY_CAPACITY
            },
    {
        proof {
            use_type_invariant(&*self);
        }
        let newest: u16 = if helpful {
            1
        } else {
            0
        };
        let bits: u16 = self.history_bits;
        let count: u8 = self.sample_count;
        let ghost samples = self.samples();
        let history_bits: u16 = (bits % 0x8000) * 2 + newest;
        let sample_count: u8 = if count < FEEDBACK_HISTORY_CAPACITY {
            count + 1
        } else {
            FEEDBACK_HISTORY_CAPACITY
        };
        proof {
            lemma_samples_len(bits as nat, count as nat);
            lemma_two_to_table();
            let whole = (2 * bits + newest) as nat;
            assert(samples_of(whole, (count + 1) as nat) =~= samples.push(helpful));
            if count < 16 {
                lemma_two_to_monotone(count as nat, 15);
                assert(bits < 0x8000);
                assert(history_bits == whole);
                assert(two_to((count + 1) as nat) == 2 * two_to(count as nat));
            } else {
                assert(history_bits as nat == whole % 0x1_0000);
                lemma_samples_modulo(whole, 16);
                lemma_samples_drop_oldest(whole, 17);
                assert(samples.push(helpful).skip(1) == samples_of(history_bits as nat, 16));
            }
        }
        *self = FeedbackTrace { history_bits, sample_count };
    }

    /// Returns the packed samples, the newest in the lowest bit.
    pub fn history_bits(self) -> (bits: u16)
        ensures
            bits == self.bits(),
            FeedbackTrace::valid_parts(bits, self.count()),
    {
        proof {
            use_type_invariant(&self);
        }
        self.history_bits
    }

    /// Returns the number of retained samples.
    pub fn sample_count(self) -> (count: u8)
        ensures
            count == self.count(),
            count == self.samples().len(),
            1 <= count <= FEEDBACK_HISTORY_CAPACITY,
    {
        proof {
            use_type_invariant(&self);
            lemma_samples_len(self.history_bits as nat, self.sample_count as nat);
        }
        self.sample_count
    }

    /// Returns the number of helpful samples.
    pub fn helpful_count(self) -> (count: u8)
        ensures
            count == count_helpful(self.samples()),
            count <= self.count() <= FEEDBACK_HISTORY_CAPACITY,
            1 <= self.count(),
    {
        proof {
            use_type_invariant(&self);
        }
        let mut bits: u16 = self.history_bits;
        let mut left: u8 = self.sample_count;
        let mut count: u8 = 0;
        while left > 0
            invariant
                left <= self.count() <= 16,
                count + left <= self.count(),
                count + count_helpful(samples_of(bits as nat, left as nat)) == count_helpful(
                    self.samples(),
                ),
            decreases left,
        {
            proof {
                let samples = samples_of(bits as nat, left as nat);
                assert(samples.drop_last() =~= samples_of((bits / 2) as nat, (left - 1) as nat));
            }
            if bits % 2 == 1 {
                count = count + 1;
            }
            bits = bits / 2;
            left = left - 1;
        }
        count
    }

    /// Returns the number of unhelpful samples.
    pub fn unhelpful_count(self) -> (count: u8)
        ensures
            count == self.samples().len() - count_helpful(self.samples()),
    {
        self.sample_count() - self.helpful_count()
    }
}

proof fn lemma_two_to_positive(exponent: nat)
    ensures
        two_to(exponent) > 0,
    decreases exponent,
{
    if exponent > 0 {
        lemma_two_to_positive((exponent - 1) as nat);
    }
}

proof fn lemma_two_to_table()
    ensures
        two_to(15) == 0x8000,
        two_to(16) == 0x1_0000,
{
    reveal_with_fuel(two_to, 17);
}

proof fn lemma_two_to_monotone(small: nat, large: nat)
    requires
        small <= large,
    ensures
        two_to(small) <= two_to(large),
    decreases large,
{
    if small < large {
        lemma_two_to_monotone(small, (large - 1) as nat);
    }
}

/// A trace holds the packed samples and the count that it is made of.
pub proof fn lemma_trace_built(history_bits: u16, sample_count: u8)
    ensures
        FeedbackTrace::of(history_bits, sample_count).bits() == history_bits,
        FeedbackTrace::of(history_bits, sample_count).count() == sample_count,
{
}

/// A trace is made of its packed samples and its count.
pub proof fn lemma_trace_of(trace: FeedbackTrace)
    ensures
        FeedbackTrace::of(trace.bits(), trace.count()) == trace,
{
}

/// A canonical trace has valid parts.
pub proof fn lemma_trace_parts(trace: FeedbackTrace)
    requires
        trace.canonical(),
    ensures
        FeedbackTrace::valid_parts(trace.bits(), trace.count()),
{
}

/// A canonical trace retains between one and sixteen samples, and helpful and
/// unhelpful samples are counted apart.
pub proof fn law_trace_history_is_bounded(trace: FeedbackTrace)
    requires
        trace.canonical(),
    ensures
        1 <= trace.samples().len() <= FEEDBACK_HISTORY_CAPACITY,
        trace.samples().len() == trace.count(),
        count_helpful(trace.samples()) <= trace.samples().len(),
{
    lemma_samples_len(trace.bits() as nat, trace.count() as nat);
    lemma_helpful_bounded(trace.samples());
}

proof fn lemma_samples_injective(first: nat, second: nat, count: nat)
    requires
        first < two_to(count),
        second < two_to(count),
        samples_of(first, count) == samples_of(second, count),
    ensures
        first == second,
    decreases count,
{
    if count > 0 {
        let shorter = (count - 1) as nat;
        let older = samples_of(first / 2, shorter);
        let other = samples_of(second / 2, shorter);
        assert(samples_of(first, count).drop_last() =~= older);
        assert(samples_of(second, count).drop_last() =~= other);
        assert(samples_of(first, count).last() == (first % 2 == 1));
        assert(samples_of(second, count).last() == (second % 2 == 1));
        lemma_samples_injective(first / 2, second / 2, shorter);
    }
}

/// A canonical trace is determined by the samples that it retains.
pub proof fn law_trace_is_its_samples(first: FeedbackTrace, second: FeedbackTrace)
    requires
        first.canonical(),
        second.canonical(),
        first.samples() == second.samples(),
    ensures
        first == second,
{
    lemma_samples_len(first.bits() as nat, first.count() as nat);
    lemma_samples_len(second.bits() as nat, second.count() as nat);
    lemma_samples_injective(first.bits() as nat, second.bits() as nat, first.count() as nat);
}

/// Adding one sample to a full history drops exactly the oldest sample.
pub proof fn law_full_history_drops_oldest(samples: Seq<bool>, helpful: bool)
    requires
        samples.len() == FEEDBACK_HISTORY_CAPACITY,
    ensures
        recent(samples.push(helpful)) == samples.drop_first().push(helpful),
        recent(samples.push(helpful)).len() == FEEDBACK_HISTORY_CAPACITY,
{
    assert(recent(samples.push(helpful)) =~= samples.drop_first().push(helpful));
}

/// Query-local recall activation measured in parts per million.
#[derive(Clone, Copy, Debug, PartialEq, Eq, PartialOrd, Ord, Hash, Structural)]
pub struct Activation(u32);

impl View for Activation {
    type V = nat;

    closed spec fn view(&self) -> nat {
        self.0 as nat
    }
}

impl Activation {
    #[verifier::type_invariant]
    spec fn bounded(self) -> bool {
        self.0 <= SCALE
    }

    /// Zero projected activation.
    pub fn zero() -> (activation: Activation)
        ensures
            activation@ == 0,
    {
        Activation(0)
    }

    /// Creates a projected activation from zero through [`SCALE`].
    pub fn from_ppm(value: u32) -> (result: Result<Activation, ValueError>)
        ensures
            value > SCALE ==> result == Err::<Activation, ValueError>(
                ValueError::OutOfRange { value },
            ),
            value <= SCALE ==> result is Ok && result->Ok_0@ == value,
    {
        if value > SCALE {
            return Err(ValueError::OutOfRange { value });
        }
        Ok(Activation(value))
    }

    /// Returns the parts-per-million representation.
    pub fn as_ppm(self) -> (value: u32)
        ensures
            value == self@,
            value <= SCALE,
    {
        proof {
            use_type_invariant(&self);
        }
        self.0
    }
}

impl Default for Activation {
    fn default() -> (activation: Activation)
        ensures
            activation@ == 0,
    {
        Activation(0)
    }
}

/// Positive relevance influence measured in parts per million.
///
/// A weight controls source-conditioned accessibility; it is not a probability
/// or confidence.
#[derive(Clone, Copy, Debug, PartialEq, Eq, PartialOrd, Ord, Hash, Structural)]
pub struct InfluenceWeight(u32);

impl View for InfluenceWeight {
    type V = nat;

    closed spec fn view(&self) -> nat {
        self.0 as nat
    }
}

impl InfluenceWeight {
    #[verifier::type_invariant]
    spec fn bounded(self) -> bool {
        1 <= self.0 <= SCALE
    }

    /// Creates a weight from one through [`SCALE`].
    pub fn from_ppm(value: u32) -> (result: Result<InfluenceWeight, ValueError>)
        ensures
            value == 0 ==> result == Err::<InfluenceWeight, ValueError>(ValueError::ZeroWeight),
            value > SCALE ==> result == Err::<InfluenceWeight, ValueError>(
                ValueError::OutOfRange { value },
            ),
            1 <= value <= SCALE ==> result is Ok && result->Ok_0@ == value,
    {
        if value == 0 {
            return Err(ValueError::ZeroWeight);
        }
        if value > SCALE {
            return Err(ValueError::OutOfRange { value });
        }
        Ok(InfluenceWeight(value))
    }

    /// Returns the parts-per-million representation.
    pub fn as_ppm(self) -> (value: u32)
        ensures
            value == self@,
            1 <= value <= SCALE,
    {
        proof {
            use_type_invariant(&self);
        }
        self.0
    }
}

/// Failure while constructing a symbolic model value.
#[derive(Clone, Copy, Debug, PartialEq, Eq, Structural)]
pub enum ModelError {
    /// A statement was constructed without arguments.
    EmptyArguments,
    /// An attribute was constructed without values.
    EmptyAttributeValues,
    /// An episode was constructed without attributes.
    EmptyEpisodeAttributes,
}

impl ModelError {
    /// The diagnostic text.
    pub open spec fn text(self) -> Seq<char> {
        match self {
            ModelError::EmptyArguments => "a statement requires at least one argument"@,
            ModelError::EmptyAttributeValues => "an attribute requires at least one value"@,
            ModelError::EmptyEpisodeAttributes => "an episode requires at least one attribute"@,
        }
    }

    /// Returns the diagnostic text.
    pub fn to_string(&self) -> (text: String)
        ensures
            text@ == self.text(),
    {
        match self {
            ModelError::EmptyArguments => "a statement requires at least one argument".to_owned(),
            ModelError::EmptyAttributeValues => "an attribute requires at least one value".to_owned(),
            ModelError::EmptyEpisodeAttributes => {
                "an episode requires at least one attribute".to_owned()
            },
        }
    }
}

/// Failure while constructing a durable memory identifier.
#[derive(Clone, Copy, Debug, PartialEq, Eq, Structural)]
pub enum MemoryIdError {
    /// The all-zero value is reserved and cannot identify a memory.
    Zero,
}

impl MemoryIdError {
    /// Returns the diagnostic text.
    pub fn to_string(&self) -> (text: String)
        ensures
            text@ == "a memory identifier must be non-zero"@,
    {
        "a memory identifier must be non-zero".to_owned()
    }
}

/// Failure while constructing a fixed-point value.
#[derive(Clone, Copy, Debug, PartialEq, Eq, Structural)]
pub enum ValueError {
    /// A value exceeded [`SCALE`].
    OutOfRange {
        /// Rejected parts-per-million value.
        value: u32,
    },
    /// Zero cannot represent an existing relevance edge.
    ZeroWeight,
}

impl ValueError {
    /// The diagnostic text.
    pub open spec fn text(self) -> Seq<char> {
        match self {
            ValueError::OutOfRange { value } => "fixed-point value "@ + decimal(value as nat)
                + " exceeds "@ + decimal(SCALE as nat),
            ValueError::ZeroWeight => "an influence weight must be positive"@,
        }
    }

    /// Returns the diagnostic text.
    pub fn to_string(&self) -> (text: String)
        ensures
            text@ == self.text(),
    {
        match self {
            ValueError::OutOfRange { value } => {
                let mut text = "fixed-point value ".to_owned();
                push_decimal(&mut text, *value as u64);
                text.append(" exceeds ");
                push_decimal(&mut text, SCALE as u64);
                text
            },
            ValueError::ZeroWeight => "an influence weight must be positive".to_owned(),
        }
    }
}

/// Failure while inserting an episode.
#[derive(Clone, Copy, Debug, PartialEq, Eq, Structural)]
pub enum MemoryError {
    /// The monotonic identifier space is exhausted.
    IdExhausted,
}

impl MemoryError {
    /// Returns the diagnostic text.
    pub fn to_string(&self) -> (text: String)
        ensures
            text@ == "atom identifier space is exhausted"@,
    {
        "atom identifier space is exhausted".to_owned()
    }
}

/// Failure while recalling or changing relevance topology.
#[derive(Clone, Copy, Debug, PartialEq, Eq, Structural)]
pub enum GraphError {
    /// An operation referred to an atom absent from this memory.
    UnknownAtom(AtomId),
    /// A feedback event supplied more target entries than allowed.
    FeedbackTargetLimitExceeded {
        /// Number of supplied target entries.
        count: usize,
        /// Maximum accepted target entries.
        max: usize,
    },
    /// A relevance edge attempted to connect an atom to itself.
    SelfEdge(AtomId),
    /// Updated outgoing weights would exceed [`SCALE`].
    OutgoingWeightBudgetExceeded {
        /// Source whose outgoing budget would be exceeded.
        from: AtomId,
        /// Rejected outgoing total.
        attempted_ppm: u64,
    },
}

impl GraphError {
    /// The diagnostic text.
    pub open spec fn text(self) -> Seq<char> {
        match self {
            GraphError::UnknownAtom(id) => "unknown atom "@ + id.text(),
            GraphError::FeedbackTargetLimitExceeded { count, max } => "feedback target count "@
                + decimal(count as nat) + " exceeds "@ + decimal(max as nat),
            GraphError::SelfEdge(id) => "atom "@ + id.text() + " cannot influence itself"@,
            GraphError::OutgoingWeightBudgetExceeded { from, attempted_ppm } => "atom "@
                + from.text() + " outgoing weight "@ + decimal(attempted_ppm as nat)
                + " exceeds "@ + decimal(SCALE as nat),
        }
    }

    /// Returns the diagnostic text.
    pub fn to_string(&self) -> (text: String)
        ensures
            text@ == self.text(),
    {
        match self {
            GraphError::UnknownAtom(id) => {
                let mut text = "unknown atom ".to_owned();
                text.append(id.to_string().as_str());
                text
            },
            GraphError::FeedbackTargetLimitExceeded { count, max } => {
                let mut text = "feedback target count ".to_owned();
                push_decimal(&mut text, *count as u64);
                text.append(" exceeds ");
                push_decimal(&mut text, *max as u64);
                text
            },
            GraphError::SelfEdge(id) => {
                let mut text = "atom ".to_owned();
                text.append(id.to_string().as_str());
                text.append(" cannot influence itself");
                text
            },
            GraphError::OutgoingWeightBudgetExceeded { from, attempted_ppm } => {
                let mut text = "atom ".to_owned();
                text.append(from.to_string().as_str());
                text.append(" outgoing weight ");
                push_decimal(&mut text, *attempted_ppm);
                text.append(" exceeds ");
                push_decimal(&mut text, SCALE as u64);
                text
            },
        }
    }
}

} // verus!
