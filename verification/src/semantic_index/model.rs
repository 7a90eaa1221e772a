//! Profiles, embeddings and texts of the cue index.

use vstd::prelude::*;

verus! {

/// Some byte is not zero.
pub open spec fn some_byte(bytes: Seq<u8>) -> bool {
    exists|i: int| 0 <= i < bytes.len() && (#[trigger] bytes[i]) != 0
}

/// Stable identity and vector width of one embedding configuration.
///
/// The fingerprint must identify every setting that can affect emitted
/// vectors, including the model, weights, tokenizer, cue projection, and
/// quantization. It is an identity token, not a cryptographic trust claim.
#[derive(Clone, Copy, Debug, PartialEq, Eq, PartialOrd, Ord, Hash)]
pub struct EmbeddingProfile {
    fingerprint: [u8; 32],
    dimension: u16,
}

impl View for EmbeddingProfile {
    type V = (Seq<u8>, u16);

    closed spec fn view(&self) -> (Seq<u8>, u16) {
        (self.fingerprint@, self.dimension)
    }
}

impl EmbeddingProfile {
    /// Neither the fingerprint nor the width is zero.
    #[verifier::type_invariant]
    pub closed spec fn valid(self) -> bool {
        self.dimension != 0 && some_byte(self.fingerprint@)
    }

    /// Constructs a profile from a non-zero fingerprint and vector dimension.
    ///
    /// Returns `None` when the fingerprint is all zero or `dimension` is zero.
    /// A `u16` dimension therefore represents the supported range
    /// `1..=65_535` exactly.
    pub fn new(fingerprint: [u8; 32], dimension: u16) -> (profile: Option<EmbeddingProfile>)
        ensures
            profile is Some <==> dimension != 0 && some_byte(fingerprint@),
            profile matches Some(profile) ==> profile@ == (fingerprint@, dimension),
    {
        if dimension == 0 {
            return None;
        }
        let mut index: usize = 0;
        while index < 32
            invariant
                index <= 32,
                dimension != 0,
                fingerprint@.len() == 32,
                forall|i: int| 0 <= i < index ==> (#[trigger] fingerprint@[i]) == 0,
            decreases 32 - index,
        {
            if fingerprint[index] != 0 {
                assert(fingerprint@[index as int] != 0);
                return Some(EmbeddingProfile { fingerprint, dimension });
            }
            index += 1;
        }
        None
    }

    /// Returns the stable 32-byte configuration fingerprint.
    pub fn fingerprint(self) -> (fingerprint: [u8; 32])
        ensures
            fingerprint@ == self@.0,
    {
        self.fingerprint
    }

    /// Returns the number of signed 16-bit components in every vector.
    pub fn dimensions(self) -> (dimensions: u16)
        ensures
            dimensions == self@.1,
            dimensions != 0,
            some_byte(self@.0),
    {
        proof {
            use_type_invariant(&self);
        }
        self.dimension
    }

    /// Compares two profiles.
    pub fn same(&self, other: &EmbeddingProfile) -> (same: bool)
        ensures
            same == (self@ == other@),
    {
        if self.dimension != other.dimension {
            return false;
        }
        let first: [u8; 32] = self.fingerprint;
        let second: [u8; 32] = other.fingerprint;
        let mut index: usize = 0;
        while index < 32
            invariant
                index <= 32,
                first@ == self@.0,
                second@ == other@.0,
                first@.len() == 32,
                second@.len() == 32,
                forall|i: int| 0 <= i < index ==> first@[i] == second@[i],
            decreases 32 - index,
        {
            if first[index] != second[index] {
                return false;
            }
            index += 1;
        }
        assert(first@ =~= second@);
        true
    }
}

/// The components fit the width, and one of them is not zero.
pub open spec fn fits(values: Seq<i16>, dimension: u16) -> bool {
    &&& values.len() == dimension
    &&& exists|i: int| 0 <= i < values.len() && (#[trigger] values[i]) != 0
}

/// One non-zero, fixed-width embedding in signed 16-bit representation.
#[derive(Debug, PartialEq, Eq, Hash)]
pub struct Embedding {
    profile: EmbeddingProfile,
    values: Vec<i16>,
}

impl Embedding {
    /// The components fit the profile.
    #[verifier::type_invariant]
    pub closed spec fn fitting(self) -> bool {
        fits(self.values@, self.profile@.1)
    }

    /// The profile.
    pub closed spec fn made_for(&self) -> EmbeddingProfile {
        self.profile
    }

    /// The ordered components.
    pub closed spec fn components(&self) -> Seq<i16> {
        self.values@
    }

    /// Constructs an embedding for `profile`.
    ///
    /// Returns `None` unless `values` has exactly the profile dimension and at
    /// least one component is non-zero.
    pub fn new(profile: EmbeddingProfile, values: Vec<i16>) -> (embedding: Option<Embedding>)
        ensures
            embedding is Some <==> fits(values@, profile@.1),
            embedding matches Some(embedding) ==> embedding.made_for() == profile
                && embedding.components() == values@,
    {
        if values.len() != profile.dimensions() as usize {
            return None;
        }
        let mut index: usize = 0;
        while index < values.len()
            invariant
                index <= values@.len(),
                values@.len() == profile@.1,
                forall|i: int| 0 <= i < index ==> (#[trigger] values@[i]) == 0,
            decreases values.len() - index,
        {
            if values[index] != 0 {
                assert(values@[index as int] != 0);
                return Some(Embedding { profile, values });
            }
            index += 1;
        }
        None
    }

    /// Returns the profile.
    pub fn profile(&self) -> (profile: EmbeddingProfile)
        ensures
            profile == self.made_for(),
    {
        self.profile
    }

    /// Returns the ordered signed components.
    pub fn values(&self) -> (values: &[i16])
        ensures
            values@ == self.components(),
            fits(self.components(), self.made_for()@.1),
    {
        proof {
            use_type_invariant(self);
        }
        self.values.as_slice()
    }
}

/// Borrowed normalized text for one bound attribute-key/value cue.
///
/// Keeping key and value bound avoids conflating an identical value used under
/// different attribute keys.
#[derive(Clone, Copy, Debug, PartialEq, Eq, Hash)]
pub struct CueText<'a> {
    key: &'a str,
    value: &'a str,
}

impl<'a> CueText<'a> {
    /// The key and the value.
    pub closed spec fn texts(self) -> (Seq<char>, Seq<char>) {
        (self.key@, self.value@)
    }

    /// Creates one borrowed key/value cue.
    pub fn new(key: &'a str, value: &'a str) -> (cue: CueText<'a>)
        ensures
            cue.texts() == (key@, value@),
    {
        CueText { key, value }
    }

    /// Returns the normalized attribute-key text.
    pub fn key(self) -> (key: &'a str)
        ensures
            key@ == self.texts().0,
    {
        self.key
    }

    /// Returns the normalized attribute-value text.
    pub fn value(self) -> (value: &'a str)
        ensures
            value@ == self.texts().1,
    {
        self.value
    }
}

/// The keys and the values of cues.
pub open spec fn pairs_of(cues: Seq<CueText>) -> Seq<(Seq<char>, Seq<char>)> {
    cues.map_values(|cue: CueText| cue.texts())
}

/// The components of embeddings.
pub open spec fn vectors_of(embeddings: Seq<Embedding>) -> Seq<Seq<i16>> {
    embeddings.map_values(|embedding: Embedding| embedding.components())
}

/// Supplies embeddings without coupling the index to a model runtime.
pub trait CueEmbedder {
    /// The vectors are an answer that this kind of embedder may give to a batch
    /// with the keys and values; any answer, unless the embedder says more.
    open spec fn may_answer(texts: Seq<(Seq<char>, Seq<char>)>, vectors: Seq<Seq<i16>>) -> bool {
        true
    }

    /// Returns the immutable profile of every vector produced by this embedder.
    fn profile(&self) -> EmbeddingProfile;

    /// Embeds one ordered batch of bound key/value cues.
    ///
    /// A successful implementation must return exactly one embedding per cue,
    /// in the same order. The index validates that count and every vector.
    fn embed_batch(&mut self, cues: &[CueText<'_>]) -> (result: Result<Vec<Embedding>, String>)
        ensures
            result matches Ok(embeddings) ==> Self::may_answer(
                pairs_of(cues@),
                vectors_of(embeddings@),
            ),
    ;
}

/// Counts describing the committed contents of a semantic cue index.
#[derive(Clone, Copy, Debug, PartialEq, Eq, Structural)]
pub struct IndexStats {
    indexed_episode_count: u64,
    cue_count: u64,
    posting_count: u64,
}

impl View for IndexStats {
    type V = (u64, u64, u64);

    closed spec fn view(&self) -> (u64, u64, u64) {
        (self.indexed_episode_count, self.cue_count, self.posting_count)
    }
}

impl Default for IndexStats {
    fn default() -> (stats: Self)
        ensures
            stats@ == (0u64, 0u64, 0u64),
    {
        IndexStats::new(0, 0, 0)
    }
}

impl IndexStats {
    /// Creates the counts of episodes, cues and postings.
    pub fn new(indexed_episode_count: u64, cue_count: u64, posting_count: u64) -> (stats:
        IndexStats)
        ensures
            stats@ == (indexed_episode_count, cue_count, posting_count),
    {
        IndexStats { indexed_episode_count, cue_count, posting_count }
    }

    /// Returns the number of authoritative episodes covered by the index.
    pub fn indexed_episode_count(self) -> (count: u64)
        ensures
            count == self@.0,
    {
        self.indexed_episode_count
    }

    /// Returns the number of distinct bound key/value cues.
    pub fn cue_count(self) -> (count: u64)
        ensures
            count == self@.1,
    {
        self.cue_count
    }

    /// Returns the number of cue-to-episode postings.
    pub fn posting_count(self) -> (count: u64)
        ensures
            count == self@.2,
    {
        self.posting_count
    }
}

} // verus!
