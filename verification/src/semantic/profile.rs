//! Identity of the fixed encoding contract.

use vstd::prelude::*;

verus! {

/// Number of signed components in every semantic embedding.
pub const EMBEDDING_DIMENSIONS: usize = 384;

/// Texts that one encoding request may hold.
pub const MAX_EMBEDDING_BATCH_SIZE: usize = 32;

/// Owner of the model repository.
pub const MODEL_OWNER: &'static str = "intfloat";

/// Name of the model repository.
pub const MODEL_NAME: &'static str = "multilingual-e5-small";

/// Pinned revision of the model repository.
pub const MODEL_REVISION: &'static str = "0e60b8d9d2166d80387f86e3b48ec9ced55f4d15";

/// Repository path of the model.
pub const MODEL_FILE: &'static str = "onnx/model.onnx";

/// Repository path of the tokenizer.
pub const TOKENIZER_FILE: &'static str = "onnx/tokenizer.json";

/// Longest token sequence, special tokens included.
pub const MAX_TOKEN_COUNT: usize = 512;

/// SHA-256 of the model.
pub const MODEL_SHA256: [u8; 32] = [
    0xca, 0x45, 0x6c, 0x06, 0xb3, 0xa9, 0x50, 0x5d, 0xdf, 0xd9, 0x13, 0x14, 0x08, 0x91, 0x6d, 0xd7,
    0x92, 0x90, 0x36, 0x83, 0x31, 0xe7, 0xd7, 0x6b, 0xb6, 0x21, 0xf1, 0xcb, 0xa6, 0xbc, 0x86, 0x65,
];

/// SHA-256 of the tokenizer.
pub const TOKENIZER_SHA256: [u8; 32] = [
    0x0b, 0x44, 0xa9, 0xd7, 0xb5, 0x1c, 0x3c, 0x62, 0x62, 0x66, 0x40, 0xcd, 0xa0, 0xe2, 0xc2, 0xf7,
    0x0f, 0xda, 0xcd, 0xc2, 0x5b, 0xbb, 0xd6, 0x80, 0x38, 0x36, 0x9d, 0x14, 0xeb, 0xdf, 0x4c, 0x39,
];

/// Every setting that can change an emitted vector.
pub const PROFILE_MANIFEST: &'static str = "nao-m-e-semantic-profile-v2\nmodel.repository=intfloat/multilingual-e5-small\nmodel.revision=0e60b8d9d2166d80387f86e3b48ec9ced55f4d15\nmodel.artifact=onnx/model.onnx\nmodel.sha256=ca456c06b3a9505ddfd9131408916dd79290368331e7d76bb621f1cba6bc8665\ntokenizer.artifact=onnx/tokenizer.json\ntokenizer.sha256=0b44a9d7b51c3c62626640cda0e2c2f70fdacdc25bbbd68038369d14ebdf4c39\ntokenizer.runtime=tokenizers-0.23.1\ntokenizer.max_tokens=512\ntokenizer.add-special-tokens=true\ntokenizer.truncation=longest-first-right\ntokenizer.truncation-stride=0\ntokenizer.padding=none\nprojection.query=query: {normalized-query}\nprojection.episode=passage: sorted-distinct-lines({normalized-key}: {normalized-value})\nprojection.episode.separator=lf\nprojection.episode.empty=rejected\ntokenizer.query-overflow=right-truncated\ntokenizer.episode-overflow=rejected\nruntime=onnxruntime-1.28.0/ort-2.0.0-rc.13\nruntime.execution-provider=CPUExecutionProvider\nruntime.execution-device=unique-cpu-provider-device\nruntime.provider-selection=explicit-provider-and-device-type\nruntime.environment-execution-providers=false\nruntime.cpu-arena=false\nruntime.graph-optimization=level3\nruntime.execution=sequential\nruntime.model-batch=singleton\nruntime.intra-threads=1\nruntime.inter-threads=1\nruntime.deterministic-compute=true\nruntime.memory-pattern=false\nruntime.inputs=input_ids:i64,attention_mask:i64,token_type_ids:i64\nruntime.output=last_hidden_state:f32\npooling=attention-mask-weighted-mean-f64-left-to-right\nnormalization=l2-f64\nquantization=i16:round-ties-away-from-zero:scale-32767:clamp-minus32767-plus32767\ndimensions=384\n";

/// SHA-256 of the manifest.
pub const PROFILE_FINGERPRINT: [u8; 32] = [
    0x79, 0xa5, 0x43, 0x7c, 0x9d, 0x41, 0xcb, 0x70, 0x22, 0x45, 0x1c, 0x2c, 0x3b, 0xc4, 0x70, 0x8c,
    0x76, 0x9e, 0x7a, 0x07, 0x35, 0x06, 0xc5, 0xd3, 0x68, 0xc2, 0xf2, 0x7e, 0x25, 0x8f, 0xe1, 0x8b,
];

/// The fingerprint is not the all-zero digest.
pub proof fn law_fingerprint_is_not_zero()
    ensures
        exists|i: int| 0 <= i < PROFILE_FINGERPRINT@.len() && PROFILE_FINGERPRINT@[i] != 0,
{
    assert(PROFILE_FINGERPRINT@[0] == 0x79);
}

/// Stable identity of the fixed E5 Small encoding contract.
#[derive(Clone, Copy, Debug, PartialEq, Eq, PartialOrd, Ord, Hash)]
pub struct EmbeddingProfile {
    fingerprint: [u8; 32],
}

/// Returns the fixed E5 Small FP32 profile.
pub fn e5_small_profile() -> (profile: EmbeddingProfile)
    ensures
        profile.identity() == PROFILE_FINGERPRINT,
{
    EmbeddingProfile { fingerprint: PROFILE_FINGERPRINT }
}

impl EmbeddingProfile {
    /// The SHA-256 identity of the manifest.
    pub closed spec fn identity(self) -> [u8; 32] {
        self.fingerprint
    }

    /// Returns the SHA-256 identity of the canonical profile manifest.
    pub fn fingerprint(self) -> (fingerprint: [u8; 32])
        ensures
            fingerprint == self.identity(),
    {
        self.fingerprint
    }

    /// Returns the fixed vector width.
    pub fn dimensions(self) -> (dimensions: usize)
        ensures
            dimensions == EMBEDDING_DIMENSIONS,
    {
        EMBEDDING_DIMENSIONS
    }

    /// Returns the canonical manifest whose SHA-256 is the profile fingerprint.
    pub fn manifest(self) -> (manifest: &'static str)
        ensures
            manifest == PROFILE_MANIFEST,
    {
        PROFILE_MANIFEST
    }
}

} // verus!
