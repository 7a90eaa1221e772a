//! Failures of semantic encoding.

use vstd::prelude::*;
use vstd::string::*;

use crate::text::{decimal, hexadecimal, push_decimal, push_hexadecimal};

verus! {

/// Failure while loading the fixed model or encoding semantic text.
#[derive(Clone, Debug, PartialEq, Eq)]
#[non_exhaustive]
#[allow(inconsistent_fields)]
pub enum SemanticError {
    /// One episode passage exceeds the fixed model context.
    EpisodeTooLong {
        /// Maximum number of accepted model tokens, including special tokens.
        maximum: usize,
    },
    /// An encoding request holds too many texts.
    BatchTooLarge {
        /// Maximum number of texts.
        maximum: usize,
        /// Number of texts in the request.
        found: usize,
    },
    /// A required pinned artifact is absent from or inaccessible in the local cache.
    ArtifactUnavailable {
        /// Repository path of the required artifact.
        file: &'static str,
        /// Underlying Hub failure.
        source: String,
    },
    /// Reading a cached artifact failed.
    ArtifactRead {
        /// Repository path of the required artifact.
        file: &'static str,
        /// Underlying filesystem failure.
        source: String,
    },
    /// A provisioned artifact differs from its pinned SHA-256.
    ArtifactHashMismatch {
        /// Repository path of the invalid artifact.
        file: &'static str,
        /// Required digest.
        expected: [u8; 32],
        /// Digest read from the provisioned artifact.
        found: [u8; 32],
    },
    /// The pinned tokenizer could not be loaded or configured.
    Tokenizer {
        /// Stable diagnostic from the tokenizer runtime.
        detail: String,
    },
    /// ONNX Runtime rejected model loading, input construction, or inference.
    Runtime(String),
    /// The fixed CPU-only execution device could not be selected uniquely.
    RuntimeConfiguration {
        /// Violated runtime invariant.
        detail: &'static str,
    },
    /// The pinned artifacts exposed a shape or value outside the fixed profile.
    InvalidModelOutput {
        /// Violated invariant.
        detail: &'static str,
    },
}

/// Two-digit hexadecimal bytes, parted by commas.
pub open spec fn byte_list(bytes: Seq<u8>) -> Seq<char>
    decreases bytes.len(),
{
    if bytes.len() == 0 {
        Seq::empty()
    } else if bytes.len() == 1 {
        hexadecimal(bytes[0] as nat, 2)
    } else {
        byte_list(bytes.drop_last()) + ", "@ + hexadecimal(bytes.last() as nat, 2)
    }
}

/// A digest as a bracketed list of bytes.
pub open spec fn digest_text(bytes: Seq<u8>) -> Seq<char> {
    "["@ + byte_list(bytes) + "]"@
}

/// Appends a digest as a bracketed list of bytes.
pub fn push_digest(text: &mut String, bytes: &[u8])
    ensures
        final(text)@ == old(text)@ + digest_text(bytes@),
{
    let ghost start = text@;
    text.append("[");
    let mut index: usize = 0;
    proof {
        assert(bytes@.take(0) =~= Seq::empty());
        assert(text@ =~= start + ("["@ + byte_list(bytes@.take(0))));
    }
    while index < bytes.len()
        invariant
            index <= bytes@.len(),
            text@ == start + ("["@ + byte_list(bytes@.take(index as int))),
        decreases bytes.len() - index,
    {
        let ghost part = bytes@.take(index + 1);
        proof {
            assert(part.drop_last() =~= bytes@.take(index as int));
            assert(part.last() == bytes@[index as int]);
        }
        if index != 0 {
            text.append(", ");
        }
        push_hexadecimal(text, bytes[index] as u64, 2);
        proof {
            let before = byte_list(part.drop_last());
            let digits = hexadecimal(bytes@[index as int] as nat, 2);
            if index == 0 {
                assert(before =~= Seq::empty());
                assert(text@ =~= start + ("["@ + digits));
            } else {
                assert(text@ =~= start + ("["@ + (before + ", "@ + digits)));
            }
        }
        index += 1;
    }
    proof {
        assert(bytes@.take(bytes@.len() as int) =~= bytes@);
    }
    text.append("]");
    assert(text@ =~= start + digest_text(bytes@));
}

impl SemanticError {
    /// The diagnostic text.
    pub open spec fn text(self) -> Seq<char> {
        match self {
            SemanticError::EpisodeTooLong { maximum } => "semantic episode exceeds the fixed "@
                + decimal(maximum as nat) + "-token model context"@,
            SemanticError::BatchTooLarge { maximum, found } => "semantic batch of "@ + decimal(
                found as nat,
            ) + " cues exceeds the maximum of "@ + decimal(maximum as nat),
            SemanticError::ArtifactUnavailable { file, source } => "required semantic artifact "@
                + file@ + " is not provisioned or accessible in the local cache: "@ + source@,
            SemanticError::ArtifactRead { file, source } => "failed to read semantic artifact "@
                + file@ + ": "@ + source@,
            SemanticError::ArtifactHashMismatch { file, expected, found } => "semantic artifact "@
                + file@ + " has SHA-256 "@ + digest_text(found@) + "; expected "@ + digest_text(
                expected@,
            ),
            SemanticError::Tokenizer { detail } => "semantic tokenizer failed: "@ + detail@,
            SemanticError::Runtime(error) => "semantic ONNX inference failed: "@ + error@,
            SemanticError::RuntimeConfiguration {
                detail,
            } => "semantic runtime configuration is invalid: "@ + detail@,
            SemanticError::InvalidModelOutput { detail } => "semantic model output is invalid: "@
                + detail@,
        }
    }

    /// Returns the diagnostic text.
    pub fn to_string(&self) -> (text: String)
        ensures
            text@ == self.text(),
    {
        match self {
            SemanticError::EpisodeTooLong { maximum } => {
                let mut text = "semantic episode exceeds the fixed ".to_owned();
                push_decimal(&mut text, *maximum as u64);
                text.append("-token model context");
                text
            },
            SemanticError::BatchTooLarge { maximum, found } => {
                let mut text = "semantic batch of ".to_owned();
                push_decimal(&mut text, *found as u64);
                text.append(" cues exceeds the maximum of ");
                push_decimal(&mut text, *maximum as u64);
                text
            },
            SemanticError::ArtifactUnavailable { file, source } => {
                let mut text = "required semantic artifact ".to_owned();
                text.append(*file);
                text.append(" is not provisioned or accessible in the local cache: ");
                text.append(source.as_str());
                text
            },
            SemanticError::ArtifactRead { file, source } => {
                let mut text = "failed to read semantic artifact ".to_owned();
                text.append(*file);
                text.append(": ");
                text.append(source.as_str());
                text
            },
            SemanticError::ArtifactHashMismatch { file, expected, found } => {
                let mut text = "semantic artifact ".to_owned();
                text.append(*file);
                text.append(" has SHA-256 ");
                push_digest(&mut text, found.as_slice());
                text.append("; expected ");
                push_digest(&mut text, expected.as_slice());
                text
            },
            SemanticError::Tokenizer { detail } => {
                let mut text = "semantic tokenizer failed: ".to_owned();
                text.append(detail.as_str());
                text
            },
            SemanticError::Runtime(error) => {
                let mut text = "semantic ONNX inference failed: ".to_owned();
                text.append(error.as_str());
                text
            },
            SemanticError::RuntimeConfiguration { detail } => {
                let mut text = "semantic runtime configuration is invalid: ".to_owned();
                text.append(*detail);
                text
            },
            SemanticError::InvalidModelOutput { detail } => {
                let mut text = "semantic model output is invalid: ".to_owned();
                text.append(*detail);
                text
            },
        }
    }
}

} // verus!
