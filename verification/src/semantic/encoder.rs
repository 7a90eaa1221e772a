//! Rules of the encoding runtime: artifacts, devices, tokens and shapes.

use vstd::prelude::*;
use vstd::utf8::encode_utf8;

use crate::semantic::error::SemanticError;
use crate::semantic::profile::{
    EMBEDDING_DIMENSIONS, MAX_EMBEDDING_BATCH_SIZE, MAX_TOKEN_COUNT, MODEL_FILE, MODEL_SHA256,
    PROFILE_FINGERPRINT, PROFILE_MANIFEST, TOKENIZER_FILE, TOKENIZER_SHA256,
};
use crate::text::same_text;

verus! {

/// The SHA-256 of bytes, as the crate `sha2` computes it.
pub uninterp spec fn sha256_of(bytes: Seq<u8>) -> Seq<u8>;

/// Calls `sha2::Sha256::digest`, whose result depends on the bytes alone.
#[verifier::external_body]
fn sha256(bytes: &[u8]) -> (digest: [u8; 32])
    ensures
        digest@ == sha256_of(bytes@),
{
    <sha2::Sha256 as sha2::Digest>::digest(bytes).into()
}

const MULTIPLE_DEVICES: &'static str = "multiple canonical CPU execution devices are available";

const NO_DEVICE: &'static str = "the canonical CPU execution device is unavailable";

const NO_PAD: &'static str = "tokenizer has no <pad> token";

const WRONG_PAD: &'static str = "tokenizer <pad> identifier is not canonical";

const EMPTY_SEQUENCE: &'static str = "tokenizer returned an empty sequence";

const WRONG_SHAPE: &'static str = "last_hidden_state has an unexpected shape";

const SIZE_OVERFLOW: &'static str = "model output size overflowed";

const WRONG_LENGTH: &'static str = "model output length does not match its shape";

/// The provider that runs the model.
pub const EXECUTION_PROVIDER: &'static str = "CPUExecutionProvider";

/// Identifier of the padding token.
pub const PAD_TOKEN_ID: u32 = 1;

/// A repository file and its pinned digest.
#[derive(Clone, Copy, Debug, PartialEq, Eq)]
pub struct ArtifactSpec {
    /// Repository path.
    pub file: &'static str,
    /// Pinned SHA-256.
    pub sha256: [u8; 32],
}

/// Returns the pinned model.
pub fn model_artifact() -> (artifact: ArtifactSpec)
    ensures
        artifact.file == MODEL_FILE,
        artifact.sha256 == MODEL_SHA256,
{
    ArtifactSpec { file: MODEL_FILE, sha256: MODEL_SHA256 }
}

/// Returns the pinned tokenizer.
pub fn tokenizer_artifact() -> (artifact: ArtifactSpec)
    ensures
        artifact.file == TOKENIZER_FILE,
        artifact.sha256 == TOKENIZER_SHA256,
{
    ArtifactSpec { file: TOKENIZER_FILE, sha256: TOKENIZER_SHA256 }
}

fn same_digest(first: &[u8; 32], second: &[u8; 32]) -> (same: bool)
    ensures
        same == (first@ == second@),
{
    let mut index: usize = 0;
    while index < 32
        invariant
            index <= 32,
            first@.len() == 32,
            second@.len() == 32,
            forall|i: int| 0 <= i < index ==> first@[i] == second@[i],
        decreases 32 - index,
    {
        if first[index] != second[index] {
            return false;
        }
        index += 1;
    }
    assert(first@ =~= second@);
    true
}

/// Accepts a digest that equals the pinned one.
pub fn verify_digest(artifact: ArtifactSpec, found: [u8; 32]) -> (result: Result<
    (),
    SemanticError,
>)
    ensures
        result is Ok <==> found@ == artifact.sha256@,
        result matches Err(error) ==> error == (SemanticError::ArtifactHashMismatch {
            file: artifact.file,
            expected: artifact.sha256,
            found,
        }),
{
    if same_digest(&found, &artifact.sha256) {
        Ok(())
    } else {
        Err(
            SemanticError::ArtifactHashMismatch {
                file: artifact.file,
                expected: artifact.sha256,
                found,
            },
        )
    }
}

/// Accepts the contents of a file whose digest is the pinned one.
pub fn verified_artifact(artifact: ArtifactSpec, contents: &[u8]) -> (result: Result<
    (),
    SemanticError,
>)
    ensures
        result is Ok <==> sha256_of(contents@) == artifact.sha256@,
        result matches Err(error) ==> error matches SemanticError::ArtifactHashMismatch {
            file,
            expected,
            found,
        } && file == artifact.file && expected == artifact.sha256 && found@ == sha256_of(contents@),
{
    verify_digest(artifact, sha256(contents))
}

/// Name of the manifest in diagnostics.
pub const MANIFEST_NAME: &'static str = "semantic profile manifest";

/// Accepts the fixed profile if its fingerprint is the SHA-256 of its manifest.
pub fn verify_profile() -> (result: Result<(), SemanticError>)
    ensures
        result is Ok <==> sha256_of(encode_utf8(PROFILE_MANIFEST@)) == PROFILE_FINGERPRINT@,
        result matches Err(error) ==> error matches SemanticError::ArtifactHashMismatch {
            file,
            expected,
            found,
        } && file == MANIFEST_NAME && expected == PROFILE_FINGERPRINT && found@ == sha256_of(
            encode_utf8(PROFILE_MANIFEST@),
        ),
{
    let manifest = ArtifactSpec { file: MANIFEST_NAME, sha256: PROFILE_FINGERPRINT };
    verified_artifact(manifest, PROFILE_MANIFEST.as_bytes())
}

/// The device runs the model on the processor.
pub open spec fn canonical_device(device: (Seq<char>, bool)) -> bool {
    device.0 == "CPUExecutionProvider"@ && device.1
}

/// The contents of device descriptions.
pub open spec fn device_contents(devices: Seq<(String, bool)>) -> Seq<(Seq<char>, bool)> {
    devices.map_values(|device: (String, bool)| (device.0@, device.1))
}

/// The number of devices that run the model on the processor.
pub open spec fn canonical_devices(devices: Seq<(Seq<char>, bool)>) -> nat
    decreases devices.len(),
{
    if devices.len() == 0 {
        0
    } else {
        canonical_devices(devices.drop_last()) + if canonical_device(devices.last()) {
            1nat
        } else {
            0nat
        }
    }
}

proof fn lemma_devices_grow(devices: Seq<(Seq<char>, bool)>, end: int)
    requires
        0 <= end <= devices.len(),
    ensures
        canonical_devices(devices.take(end)) <= canonical_devices(devices),
    decreases devices.len(),
{
    if end < devices.len() {
        assert(devices.drop_last().take(end) =~= devices.take(end));
        lemma_devices_grow(devices.drop_last(), end);
    } else {
        assert(devices.take(end) =~= devices);
    }
}

/// The selection behind one more device: a second one that runs the model on
/// the processor is an error.
pub open spec fn device_step(selected: Option<usize>, index: usize, device: (Seq<char>, bool)) -> Result<
    Option<usize>,
    SemanticError,
> {
    if !canonical_device(device) {
        Ok(selected)
    } else if selected is Some {
        Err(
            SemanticError::RuntimeConfiguration {
                detail: "multiple canonical CPU execution devices are available",
            },
        )
    } else {
        Ok(Some(index))
    }
}

/// Takes one more device into the selection, by its provider name and whether
/// its hardware is a processor.
pub fn consider_device(selected: Option<usize>, index: usize, provider: &str, processor: bool) -> (result:
    Result<Option<usize>, SemanticError>)
    ensures
        result == device_step(selected, index, (provider@, processor)),
{
    if processor && same_text(provider, EXECUTION_PROVIDER) {
        if selected.is_some() {
            return Err(SemanticError::RuntimeConfiguration { detail: MULTIPLE_DEVICES });
        }
        return Ok(Some(index));
    }
    Ok(selected)
}

/// Requires a selected device.
pub fn require_device(selected: Option<usize>) -> (result: Result<usize, SemanticError>)
    ensures
        result == match selected {
            Some(index) => Ok::<usize, SemanticError>(index),
            None => Err(
                SemanticError::RuntimeConfiguration {
                    detail: "the canonical CPU execution device is unavailable",
                },
            ),
        },
{
    match selected {
        Some(index) => Ok(index),
        None => Err(SemanticError::RuntimeConfiguration { detail: NO_DEVICE }),
    }
}

/// Selects the only device that runs the model on the processor, by its
/// provider name and whether its hardware is a processor.
pub fn select_device(devices: &[(String, bool)]) -> (result: Result<usize, SemanticError>)
    ensures
        ({
            let count = canonical_devices(device_contents(devices@));
            match result {
                Ok(index) => count == 1 && index < devices@.len() && canonical_device(
                    device_contents(devices@)[index as int],
                ),
                Err(error) => count != 1 && error == (SemanticError::RuntimeConfiguration {
                    detail: if count == 0 {
                        "the canonical CPU execution device is unavailable"
                    } else {
                        "multiple canonical CPU execution devices are available"
                    },
                }),
            }
        }),
{
    let ghost all = device_contents(devices@);
    let mut selected: Option<usize> = None;
    let mut index: usize = 0;
    assert(all.take(0) =~= Seq::empty());
    while index < devices.len()
        invariant
            index <= devices@.len(),
            all == device_contents(devices@),
            canonical_devices(all.take(index as int)) == if selected is Some {
                1nat
            } else {
                0nat
            },
            selected matches Some(place) ==> place < index && canonical_device(all[place as int]),
        decreases devices.len() - index,
    {
        proof {
            let part = all.take(index + 1);
            assert(part.drop_last() =~= all.take(index as int));
            assert(part.last() == all[index as int]);
            lemma_devices_grow(all, index + 1);
        }
        match consider_device(selected, index, devices[index].0.as_str(), devices[index].1) {
            Ok(next) => {
                selected = next;
            },
            Err(error) => {
                return Err(error);
            },
        }
        index += 1;
    }
    assert(all.take(all.len() as int) =~= all);
    require_device(selected)
}

/// Requires the tokenizer's padding token to have its fixed identifier.
pub fn verify_pad_token(pad_id: Option<u32>) -> (result: Result<u32, SemanticError>)
    ensures
        result is Ok <==> pad_id == Some(1u32),
        result == match pad_id {
            None => Err::<u32, SemanticError>(
                SemanticError::InvalidModelOutput { detail: "tokenizer has no <pad> token" },
            ),
            Some(id) => if id == PAD_TOKEN_ID {
                Ok(id)
            } else {
                Err(
                    SemanticError::InvalidModelOutput {
                        detail: "tokenizer <pad> identifier is not canonical",
                    },
                )
            },
        },
{
    match pad_id {
        None => Err(SemanticError::InvalidModelOutput { detail: NO_PAD }),
        Some(id) => if id == PAD_TOKEN_ID {
            Ok(id)
        } else {
            Err(SemanticError::InvalidModelOutput { detail: WRONG_PAD })
        },
    }
}

/// Limits an encoding request; an empty one needs no model.
pub fn verify_batch(length: usize) -> (result: Result<bool, SemanticError>)
    ensures
        result is Ok <==> length <= 32,
        result == if length > MAX_EMBEDDING_BATCH_SIZE {
            Err::<bool, SemanticError>(
                SemanticError::BatchTooLarge { maximum: MAX_EMBEDDING_BATCH_SIZE, found: length },
            )
        } else {
            Ok(length > 0)
        },
{
    if length > MAX_EMBEDDING_BATCH_SIZE {
        return Err(
            SemanticError::BatchTooLarge { maximum: MAX_EMBEDDING_BATCH_SIZE, found: length },
        );
    }
    Ok(length > 0)
}

/// Limits the tokens of an episode passage, which is never truncated.
pub fn verify_episode_tokens(count: usize) -> (result: Result<(), SemanticError>)
    ensures
        result is Ok <==> count <= 512,
        result == if count > MAX_TOKEN_COUNT {
            Err::<(), SemanticError>(SemanticError::EpisodeTooLong { maximum: MAX_TOKEN_COUNT })
        } else {
            Ok(())
        },
{
    if count > MAX_TOKEN_COUNT {
        Err(SemanticError::EpisodeTooLong { maximum: MAX_TOKEN_COUNT })
    } else {
        Ok(())
    }
}

/// Requires at least one token.
pub fn verify_sequence(sequence_length: usize) -> (result: Result<(), SemanticError>)
    ensures
        result == if sequence_length == 0 {
            Err::<(), SemanticError>(
                SemanticError::InvalidModelOutput {
                    detail: "tokenizer returned an empty sequence",
                },
            )
        } else {
            Ok(())
        },
{
    if sequence_length == 0 {
        Err(SemanticError::InvalidModelOutput { detail: EMPTY_SEQUENCE })
    } else {
        Ok(())
    }
}

/// Widens token numbers to the model's input type.
pub fn model_input(values: &[u32]) -> (input: Vec<i64>)
    ensures
        input@.len() == values@.len(),
        forall|i: int| 0 <= i < input@.len() ==> (#[trigger] input@[i]) == values@[i],
{
    let mut input: Vec<i64> = Vec::new();
    let mut index: usize = 0;
    while index < values.len()
        invariant
            index <= values@.len(),
            input@.len() == index,
            forall|i: int| 0 <= i < index ==> (#[trigger] input@[i]) == values@[i],
        decreases values.len() - index,
    {
        input.push(values[index] as i64);
        index += 1;
    }
    input
}

/// Requires one hidden state of the fixed width for each token.
pub fn verify_output_shape(shape: &[i64], sequence_length: usize) -> (result: Result<
    (),
    SemanticError,
>)
    ensures
        result is Ok <==> shape@.len() == 3 && shape@[0] == 1 && shape@[1] == sequence_length
            && shape@[2] == 384,
        result == if shape@.len() == 3 && shape@[0] == 1 && shape@[1] as int
            == sequence_length as int && shape@[2] as int == EMBEDDING_DIMENSIONS as int {
            Ok::<(), SemanticError>(())
        } else {
            Err(
                SemanticError::InvalidModelOutput {
                    detail: "last_hidden_state has an unexpected shape",
                },
            )
        },
{
    if shape.len() == 3 && shape[0] == 1 && shape[1] >= 0 && shape[1] as u64
        == sequence_length as u64 && shape[2] == 384 {
        Ok(())
    } else {
        Err(SemanticError::InvalidModelOutput { detail: WRONG_SHAPE })
    }
}

/// Requires the hidden states and the attention mask to fit the token count.
pub fn verify_pool_lengths(hidden: usize, attention: usize, sequence_length: usize) -> (result:
    Result<(), SemanticError>)
    ensures
        result is Ok <==> hidden == 384 * sequence_length && attention == sequence_length,
        result == if sequence_length * EMBEDDING_DIMENSIONS > usize::MAX {
            Err::<(), SemanticError>(
                SemanticError::InvalidModelOutput { detail: "model output size overflowed" },
            )
        } else if hidden != sequence_length * EMBEDDING_DIMENSIONS || attention
            != sequence_length {
            Err(
                SemanticError::InvalidModelOutput {
                    detail: "model output length does not match its shape",
                },
            )
        } else {
            Ok(())
        },
{
    match sequence_length.checked_mul(EMBEDDING_DIMENSIONS) {
        None => Err(SemanticError::InvalidModelOutput { detail: SIZE_OVERFLOW }),
        Some(expected) => if hidden != expected || attention != sequence_length {
            Err(SemanticError::InvalidModelOutput { detail: WRONG_LENGTH })
        } else {
            Ok(())
        },
    }
}

} // verus!
