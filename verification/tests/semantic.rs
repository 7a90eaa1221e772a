//! Texts, embeddings, the fixed profile and the checks around the encoder.

use nao_m_e::semantic::encoder::{
    consider_device, model_artifact, model_input, require_device, select_device,
    tokenizer_artifact, verified_artifact, verify_batch, verify_episode_tokens, verify_output_shape, verify_pad_token,
    verify_pool_lengths, verify_profile, verify_sequence, ArtifactSpec,
};
use nao_m_e::semantic::error::SemanticError;
use nao_m_e::semantic::model::{Embedding, EpisodeText, QueryText};
use nao_m_e::semantic::profile::{
    e5_small_profile, EMBEDDING_DIMENSIONS, MAX_EMBEDDING_BATCH_SIZE, MAX_TOKEN_COUNT, MODEL_FILE,
    MODEL_NAME, MODEL_OWNER, MODEL_REVISION, MODEL_SHA256, TOKENIZER_FILE, TOKENIZER_SHA256,
};
use sha2::{Digest, Sha256};

fn hex(bytes: [u8; 32]) -> String {
    bytes.iter().map(|byte| format!("{byte:02x}")).collect()
}

#[test]
fn episode_projection_is_non_empty_ordered_and_duplicate_free() {
    assert!(EpisodeText::new(&[]).is_none());
    let attributes = [
        ("status", "failed"),
        ("problem", "http 404"),
        ("status", "failed"),
    ];
    let episode = EpisodeText::new(&attributes).unwrap();
    assert_eq!(episode.attributes(), &attributes);
    assert_eq!(
        episode.project(),
        "passage: problem: http 404\nstatus: failed"
    );
}

#[test]
fn episode_projection_orders_keys_before_values() {
    let attributes = [("b", "a"), ("a", "z"), ("a", "b"), ("ab", "")];
    let reversed = [("ab", ""), ("a", "b"), ("b", "a"), ("a", "z"), ("a", "b")];
    let expected = "passage: a: b\na: z\nab: \nb: a";
    assert_eq!(EpisodeText::new(&attributes).unwrap().project(), expected);
    assert_eq!(EpisodeText::new(&reversed).unwrap().project(), expected);
}

#[test]
fn query_projection_uses_the_retrieval_prefix() {
    let query = QueryText::new("login bug in lamentis");
    assert_eq!(query.value(), "login bug in lamentis");
    assert_eq!(query.project(), "query: login bug in lamentis");
}

#[test]
fn embedding_requires_fixed_width_and_non_zero_content() {
    assert_eq!(Embedding::new(vec![1; EMBEDDING_DIMENSIONS - 1]), None);
    assert_eq!(Embedding::new(vec![0; EMBEDDING_DIMENSIONS]), None);
    assert_eq!(Embedding::new(vec![i16::MIN; EMBEDDING_DIMENSIONS]), None);

    let embedding = Embedding::new(vec![1; EMBEDDING_DIMENSIONS]).unwrap();
    assert_eq!(embedding.profile(), e5_small_profile());
    assert_eq!(embedding.values().len(), EMBEDDING_DIMENSIONS);
}

#[test]
fn manifest_hash_is_the_published_profile_fingerprint() {
    let profile = e5_small_profile();
    let digest: [u8; 32] = Sha256::digest(profile.manifest().as_bytes()).into();
    assert_eq!(digest, profile.fingerprint());
    assert_eq!(verify_profile(), Ok(()));
    assert_eq!(profile.dimensions(), EMBEDDING_DIMENSIONS);
}

#[test]
fn manifest_identity_matches_runtime_artifacts_and_token_bound() {
    let manifest = e5_small_profile().manifest();
    for field in [
        format!("model.repository={MODEL_OWNER}/{MODEL_NAME}\n"),
        format!("model.revision={MODEL_REVISION}\n"),
        format!("model.artifact={MODEL_FILE}\n"),
        format!("model.sha256={}\n", hex(MODEL_SHA256)),
        format!("tokenizer.artifact={TOKENIZER_FILE}\n"),
        format!("tokenizer.sha256={}\n", hex(TOKENIZER_SHA256)),
        format!("tokenizer.max_tokens={MAX_TOKEN_COUNT}\n"),
    ] {
        assert!(
            manifest.contains(&field),
            "profile manifest lacks {field:?}"
        );
    }
}

#[test]
fn public_fixed_profile_and_embedding_contract_are_coherent() {
    let profile = e5_small_profile();
    assert_eq!(profile.dimensions(), EMBEDDING_DIMENSIONS);
    assert!(!profile.manifest().is_empty());
    assert_ne!(profile.fingerprint(), [0; 32]);

    assert!(Embedding::new(vec![1; EMBEDDING_DIMENSIONS - 1]).is_none());
    assert!(Embedding::new(vec![i16::MIN; EMBEDDING_DIMENSIONS]).is_none());
    let embedding = Embedding::new(vec![1; EMBEDDING_DIMENSIONS]).unwrap();
    assert_eq!(embedding.profile(), profile);
}

#[test]
fn empty_and_oversized_batches_do_not_initialize_the_runtime() {
    assert_eq!(verify_batch(0), Ok(false));
    assert_eq!(verify_batch(1), Ok(true));
    assert_eq!(verify_batch(MAX_EMBEDDING_BATCH_SIZE), Ok(true));
    assert_eq!(
        verify_batch(MAX_EMBEDDING_BATCH_SIZE + 1),
        Err(SemanticError::BatchTooLarge {
            maximum: MAX_EMBEDDING_BATCH_SIZE,
            found: MAX_EMBEDDING_BATCH_SIZE + 1,
        })
    );
}

#[test]
fn artifact_hash_mismatch_fails_without_repair_or_retry() {
    let expected: [u8; 32] = Sha256::digest(b"good").into();
    let bad_digest: [u8; 32] = Sha256::digest(b"bad").into();
    let artifact = ArtifactSpec {
        file: "test",
        sha256: expected,
    };

    assert_eq!(
        verified_artifact(artifact, b"bad"),
        Err(SemanticError::ArtifactHashMismatch {
            file: "test",
            expected,
            found: bad_digest,
        })
    );
    assert_eq!(verified_artifact(artifact, b"good"), Ok(()));
}

#[test]
fn pinned_artifacts_are_those_of_the_profile() {
    assert_eq!(model_artifact().file, MODEL_FILE);
    assert_eq!(model_artifact().sha256, MODEL_SHA256);
    assert_eq!(tokenizer_artifact().file, TOKENIZER_FILE);
    assert_eq!(tokenizer_artifact().sha256, TOKENIZER_SHA256);
}

#[test]
fn tokenizer_and_model_outputs_are_bounded() {
    assert_eq!(verify_pad_token(Some(1)), Ok(1));
    assert!(verify_pad_token(Some(2)).is_err());
    assert!(verify_pad_token(None).is_err());
    assert_eq!(verify_episode_tokens(MAX_TOKEN_COUNT), Ok(()));
    assert_eq!(
        verify_episode_tokens(MAX_TOKEN_COUNT + 1),
        Err(SemanticError::EpisodeTooLong {
            maximum: MAX_TOKEN_COUNT
        })
    );
    assert_eq!(verify_sequence(1), Ok(()));
    assert!(verify_sequence(0).is_err());
    assert_eq!(model_input(&[0, 7, u32::MAX]), [0_i64, 7, 4_294_967_295]);
}

#[test]
fn model_outputs_have_the_fixed_shape() {
    assert_eq!(verify_output_shape(&[1, 3, 384], 3), Ok(()));
    for shape in [
        &[1, 3][..],
        &[2, 3, 384][..],
        &[1, 4, 384][..],
        &[1, -3, 384][..],
        &[1, 3, 383][..],
        &[1, 3, 384, 1][..],
    ] {
        assert_eq!(
            verify_output_shape(shape, 3),
            Err(SemanticError::InvalidModelOutput {
                detail: "last_hidden_state has an unexpected shape"
            })
        );
    }
    assert_eq!(verify_pool_lengths(768, 2, 2), Ok(()));
    for (hidden, attention) in [(767, 2), (768, 1)] {
        assert_eq!(
            verify_pool_lengths(hidden, attention, 2),
            Err(SemanticError::InvalidModelOutput {
                detail: "model output length does not match its shape"
            })
        );
    }
    assert_eq!(
        verify_pool_lengths(0, 0, usize::MAX),
        Err(SemanticError::InvalidModelOutput {
            detail: "model output size overflowed"
        })
    );
}

#[test]
fn exactly_one_processor_device_is_selected() {
    let cpu = ("CPUExecutionProvider".to_owned(), true);
    let fake = ("CPUExecutionProvider".to_owned(), false);
    let gpu = ("CUDAExecutionProvider".to_owned(), false);
    assert_eq!(select_device(&[gpu.clone(), fake.clone(), cpu.clone()]), Ok(2));
    assert_eq!(
        select_device(&[gpu, fake]),
        Err(SemanticError::RuntimeConfiguration {
            detail: "the canonical CPU execution device is unavailable"
        })
    );
    assert_eq!(
        select_device(&[cpu.clone(), cpu]),
        Err(SemanticError::RuntimeConfiguration {
            detail: "multiple canonical CPU execution devices are available"
        })
    );
}

#[test]
fn a_second_processor_device_is_reported_when_it_is_met() {
    let provider = "CPUExecutionProvider";
    assert_eq!(consider_device(None, 0, "CUDAExecutionProvider", false), Ok(None));
    assert_eq!(consider_device(None, 1, provider, true), Ok(Some(1)));
    assert_eq!(consider_device(Some(1), 2, provider, false), Ok(Some(1)));
    assert_eq!(
        consider_device(Some(1), 3, provider, true),
        Err(SemanticError::RuntimeConfiguration {
            detail: "multiple canonical CPU execution devices are available"
        })
    );
    assert_eq!(require_device(Some(1)), Ok(1));
    assert_eq!(
        require_device(None),
        Err(SemanticError::RuntimeConfiguration {
            detail: "the canonical CPU execution device is unavailable"
        })
    );
}

#[test]
fn semantic_errors_have_exact_texts() {
    let mut found = [0_u8; 32];
    found[0] = 0xca;
    found[31] = 7;
    let texts = [
        (
            SemanticError::EpisodeTooLong { maximum: 512 },
            "semantic episode exceeds the fixed 512-token model context".to_owned(),
        ),
        (
            SemanticError::BatchTooLarge {
                maximum: 32,
                found: 33,
            },
            "semantic batch of 33 cues exceeds the maximum of 32".to_owned(),
        ),
        (
            SemanticError::ArtifactUnavailable {
                file: "onnx/model.onnx",
                source: "no entry".to_owned(),
            },
            "required semantic artifact onnx/model.onnx is not provisioned or accessible in the \
             local cache: no entry"
                .to_owned(),
        ),
        (
            SemanticError::ArtifactRead {
                file: "onnx/model.onnx",
                source: "denied".to_owned(),
            },
            "failed to read semantic artifact onnx/model.onnx: denied".to_owned(),
        ),
        (
            SemanticError::ArtifactHashMismatch {
                file: "test",
                expected: [0x0b; 32],
                found,
            },
            format!(
                "semantic artifact test has SHA-256 {found:02x?}; expected {:02x?}",
                [0x0b_u8; 32]
            ),
        ),
        (
            SemanticError::Tokenizer {
                detail: "bad".to_owned(),
            },
            "semantic tokenizer failed: bad".to_owned(),
        ),
        (
            SemanticError::Runtime("stopped".to_owned()),
            "semantic ONNX inference failed: stopped".to_owned(),
        ),
        (
            SemanticError::RuntimeConfiguration { detail: "none" },
            "semantic runtime configuration is invalid: none".to_owned(),
        ),
        (
            SemanticError::InvalidModelOutput { detail: "zero" },
            "semantic model output is invalid: zero".to_owned(),
        ),
    ];
    for (error, expected) in texts {
        assert_eq!(error.to_string(), expected);
    }
}
