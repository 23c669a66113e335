//! Vectors: settings, requests, the source and the writer.

use std::cell::RefCell;

use halter_goals::tier2::embedding::request::{
    after_attempt, attempt_embed, vector_is_finite, Attempt, AttemptStep, EmbeddingClient,
    EmbeddingKnobs, EmbeddingRequest,
};
use halter_goals::tier2::embedding::settings::{
    EmbeddingConfig, OpenAiOAuth, ResolvedEmbeddingSettings, ResolvedProviderAuth,
    DEFAULT_EMBEDDING_BASE_URL,
};
use halter_goals::tier2::embedding::source::OpenAiEmbeddingSource;
use halter_goals::tier2::embedding::writer::{
    insert_memory_with_writer, EmbeddingWriteError, MemoryEmbeddingWriter, WriteEmbedding,
};
use halter_goals::tier2::embedding::embedding_input_text;
use halter_goals::tier2::{
    Applicability, Embedding, EmbeddingSource, EvidenceContract, InMemoryMemoryStore, Memory,
    MemoryKind, MemoryStore, MemoryStoreError, MemoryVersion, OutcomeShape, ParameterSchema, Plan,
    Provenance, Reinforcement,
};
use halter_goals::types::{
    GoalNodeId, IntentSignature, IntentType, MemoryId, OutcomeRef, Scope, Sha256, SubtreeHash,
    TargetRef, TargetType,
};

/// A client that gives the scripted outcomes in turn, and then fails for good.
struct Scripted {
    script: RefCell<Vec<Attempt>>,
    seen: RefCell<Vec<EmbeddingRequest>>,
}

impl Scripted {
    fn new(mut outcomes: Vec<Attempt>) -> Self {
        outcomes.reverse();
        Self { script: RefCell::new(outcomes), seen: RefCell::new(Vec::new()) }
    }

    fn calls(&self) -> usize {
        self.seen.borrow().len()
    }
}

impl EmbeddingClient for &Scripted {
    fn embed_once(&mut self, request: &EmbeddingRequest) -> Attempt {
        self.seen.borrow_mut().push(request.clone());
        self.script.borrow_mut().pop().unwrap_or(Attempt::Failed { retryable: false })
    }
}

fn bits(values: &[f32]) -> Vec<u32> {
    values.iter().map(|v| v.to_bits()).collect()
}

fn good(values: &[f32]) -> Attempt {
    Attempt::Vector(bits(values))
}

fn sig() -> IntentSignature {
    IntentSignature {
        intent_type: IntentType::from("lookup"),
        target_type: TargetType::from("file"),
        target_ref: TargetRef::from("src/lib.rs"),
        scope: Scope::from("repo"),
    }
}

fn config() -> EmbeddingConfig {
    EmbeddingConfig {
        enabled: true,
        model: "m".to_owned(),
        dimension: Some(2),
        base_url: None,
        timeout_secs: None,
        max_attempts: None,
        cache_max_entries: None,
    }
}

fn key_auth() -> ResolvedProviderAuth {
    ResolvedProviderAuth::ApiKey("key".to_owned())
}

fn settings() -> ResolvedEmbeddingSettings {
    ResolvedEmbeddingSettings::resolve(&config(), &key_auth())
}

fn request() -> EmbeddingRequest {
    EmbeddingKnobs::from_settings(&settings()).request(&sig())
}

#[test]
fn input_text_separates_the_four_fields() {
    assert_eq!(embedding_input_text(&sig()), "lookup\u{1f}file\u{1f}src/lib.rs\u{1f}repo");
    let empty = IntentSignature {
        intent_type: IntentType::from(""),
        target_type: TargetType::from(""),
        target_ref: TargetRef::from(""),
        scope: Scope::from(""),
    };
    assert_eq!(embedding_input_text(&empty), "\u{1f}\u{1f}\u{1f}");
}

#[test]
fn input_text_tells_intents_apart() {
    let mut shifted = sig();
    shifted.intent_type = IntentType::from("lookupfile");
    shifted.target_type = TargetType::from("");
    assert_ne!(embedding_input_text(&shifted), embedding_input_text(&sig()));
}

#[test]
fn absent_settings_take_defaults() {
    let s = settings();
    assert!(s.enabled);
    assert_eq!(s.model, "m");
    assert_eq!(s.dimension, Some(2));
    assert_eq!(s.base_url, DEFAULT_EMBEDDING_BASE_URL);
    assert_eq!(s.timeout_secs, 30);
    assert_eq!(s.max_attempts, 3);
    assert_eq!(s.cache_max_entries, 1024);
    assert_eq!(s.bearer.expose_secret(), "key");
}

#[test]
fn configured_settings_are_kept_within_bounds() {
    let mut c = config();
    c.base_url = Some("  https://host/v1 \n".to_owned());
    c.timeout_secs = Some(5);
    c.max_attempts = Some(10);
    c.cache_max_entries = Some(7);
    let auth =
        ResolvedProviderAuth::OpenAiOAuth(OpenAiOAuth { access_token: "token".to_owned() });
    let s = ResolvedEmbeddingSettings::resolve(&c, &auth);
    assert_eq!(s.base_url, "https://host/v1");
    assert_eq!(s.timeout_secs, 5);
    assert_eq!(s.max_attempts, 10);
    assert_eq!(s.cache_max_entries, 7);
    assert_eq!(s.bearer.expose_secret(), "token");
}

#[test]
fn settings_out_of_bounds_fall_back() {
    for (attempts, expected) in [(0, 3), (1, 1), (11, 3), (u32::MAX, 3)] {
        let mut c = config();
        c.base_url = Some(" \t".to_owned());
        c.timeout_secs = Some(0);
        c.max_attempts = Some(attempts);
        let s = ResolvedEmbeddingSettings::resolve(&c, &key_auth());
        assert_eq!(s.base_url, DEFAULT_EMBEDDING_BASE_URL);
        assert_eq!(s.timeout_secs, 30);
        assert_eq!(s.max_attempts, expected);
    }
}

#[test]
fn disabled_settings_ask_nothing() {
    let s = ResolvedEmbeddingSettings::disabled();
    assert!(!s.enabled);
    assert_eq!(s.bearer.expose_secret(), "");
    let client = Scripted::new(vec![good(&[1.0])]);
    let mut source = OpenAiEmbeddingSource::new(&client, &s);
    assert_eq!(source.embed(&sig()), None);
    let mut writer = MemoryEmbeddingWriter::new(&client, &s);
    assert_eq!(writer.embed_for_write(&sig()), Ok(WriteEmbedding::Unavailable));
    assert_eq!(client.calls(), 0);
}

#[test]
fn only_failures_that_may_pass_are_tried_again() {
    assert_eq!(after_attempt(good(&[1.0]), 1), AttemptStep::Got(bits(&[1.0])));
    assert_eq!(after_attempt(Attempt::TimedOut, 2), AttemptStep::Retry);
    assert_eq!(after_attempt(Attempt::TimedOut, 1), AttemptStep::GiveUp);
    assert_eq!(after_attempt(Attempt::Failed { retryable: true }, 3), AttemptStep::Retry);
    assert_eq!(after_attempt(Attempt::Failed { retryable: true }, 1), AttemptStep::GiveUp);
    assert_eq!(after_attempt(Attempt::Failed { retryable: false }, 3), AttemptStep::GiveUp);
}

#[test]
fn attempts_stop_at_the_first_vector() {
    let client = Scripted::new(vec![
        Attempt::Failed { retryable: true },
        Attempt::TimedOut,
        good(&[1.0, 2.0]),
        good(&[9.0, 9.0]),
    ]);
    assert_eq!(attempt_embed(&mut &client, &request(), 5), Some(bits(&[1.0, 2.0])));
    assert_eq!(client.calls(), 3);
    assert_eq!(client.seen.borrow()[0], request());
    assert_eq!(request().model, "m");
    assert_eq!(request().dimensions, Some(2));
}

#[test]
fn attempts_are_bounded() {
    let failures = (0..9).map(|_| Attempt::Failed { retryable: true }).collect();
    let client = Scripted::new(failures);
    assert_eq!(attempt_embed(&mut &client, &request(), 3), None);
    assert_eq!(client.calls(), 3);

    let fatal = Scripted::new(vec![Attempt::Failed { retryable: false }, good(&[1.0, 2.0])]);
    assert_eq!(attempt_embed(&mut &fatal, &request(), 3), None);
    assert_eq!(fatal.calls(), 1);
}

#[test]
fn finite_vectors_hold_numbers_only() {
    assert!(vector_is_finite(&bits(&[0.0, -1.5, f32::MAX, f32::MIN_POSITIVE])));
    assert!(vector_is_finite(&Vec::new()));
    for bad in [f32::NAN, f32::INFINITY, f32::NEG_INFINITY] {
        assert!(!vector_is_finite(&bits(&[1.0, bad])));
    }
}

#[test]
fn the_second_query_is_served_from_the_cache() {
    let client = Scripted::new(vec![good(&[1.0, 2.0])]);
    let mut source = OpenAiEmbeddingSource::new(&client, &settings());
    let expected = Some(Embedding(bits(&[1.0, 2.0])));
    assert_eq!(source.embed(&sig()), expected);
    assert_eq!(source.embed(&sig()), expected);
    assert_eq!(client.calls(), 1);
}

#[test]
fn unusable_vectors_are_dropped_and_not_cached() {
    for bad in [good(&[]), good(&[1.0]), good(&[1.0, f32::NAN]), good(&[1.0, 2.0, 3.0])] {
        let client = Scripted::new(vec![bad, good(&[3.0, 4.0])]);
        let mut source = OpenAiEmbeddingSource::new(&client, &settings());
        assert_eq!(source.embed(&sig()), None);
        assert_eq!(source.embed(&sig()), Some(Embedding(bits(&[3.0, 4.0]))));
        assert_eq!(client.calls(), 2);
    }
}

#[test]
fn without_a_credential_nothing_is_asked() {
    let auth = ResolvedProviderAuth::ApiKey(String::new());
    let s = ResolvedEmbeddingSettings::resolve(&config(), &auth);
    let client = Scripted::new(vec![good(&[1.0, 2.0])]);
    assert_eq!(OpenAiEmbeddingSource::new(&client, &s).embed(&sig()), None);
    let mut writer = MemoryEmbeddingWriter::new(&client, &s);
    assert_eq!(writer.embed_for_write(&sig()), Ok(WriteEmbedding::Unavailable));
    assert_eq!(client.calls(), 0);
}

#[test]
fn the_writer_keeps_only_vectors_that_fit() {
    let fits = Scripted::new(vec![good(&[1.0, 2.0])]);
    assert_eq!(
        MemoryEmbeddingWriter::new(&fits, &settings()).embed_for_write(&sig()),
        Ok(WriteEmbedding::Embedded(Embedding(bits(&[1.0, 2.0]))))
    );
    let long = Scripted::new(vec![good(&[1.0, 2.0, 3.0])]);
    let error = EmbeddingWriteError::DimensionMismatch { actual: 3, configured: 2 };
    assert_eq!(
        MemoryEmbeddingWriter::new(&long, &settings()).embed_for_write(&sig()),
        Err(error)
    );
    assert_eq!(
        error.to_string(),
        "embedding dimension mismatch: produced vector length 3 != configured dimension 2"
    );
    let down = Scripted::new(Vec::new());
    assert_eq!(
        MemoryEmbeddingWriter::new(&down, &settings()).embed_for_write(&sig()),
        Ok(WriteEmbedding::Unavailable)
    );
}

#[test]
fn writer_and_source_must_agree_on_the_dimension() {
    let client = Scripted::new(Vec::new());
    let writer = MemoryEmbeddingWriter::new(&client, &settings());
    assert_eq!(writer.check_source_dimension(Some(2)), Ok(()));
    assert_eq!(writer.check_source_dimension(None), Ok(()));
    let error = EmbeddingWriteError::DimensionMisconfigured { writer: 2, source: 3 };
    assert_eq!(writer.check_source_dimension(Some(3)), Err(error));
    assert_eq!(
        MemoryStoreError::from(error),
        MemoryStoreError::EmbeddingDimensionMisconfigured { writer: 2, source: 3 }
    );
}

fn memory(id: &str) -> Memory {
    Memory {
        id: MemoryId::from(id),
        kind: MemoryKind::Fragment,
        intent: sig(),
        parameter_schema: ParameterSchema::default(),
        applicability: Applicability::default(),
        plan: Plan::default(),
        evidence_contract: EvidenceContract::default(),
        outcome_shape: OutcomeShape {
            result_ref: OutcomeRef::from("outcome://1"),
            schema: "s".to_owned(),
        },
        cached_outcome: None,
        provenance: Provenance::default(),
        reinforcement: Reinforcement::default(),
        version: MemoryVersion(SubtreeHash(Sha256::from("hash"))),
    }
}

fn key() -> (GoalNodeId, SubtreeHash) {
    (GoalNodeId::from("node"), SubtreeHash(Sha256::from("hash")))
}

#[test]
fn a_memory_is_kept_with_its_vector() {
    let client = Scripted::new(vec![good(&[1.0, 2.0])]);
    let mut writer = MemoryEmbeddingWriter::new(&client, &settings());
    let mut store = InMemoryMemoryStore::new();
    let id = insert_memory_with_writer(&mut writer, Some(2), &mut store, key(), memory("a"));
    assert_eq!(id, Ok(MemoryId::from("a")));
    assert_eq!(store.embeddings(), vec![Embedding(bits(&[1.0, 2.0]))]);
}

#[test]
fn a_memory_is_kept_without_a_vector_when_there_is_none() {
    let client = Scripted::new(Vec::new());
    let mut writer = MemoryEmbeddingWriter::new(&client, &settings());
    let mut store = InMemoryMemoryStore::new();
    let id = insert_memory_with_writer(&mut writer, None, &mut store, key(), memory("a"));
    assert_eq!(id, Ok(MemoryId::from("a")));
    assert_eq!(store.embeddings(), vec![Embedding(Vec::new())]);
}

#[test]
fn a_memory_is_refused_when_its_vector_does_not_fit() {
    let client = Scripted::new(vec![good(&[1.0])]);
    let mut writer = MemoryEmbeddingWriter::new(&client, &settings());
    let mut store = InMemoryMemoryStore::new();
    assert_eq!(
        insert_memory_with_writer(&mut writer, None, &mut store, key(), memory("a")),
        Err(MemoryStoreError::EmbeddingDimensionMismatch { actual: 1, configured: 2 })
    );
    assert_eq!(
        insert_memory_with_writer(&mut writer, Some(9), &mut store, key(), memory("a")),
        Err(MemoryStoreError::EmbeddingDimensionMisconfigured { writer: 2, source: 9 })
    );
    assert!(store.filter(&sig()).is_empty());
}

#[test]
fn the_first_decisive_attempt_counts() {
    let client = Scripted::new(vec![
        Attempt::Failed { retryable: true },
        Attempt::TimedOut,
        good(&[1.0, 2.0]),
        good(&[3.0, 4.0]),
    ]);
    let mut writer = MemoryEmbeddingWriter::new(&client, &settings());
    assert_eq!(
        writer.embed_for_write(&sig()),
        Ok(WriteEmbedding::Embedded(Embedding(bits(&[1.0, 2.0]))))
    );
    assert_eq!(client.calls(), 3);

    let late = Scripted::new(vec![
        Attempt::TimedOut,
        Attempt::TimedOut,
        Attempt::Failed { retryable: true },
        good(&[1.0, 2.0]),
    ]);
    let mut writer = MemoryEmbeddingWriter::new(&late, &settings());
    assert_eq!(writer.embed_for_write(&sig()), Ok(WriteEmbedding::Unavailable));
    assert_eq!(late.calls(), 3);
}
