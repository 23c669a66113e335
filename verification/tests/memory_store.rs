//! The store of memories.

use halter_goals::tier2::store::{total_order_key, validate_memory};
use halter_goals::tier2::{
    AnswerMode, Applicability, CachedOutcome, Embedding, EvidenceContract, EvidenceContractItem,
    InMemoryMemoryStore, Memory, MemoryKind, MemoryStore, MemoryStoreError, MemoryVersion,
    OutcomeShape, OutcomeValue, ParameterSchema, Plan, PlanStep, Provenance, Reinforcement,
};
use halter_goals::types::{
    CanonicalJson, Duration, EventKey, EventSeq, GoalNodeId, IntentSignature, IntentType, MemoryId,
    OutcomeRef, Scope, Sha256, SubtreeHash, TargetRef, TargetType, Timestamp, ToolName,
    ValidityToken,
};

/// The distance of two vectors: one less the cosine of their angle, or two where
/// one of them has no direction.
fn cosine_distance(a: &[f32], b: &[f32]) -> f32 {
    let dot: f32 = a.iter().zip(b).map(|(x, y)| x * y).sum();
    let norm_a: f32 = a.iter().map(|x| x * x).sum();
    let norm_b: f32 = b.iter().map(|x| x * x).sum();
    if norm_a == 0.0 || norm_b == 0.0 {
        return 2.0;
    }
    1.0 - dot / (norm_a.sqrt() * norm_b.sqrt())
}

/// The bits of each record's distance from the query.
fn distances<S: MemoryStore>(store: &S, query: &[f32]) -> Vec<u32> {
    store
        .embeddings()
        .iter()
        .map(|e| {
            let stored: Vec<f32> = e.0.iter().map(|bits| f32::from_bits(*bits)).collect();
            cosine_distance(&stored, query).to_bits()
        })
        .collect()
}

fn recall(store: &InMemoryMemoryStore, query: &[f32], limit: usize) -> Vec<Memory> {
    store.ann_recall(&distances(store, query), limit)
}

fn sig() -> IntentSignature {
    IntentSignature {
        intent_type: IntentType::from("lookup"),
        target_type: TargetType::from("file"),
        target_ref: TargetRef::from("src/lib.rs"),
        scope: Scope::from("repo"),
    }
}

fn contract_item() -> EvidenceContractItem {
    EvidenceContractItem {
        tool: ToolName::from("read_file"),
        normalized_args: CanonicalJson("{\"path\":\"src/lib.rs\"}".to_owned()),
        validity_token: ValidityToken::ContentHash(Sha256::from("abc123")),
    }
}

fn valid_memory(id: &str) -> Memory {
    Memory {
        id: MemoryId::from(id),
        kind: MemoryKind::Fragment,
        intent: sig(),
        parameter_schema: ParameterSchema::default(),
        applicability: Applicability {
            required_intent_type: Some(IntentType::from("lookup")),
            ..Applicability::default()
        },
        plan: Plan::default(),
        evidence_contract: EvidenceContract {
            items: vec![contract_item()],
        },
        outcome_shape: OutcomeShape {
            result_ref: OutcomeRef::from("outcome://1"),
            schema: "file-contents".to_owned(),
        },
        cached_outcome: Some(CachedOutcome {
            answer: OutcomeValue(CanonicalJson("{\"lines\":42}".to_owned())),
            mode: AnswerMode::SoundPinnable,
            validity_tokens: vec![ValidityToken::ContentHash(Sha256::from("abc123"))],
            issued_at: Timestamp(1_000),
        }),
        provenance: Provenance {
            origins: vec![(
                GoalNodeId::from("node-1"),
                SubtreeHash(Sha256::from("hash-1")),
            )],
        },
        reinforcement: Reinforcement::default(),
        version: MemoryVersion(SubtreeHash(Sha256::from("hash-1"))),
    }
}

fn key() -> (GoalNodeId, SubtreeHash) {
    (
        GoalNodeId::from("node-1"),
        SubtreeHash(Sha256::from("hash-1")),
    )
}

#[test]
fn valid_insert_succeeds_and_is_retrievable_via_filter() {
    let mut store = InMemoryMemoryStore::new();
    let mem = valid_memory("mem-1");

    let id = store.insert(key(), mem).expect("valid insert should succeed");
    assert_eq!(id, MemoryId::from("mem-1"));

    let found = store.filter(&sig());
    assert_eq!(found.len(), 1, "the inserted memory must be retrievable");
    assert_eq!(found[0].id, MemoryId::from("mem-1"));
}

#[test]
fn negative_memory_without_evidence_contract_is_rejected() {
    let mut store = InMemoryMemoryStore::new();
    let mut mem = valid_memory("neg-1");
    mem.kind = MemoryKind::Negative;
    mem.evidence_contract = EvidenceContract::default();
    mem.cached_outcome = None;

    let err = store.insert(key(), mem).expect_err("empty contract must reject");
    assert_eq!(err, MemoryStoreError::MissingEvidenceContract);
    assert!(store.filter(&sig()).is_empty());
}

#[test]
fn negative_memory_with_evidence_contract_succeeds() {
    let mut store = InMemoryMemoryStore::new();
    let mut mem = valid_memory("neg-2");
    mem.kind = MemoryKind::Negative;
    mem.cached_outcome = None;

    store.insert(key(), mem).expect("negative with contract should succeed");
}

#[test]
fn cached_outcome_with_empty_validity_tokens_is_rejected() {
    let mut store = InMemoryMemoryStore::new();
    let mut mem = valid_memory("mem-2");
    if let Some(cached) = mem.cached_outcome.as_mut() {
        cached.validity_tokens.clear();
    }

    let err = store
        .insert(key(), mem)
        .expect_err("empty validity tokens must reject");
    assert_eq!(err, MemoryStoreError::EmptyValidityTokens);
    assert!(store.filter(&sig()).is_empty());
}

#[test]
fn sound_pinnable_with_volatile_token_is_rejected() {
    let mut store = InMemoryMemoryStore::new();

    let mut ttl_mem = valid_memory("mem-ttl");
    if let Some(cached) = ttl_mem.cached_outcome.as_mut() {
        cached.validity_tokens = vec![ValidityToken::Ttl {
            issued_at: Timestamp(0),
            ttl: Duration(1_000),
        }];
    }
    let err = store
        .insert(key(), ttl_mem)
        .expect_err("SoundPinnable + Ttl must reject");
    assert_eq!(err, MemoryStoreError::UnsoundPinnableTokens);

    let mut ev_mem = valid_memory("mem-ev");
    if let Some(cached) = ev_mem.cached_outcome.as_mut() {
        cached.validity_tokens = vec![ValidityToken::EventDriven {
            subscription: EventKey::from("fs"),
            last_seen: EventSeq(1),
        }];
    }
    let err = store
        .insert(key(), ev_mem)
        .expect_err("SoundPinnable + EventDriven must reject");
    assert_eq!(err, MemoryStoreError::UnsoundPinnableTokens);

    assert!(store.filter(&sig()).is_empty());
}

#[test]
fn sound_pinnable_with_only_content_hash_tokens_succeeds() {
    let mut store = InMemoryMemoryStore::new();
    let mut mem = valid_memory("mem-pure");
    if let Some(cached) = mem.cached_outcome.as_mut() {
        cached.validity_tokens = vec![
            ValidityToken::ContentHash(Sha256::from("h1")),
            ValidityToken::ContentHash(Sha256::from("h2")),
        ];
    }
    store
        .insert(key(), mem)
        .expect("SoundPinnable with only ContentHash tokens should succeed");
}

#[test]
fn filter_returns_only_applicable_memories() {
    let mut store = InMemoryMemoryStore::new();

    store.insert(key(), valid_memory("mem-applies")).unwrap();

    let mut other = valid_memory("mem-other");
    other.applicability = Applicability {
        required_intent_type: Some(IntentType::from("mutate")),
        ..Applicability::default()
    };
    store.insert(key(), other).unwrap();

    let found = store.filter(&sig());
    assert_eq!(found.len(), 1, "only the applicable memory is returned");
    assert_eq!(found[0].id, MemoryId::from("mem-applies"));
}

#[test]
fn ann_recall_respects_limit() {
    let mut store = InMemoryMemoryStore::new();
    for i in 0..5 {
        store
            .insert(key(), valid_memory(&format!("mem-{i}")))
            .unwrap();
    }

    let recalled = recall(&store, &[0.1, 0.2, 0.3], 3);
    assert_eq!(recalled.len(), 3, "ann_recall must not exceed the limit");

    assert!(
        recall(&store, &[0.0], 0).is_empty(),
        "a zero limit yields no results"
    );
}

#[test]
fn reinforce_updates_bookkeeping_on_existing_memory() {
    let mut store = InMemoryMemoryStore::new();
    let id = store.insert(key(), valid_memory("mem-r")).unwrap();

    let returned = store
        .reinforce(&id, valid_memory("mem-r"))
        .expect("reinforce of a valid candidate should succeed");
    assert_eq!(returned, id);

    let found = store.filter(&sig());
    let mem = found
        .iter()
        .find(|m| m.id == id)
        .expect("reinforced memory present");
    assert_eq!(mem.reinforcement.hits, 1);
    assert_eq!(mem.reinforcement.confirms, 1);
}

#[test]
fn has_memory_for_finds_by_idempotency_key() {
    let mut store = InMemoryMemoryStore::new();
    assert!(
        store.has_memory_for(&key()).is_none(),
        "empty store has no memory for the key"
    );

    let id = store.insert(key(), valid_memory("mem-k")).unwrap();
    assert_eq!(
        store.has_memory_for(&key()),
        Some(id),
        "the memory is found by its (node_id, subtree_hash) key"
    );

    let other_key = (
        GoalNodeId::from("node-2"),
        SubtreeHash(Sha256::from("hash-2")),
    );
    assert!(store.has_memory_for(&other_key).is_none());
}

#[test]
fn find_duplicate_matches_on_intent_and_plan() {
    let mut store = InMemoryMemoryStore::new();
    let mem = valid_memory("mem-d");
    let intent = mem.intent.clone();
    let plan = mem.plan.clone();
    assert!(
        store.find_duplicate(&intent, &plan).is_none(),
        "empty store has no duplicate"
    );

    let id = store.insert(key(), mem).unwrap();
    assert_eq!(
        store.find_duplicate(&intent, &plan),
        Some(id),
        "an intent+plan match is found"
    );

    let other_plan = Plan {
        steps: vec![PlanStep {
            description: "different step".to_owned(),
            tool: None,
            intent: None,
        }],
    };
    assert!(store.find_duplicate(&intent, &other_plan).is_none());
}

#[test]
fn reinforce_rejects_invalid_candidate() {
    let mut store = InMemoryMemoryStore::new();
    let id = store.insert(key(), valid_memory("mem-rv")).unwrap();

    let mut bad = valid_memory("mem-rv");
    if let Some(cached) = bad.cached_outcome.as_mut() {
        cached.validity_tokens.clear();
    }
    let err = store
        .reinforce(&id, bad)
        .expect_err("invalid candidate must be rejected");
    assert_eq!(err, MemoryStoreError::EmptyValidityTokens);
}

fn bits(values: &[f32]) -> Embedding {
    Embedding(values.iter().map(|v| v.to_bits()).collect())
}

fn ids(memories: &[Memory]) -> Vec<String> {
    memories.iter().map(|m| m.id.0.clone()).collect()
}

#[test]
fn recall_is_nearest_first() {
    let mut store = InMemoryMemoryStore::new();
    store.insert_with_embedding(key(), valid_memory("far"), bits(&[-1.0, 0.0])).unwrap();
    store.insert(key(), valid_memory("none")).unwrap();
    store.insert_with_embedding(key(), valid_memory("near"), bits(&[1.0, 0.1])).unwrap();
    store.insert_with_embedding(key(), valid_memory("same"), bits(&[2.0, 0.0])).unwrap();

    let all = recall(&store, &[1.0, 0.0], 10);
    assert_eq!(ids(&all), vec!["same", "near", "far", "none"]);
    assert_eq!(ids(&recall(&store, &[1.0, 0.0], 2)), vec!["same", "near"]);
}

#[test]
fn equal_distances_keep_the_order_of_the_records() {
    let mut store = InMemoryMemoryStore::new();
    for id in ["b", "a", "c"] {
        store.insert(key(), valid_memory(id)).unwrap();
    }
    assert_eq!(ids(&recall(&store, &[1.0], 10)), vec!["b", "a", "c"]);
}

#[test]
fn order_keys_sort_as_numbers_do() {
    let numbers: [f32; 7] = [f32::NEG_INFINITY, -2.0, -0.5, 0.0, 0.5, 2.0, f32::INFINITY];
    for pair in numbers.windows(2) {
        assert!(total_order_key(pair[0].to_bits()) < total_order_key(pair[1].to_bits()));
    }
    assert_eq!(total_order_key(0), 0x8000_0000);
    assert_eq!(total_order_key(0xffff_ffff), 0);
    assert!(total_order_key(f32::NAN.to_bits()) > total_order_key(f32::INFINITY.to_bits()));
}

#[test]
fn a_rejected_write_changes_nothing() {
    let mut store = InMemoryMemoryStore::new();
    store.insert(key(), valid_memory("kept")).unwrap();
    let mut bad = valid_memory("kept");
    bad.kind = MemoryKind::Negative;
    bad.evidence_contract = EvidenceContract::default();
    bad.cached_outcome = None;
    assert_eq!(
        store.insert(key(), bad.clone()),
        Err(MemoryStoreError::MissingEvidenceContract)
    );
    assert_eq!(
        store.reinforce(&MemoryId::from("kept"), bad),
        Err(MemoryStoreError::MissingEvidenceContract)
    );
    assert_eq!(store.filter(&sig()), vec![valid_memory("kept")]);
}

#[test]
fn inserting_again_replaces_in_place() {
    let mut store = InMemoryMemoryStore::new();
    store.insert(key(), valid_memory("a")).unwrap();
    store.insert(key(), valid_memory("b")).unwrap();
    let mut changed = valid_memory("a");
    changed.outcome_shape.schema = "changed".to_owned();
    store.insert(key(), changed.clone()).unwrap();
    assert_eq!(store.filter(&sig()), vec![changed, valid_memory("b")]);
}

#[test]
fn reinforcing_counts_and_advances_the_clock() {
    let mut store = InMemoryMemoryStore::new();
    let id = store.insert(key(), valid_memory("mem-r")).unwrap();
    for n in 1..4 {
        store.reinforce(&id, valid_memory("mem-r")).unwrap();
        let found = store.filter(&sig());
        assert_eq!(
            found[0].reinforcement,
            Reinforcement { hits: n, confirms: n, contradicts: 0, last_updated: Timestamp(n) }
        );
    }
}

#[test]
fn full_counts_stay_full() {
    let mut store = InMemoryMemoryStore::new();
    let mut mem = valid_memory("full");
    mem.reinforcement.hits = u64::MAX;
    mem.reinforcement.confirms = u64::MAX - 1;
    let id = store.insert(key(), mem.clone()).unwrap();
    store.reinforce(&id, mem).unwrap();
    let found = store.filter(&sig());
    assert_eq!(found[0].reinforcement.hits, u64::MAX);
    assert_eq!(found[0].reinforcement.confirms, u64::MAX);
}

#[test]
fn reinforcing_an_unknown_memory_keeps_it() {
    let mut store = InMemoryMemoryStore::new();
    let id = MemoryId::from("new");
    assert_eq!(store.reinforce(&id, valid_memory("new")), Ok(id.clone()));
    assert_eq!(store.filter(&sig()), vec![valid_memory("new")]);
    // The first origin and the version are what it is found under.
    assert_eq!(store.has_memory_for(&key()), Some(id));
}

#[test]
fn reinforcing_an_unknown_identifier_keeps_the_candidate_under_it() {
    let mut store = InMemoryMemoryStore::new();
    let id = MemoryId::from("asked-for");
    let mut candidate = valid_memory("own");
    candidate.provenance = Provenance::default();
    let fresh = GoalNodeId::from("fresh");
    assert_eq!(store.reinforce_from(&id, candidate, fresh), Ok(id.clone()));
    assert_eq!(ids(&store.filter(&sig())), vec!["asked-for"]);
    let origin = (GoalNodeId::from("fresh"), SubtreeHash(Sha256::from("hash-1")));
    assert_eq!(store.has_memory_for(&origin), Some(id));
}

#[test]
fn errors_say_what_is_wrong() {
    let messages = [
        (
            MemoryStoreError::InvalidMemoryKind,
            "invalid memory kind: kind is absent or outside the permitted set",
        ),
        (
            MemoryStoreError::MissingEvidenceContract,
            "missing evidence contract: a Negative memory requires a non-empty evidence contract",
        ),
        (
            MemoryStoreError::EmptyValidityTokens,
            "empty validity tokens: a cached outcome requires at least one validity token",
        ),
        (
            MemoryStoreError::UnsoundPinnableTokens,
            "unsound pinnable tokens: a SoundPinnable answer must depend only on pinnable \
             ContentHash tokens",
        ),
        (
            MemoryStoreError::EmbeddingDimensionMismatch { actual: 3, configured: 1536 },
            "embedding dimension mismatch: produced vector length 3 != configured dimension 1536",
        ),
        (
            MemoryStoreError::EmbeddingDimensionMisconfigured { writer: 3, source: 4 },
            "embedding dimension misconfigured: writer dimension 3 != source dimension 4",
        ),
    ];
    for (error, message) in messages {
        assert_eq!(error.to_string(), message);
    }
}

#[test]
fn a_volatile_answer_may_rest_on_volatile_tokens() {
    let mut mem = valid_memory("mem-b");
    if let Some(cached) = mem.cached_outcome.as_mut() {
        cached.mode = AnswerMode::BoundedVolatile { max_age: Duration(10) };
        cached.validity_tokens = vec![ValidityToken::EventDriven {
            subscription: EventKey::from("fs"),
            last_seen: EventSeq(1),
        }];
    }
    assert_eq!(validate_memory(&mem), Ok(()));
}

#[test]
fn reinforcing_merges_the_origins() {
    let origin = |n: &str| (GoalNodeId::from(n), SubtreeHash(Sha256::from(n)));
    let mut stored = valid_memory("m");
    stored.provenance.origins = vec![origin("a"), origin("b")];
    let mut candidate = valid_memory("other");
    candidate.provenance.origins = vec![origin("c"), origin("b"), origin("c"), origin("d")];
    let mut store = InMemoryMemoryStore::new();
    let id = store.insert(key(), stored).unwrap();
    store.reinforce(&id, candidate).unwrap();
    assert_eq!(
        store.filter(&sig())[0].provenance.origins,
        vec![origin("a"), origin("b"), origin("c"), origin("d")]
    );
}
