//! Finding memories.

use halter_goals::tier2::retrieval::dedupe_union;
use halter_goals::tier2::{
    cheap_score, Applicability, Embedding, EmbeddingSource, EvidenceContract, InMemoryMemoryStore,
    Memory, MemoryKind, MemoryRetrieval, MemoryStore, MemoryStoreError, MemoryVersion,
    OutcomeShape, ParameterSchema, Plan, Provenance, Reinforcement, Retrieval, ScoredMemory,
    HEAD_MIN, TAIL_LIMIT,
};
use halter_goals::types::{
    GoalNodeId, IntentSignature, IntentType, MemoryId, OutcomeRef, Scope, Sha256, SubtreeHash,
    TargetRef, TargetType,
};

/// The distance of two vectors: one less the cosine of their angle, or two where
/// one of them has no direction.
fn cosine_distance(a: &[f32], b: &[f32]) -> f32 {
    let dot: f32 = a.iter().zip(b).map(|(x, y)| x * y).sum();
    let norm_a: f32 = a.iter().map(|x| x * x).sum();
    let norm_b: f32 = b.iter().map(|x| x * x).sum();
    if norm_a == 0.0 || norm_b == 0.0 {
        return 2.0;
    }
    1.0 - dot / (norm_a.sqrt() * norm_b.sqrt())
}

/// The bits of each record's distance from the query.
fn distances<S: MemoryStore>(store: &S, query: &[f32]) -> Vec<u32> {
    store
        .embeddings()
        .iter()
        .map(|e| {
            let stored: Vec<f32> = e.0.iter().map(|bits| f32::from_bits(*bits)).collect();
            cosine_distance(&stored, query).to_bits()
        })
        .collect()
}

fn sig() -> IntentSignature {
    IntentSignature {
        intent_type: IntentType::from("lookup"),
        target_type: TargetType::from("file"),
        target_ref: TargetRef::from("src/lib.rs"),
        scope: Scope::from("repo"),
    }
}

fn memory_with(id: &str, intent: IntentSignature) -> Memory {
    Memory {
        id: MemoryId::from(id),
        kind: MemoryKind::Fragment,
        intent,
        parameter_schema: ParameterSchema::default(),
        applicability: Applicability::unconstrained(),
        plan: Plan::default(),
        evidence_contract: EvidenceContract::default(),
        outcome_shape: OutcomeShape {
            result_ref: OutcomeRef::from("outcome://1"),
            schema: "s".to_owned(),
        },
        cached_outcome: None,
        provenance: Provenance::default(),
        reinforcement: Reinforcement::default(),
        version: MemoryVersion(SubtreeHash(Sha256::from("h"))),
    }
}

fn key() -> (GoalNodeId, SubtreeHash) {
    (GoalNodeId::from("n"), SubtreeHash(Sha256::from("h")))
}

fn insert(store: &mut InMemoryMemoryStore, mem: Memory) -> Result<MemoryId, MemoryStoreError> {
    store.insert(key(), mem)
}

/// A backend that may be down, and how often it was asked.
struct Embedder {
    embedding: Option<Embedding>,
    calls: usize,
}

impl Embedder {
    fn available() -> Self {
        let bits = [0.1_f32, 0.2, 0.3].iter().map(|v| v.to_bits()).collect();
        Self { embedding: Some(Embedding(bits)), calls: 0 }
    }

    fn down() -> Self {
        Self { embedding: None, calls: 0 }
    }
}

impl EmbeddingSource for Embedder {
    fn embed(&mut self, _sig: &IntentSignature) -> Option<Embedding> {
        self.calls += 1;
        self.embedding.clone()
    }
}

/// Retrieves, asking the backend only if the retrieval wants a vector.
fn retrieve(
    store: &InMemoryMemoryStore,
    embedder: &mut Embedder,
    head_min: usize,
    tail_limit: usize,
) -> Vec<ScoredMemory> {
    let plain = MemoryRetrieval::with_bounds(store, None, head_min, tail_limit);
    if !plain.wants_vector(&sig()) {
        return plain.retrieve_memories(&sig());
    }
    let vector = embedder.embed(&sig());
    let near = vector.map(|v| {
        let query: Vec<f32> = v.0.iter().map(|b| f32::from_bits(*b)).collect();
        distances(store, &query)
    });
    MemoryRetrieval::with_bounds(store, near, head_min, tail_limit).retrieve_memories(&sig())
}

#[test]
fn structured_head_used_without_embedding_when_head_not_thin() {
    let mut store = InMemoryMemoryStore::new();
    for i in 0..HEAD_MIN {
        insert(&mut store, memory_with(&format!("head-{i}"), sig())).unwrap();
    }
    let mut embedder = Embedder::available();

    let results = retrieve(&store, &mut embedder, HEAD_MIN, TAIL_LIMIT);

    assert_eq!(results.len(), HEAD_MIN, "the head is the candidate set");
    assert_eq!(
        embedder.calls,
        0,
        "embedding recall must not be invoked when the head is not thin"
    );
}

#[test]
fn thin_head_invokes_embedding_recall_and_dedupes_union_by_id() {
    let mut store = InMemoryMemoryStore::new();
    insert(&mut store, memory_with("shared", sig())).unwrap();
    insert(&mut store, memory_with("tail-only", sig())).unwrap();

    let mut embedder = Embedder::available();

    let results = retrieve(&store, &mut embedder, HEAD_MIN, TAIL_LIMIT);

    assert_eq!(embedder.calls, 1, "thin head must invoke embedding recall");
    let shared_count = results
        .iter()
        .filter(|s| s.memory.id == MemoryId::from("shared"))
        .count();
    assert_eq!(shared_count, 1, "a memory in head and tail appears once");
    let ids: std::collections::HashSet<_> =
        results.iter().map(|s| s.memory.id.clone()).collect();
    assert_eq!(ids.len(), 2, "union deduped to two distinct memories");
    assert!(ids.contains(&MemoryId::from("shared")));
    assert!(ids.contains(&MemoryId::from("tail-only")));
}

#[test]
fn tail_candidate_failing_applicability_is_excluded() {
    let mut store = InMemoryMemoryStore::new();
    let mut non_applicable = memory_with("bad", sig());
    non_applicable.applicability = Applicability {
        required_intent_type: Some(IntentType::from("mutate")),
        ..Applicability::default()
    };
    insert(&mut store, non_applicable).unwrap();

    let mut embedder = Embedder::available();

    let results = retrieve(&store, &mut embedder, HEAD_MIN, TAIL_LIMIT);

    assert!(
        results.is_empty(),
        "a candidate failing applicability must be excluded"
    );
}

#[test]
fn results_ordered_by_score_descending_full_match_outranks_weaker() {
    let mut store = InMemoryMemoryStore::new();

    insert(&mut store, memory_with("full", sig())).unwrap();

    let weaker_intent = IntentSignature {
        target_ref: TargetRef::from("src/other.rs"),
        ..sig()
    };
    insert(&mut store, memory_with("weak", weaker_intent)).unwrap();

    let mut embedder = Embedder::available();

    let results = retrieve(&store, &mut embedder, HEAD_MIN, TAIL_LIMIT);

    assert_eq!(results.len(), 2);
    assert_eq!(
        results[0].memory.id,
        MemoryId::from("full"),
        "the full structured match must rank first"
    );
    assert!(
        results[0].score > results[1].score,
        "results must be ordered by score descending"
    );
    assert_eq!(results[0].score, 4);
    assert_eq!(results[1].score, 3);
}

#[test]
fn backend_down_degrades_to_head_only_without_error() {
    let mut store = InMemoryMemoryStore::new();
    insert(&mut store, memory_with("head", sig())).unwrap();

    let mut embedder = Embedder::down();

    let results = retrieve(&store, &mut embedder, HEAD_MIN, TAIL_LIMIT);

    assert_eq!(embedder.calls, 1, "the backend was consulted");
    assert_eq!(results.len(), 1, "structured head is returned");
    assert_eq!(results[0].memory.id, MemoryId::from("head"));
}

#[test]
fn tail_recall_bound_by_tail_limit() {
    let mut store = InMemoryMemoryStore::new();
    for i in 0..8 {
        insert(&mut store, memory_with(&format!("m-{i}"), sig())).unwrap();
    }

    let mut embedder = Embedder::available();

    let tail = store.ann_recall(&distances(&store, &[0.1, 0.2, 0.3]), 2);
    assert_eq!(tail.len(), 2, "ann_recall itself respects the tail limit");

    let results = retrieve(&store, &mut embedder, 100, 2);
    assert_eq!(results.len(), 8, "head union is complete; tail was bounded");
}

#[test]
fn the_first_of_two_with_the_same_identifier_stays() {
    let mut second = memory_with("a", sig());
    second.outcome_shape.schema = "second".to_owned();
    let union = dedupe_union(
        vec![memory_with("a", sig()), memory_with("b", sig())],
        vec![second, memory_with("c", sig())],
    );
    assert_eq!(
        union,
        vec![memory_with("a", sig()), memory_with("b", sig()), memory_with("c", sig())]
    );
}

#[test]
fn a_score_counts_matching_fields() {
    let other = IntentSignature {
        intent_type: IntentType::from("mutate"),
        target_type: TargetType::from("table"),
        target_ref: TargetRef::from("x"),
        scope: Scope::from("repo"),
    };
    assert_eq!(cheap_score(&memory_with("m", sig()), &sig()), 4);
    assert_eq!(cheap_score(&memory_with("m", other), &sig()), 1);
}

#[test]
fn equal_scores_keep_their_order() {
    let mut store = InMemoryMemoryStore::new();
    for id in ["c", "a", "b", "d"] {
        insert(&mut store, memory_with(id, sig())).unwrap();
    }
    let found = MemoryRetrieval::new(&store, None).retrieve_memories(&sig());
    let ids: Vec<&str> = found.iter().map(|s| s.memory.id.0.as_str()).collect();
    assert_eq!(ids, vec!["c", "a", "b", "d"]);
}

#[test]
fn everything_that_applies_is_found_once() {
    let mut store = InMemoryMemoryStore::new();
    for id in ["a", "b"] {
        insert(&mut store, memory_with(id, sig())).unwrap();
    }
    let mut elsewhere = memory_with("x", sig());
    elsewhere.applicability.required_scope = Some(Scope::from("elsewhere"));
    insert(&mut store, elsewhere).unwrap();
    let near = Some(distances(&store, &[1.0]));
    for retrieval in [MemoryRetrieval::new(&store, None), MemoryRetrieval::new(&store, near)] {
        let found = retrieval.retrieve_memories(&sig());
        let ids: Vec<&str> = found.iter().map(|s| s.memory.id.0.as_str()).collect();
        assert_eq!(ids, vec!["a", "b"]);
    }
}
