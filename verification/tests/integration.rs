//! From a closed goal to a memory, and from a new goal to what is known.

use halter_goals::goal_model::{
    ClosureSignal, EventLogGoalStore, GoalStore, InMemoryGoalEventLog, Resolution,
};
use halter_goals::integration::{
    retrieve_advisory, start_goal, start_goal_with_summaries, AdvisorySummary,
    EngineInductionQueue, GoalStart,
};
use halter_goals::tier1::Freshness;
use halter_goals::tier2::{
    AllowListModeB, AnswerMode, Applicability, Author, AuthorError, CachedOutcome, CleanContext,
    DenyAllModeB, EvidenceContract, EvidenceContractItem, EvidenceValidator, Granularity,
    InMemoryMemoryStore, InMemoryRecurrenceTracker, InductionEngine, InductionOutcome, Judge,
    JudgeVerdict, Memory, MemoryKind, MemoryRetrieval, MemoryStore, MemoryVersion,
    NoEmbeddingClient, OutcomeShape, OutcomeValue, ParameterSchema, Plan, PlanStep, Provenance,
    Reinforcement, ReplayDecision, SummaryConfig, SummaryProvider, TokensHold,
};
use halter_goals::types::{
    CanonicalJson, Duration, GoalNodeId, IntentSignature, IntentType, MemoryId, OutcomeRef, Scope,
    SessionId, Sha256, SubtreeHash, TargetRef, TargetType, Timestamp, ToolName, ValidityToken,
};

/// The distance of two vectors: one less the cosine of their angle, or two where
/// one of them has no direction.
fn cosine_distance(a: &[f32], b: &[f32]) -> f32 {
    let dot: f32 = a.iter().zip(b).map(|(x, y)| x * y).sum();
    let norm_a: f32 = a.iter().map(|x| x * x).sum();
    let norm_b: f32 = b.iter().map(|x| x * x).sum();
    if norm_a == 0.0 || norm_b == 0.0 {
        return 2.0;
    }
    1.0 - dot / (norm_a.sqrt() * norm_b.sqrt())
}

/// The bits of each record's distance from the query.
fn distances<S: MemoryStore>(store: &S, query: &[f32]) -> Vec<u32> {
    store
        .embeddings()
        .iter()
        .map(|e| {
            let stored: Vec<f32> = e.0.iter().map(|bits| f32::from_bits(*bits)).collect();
            cosine_distance(&stored, query).to_bits()
        })
        .collect()
}

fn sig() -> IntentSignature {
    IntentSignature {
        intent_type: IntentType::from("lookup"),
        target_type: TargetType::from("file"),
        target_ref: TargetRef::from("src/lib.rs"),
        scope: Scope::from("repo"),
    }
}

fn content_token(h: &str) -> ValidityToken {
    ValidityToken::ContentHash(Sha256::from(h))
}

fn contract_item(tool: &str, args: &str, token: ValidityToken) -> EvidenceContractItem {
    EvidenceContractItem {
        tool: ToolName::from(tool),
        normalized_args: CanonicalJson(args.to_owned()),
        validity_token: token,
    }
}

struct StaleValidator;

impl EvidenceValidator for StaleValidator {
    fn revalidate_item(&mut self, _item: &EvidenceContractItem) -> Freshness {
        Freshness::Stale
    }

    fn tokens_hold(&mut self, _tokens: &[ValidityToken]) -> TokensHold {
        TokensHold::SomeStale
    }
}

fn memory_with(
    id: &str,
    cached_outcome: Option<CachedOutcome>,
    items: Vec<EvidenceContractItem>,
) -> Memory {
    Memory {
        id: MemoryId::from(id),
        kind: MemoryKind::Fragment,
        intent: sig(),
        parameter_schema: ParameterSchema::default(),
        applicability: Applicability::unconstrained(),
        plan: Plan {
            steps: vec![PlanStep {
                description: "read the file".to_owned(),
                tool: Some(ToolName::from("read_file")),
                intent: None,
            }],
        },
        evidence_contract: EvidenceContract { items },
        outcome_shape: OutcomeShape {
            result_ref: OutcomeRef::from("outcome://1"),
            schema: "file-contents".to_owned(),
        },
        cached_outcome,
        provenance: Provenance::default(),
        reinforcement: Reinforcement::default(),
        version: MemoryVersion(SubtreeHash(Sha256::from("h"))),
    }
}

fn sound_outcome(tokens: Vec<ValidityToken>) -> CachedOutcome {
    CachedOutcome {
        answer: OutcomeValue(CanonicalJson("\"answer\"".to_owned())),
        mode: AnswerMode::SoundPinnable,
        validity_tokens: tokens,
        issued_at: Timestamp(0),
    }
}

fn key(id: &str) -> (GoalNodeId, SubtreeHash) {
    (GoalNodeId::from(id), SubtreeHash(Sha256::from("h")))
}

#[test]
fn start_goal_retrieval_hit_invokes_decide_replay() {
    let token = content_token("a");
    let mut store = InMemoryMemoryStore::new();
    store
        .insert(
            key("n"),
            memory_with("m", None, vec![contract_item("read_file", "{}", token)]),
        )
        .expect("insert");
    let near = Some(distances(&store, &[0.1, 0.2, 0.3]));
    let retrieval = MemoryRetrieval::new(&store, near);

    let start = start_goal(&sig(), &retrieval, &mut StaleValidator, &DenyAllModeB, Timestamp(0));
    match start {
        GoalStart::Replay(ReplayDecision::ReplayProcedure {
            evidence,
            evidence_fully_fresh,
            ..
        }) => {
            assert_eq!(evidence.len(), 1);
            assert!(
                !evidence_fully_fresh,
                "the stale validator reports the single item's token as not holding"
            );
        }
        other => panic!("expected ReplayProcedure, got {other:?}"),
    }
}

#[test]
fn start_goal_no_candidates_returns_from_scratch() {
    let store = InMemoryMemoryStore::new();
    let near = Some(distances(&store, &[0.1, 0.2, 0.3]));
    let retrieval = MemoryRetrieval::new(&store, near);

    let start = start_goal(&sig(), &retrieval, &mut StaleValidator, &DenyAllModeB, Timestamp(0));
    assert_eq!(start, GoalStart::FromScratch);
}

#[test]
fn mode_a_stale_tokens_fall_through_to_replay() {
    let token = content_token("a");
    let mut store = InMemoryMemoryStore::new();
    store
        .insert(
            key("n"),
            memory_with("m", Some(sound_outcome(vec![token])), vec![]),
        )
        .expect("valid insert");
    let near = Some(distances(&store, &[0.1, 0.2, 0.3]));
    let retrieval = MemoryRetrieval::new(&store, near);

    let start = start_goal(&sig(), &retrieval, &mut StaleValidator, &DenyAllModeB, Timestamp(0));
    match start {
        GoalStart::Replay(ReplayDecision::ReplayProcedure { .. }) => {}
        other => panic!("expected ReplayProcedure fall-through, got {other:?}"),
    }
}

#[test]
fn retrieve_advisory_empty_store_is_empty() {
    let store = InMemoryMemoryStore::new();
    let near = Some(distances(&store, &[0.1, 0.2, 0.3]));
    let retrieval = MemoryRetrieval::new(&store, near);
    let summary_provider = SummaryProvider::new(SummaryConfig {
        enabled: true,
        max_summaries: None,
    });

    let advisory = retrieve_advisory(&sig(), &retrieval, &summary_provider);

    assert!(advisory.is_empty(), "empty store => empty advisory");
    assert_eq!(advisory, AdvisorySummary::empty());
}

#[test]
fn retrieve_advisory_returns_applicable_memories() {
    let mut store = InMemoryMemoryStore::new();
    store
        .insert(key("n"), memory_with("m", None, vec![]))
        .expect("insert");
    let near = Some(distances(&store, &[0.1, 0.2, 0.3]));
    let retrieval = MemoryRetrieval::new(&store, near);
    let summary_provider = SummaryProvider::new(SummaryConfig::default());

    let advisory = retrieve_advisory(&sig(), &retrieval, &summary_provider);

    assert!(!advisory.is_empty(), "an applicable memory => non-empty advisory");
    assert_eq!(advisory.memories.len(), 1, "the single applicable memory is surfaced");
    assert_eq!(
        advisory.memories[0].memory.id,
        MemoryId::from("m"),
        "the surfaced memory is the one inserted"
    );
}

struct ApprovingJudge;
impl Judge for ApprovingJudge {
    fn evaluate(&mut self, _ctx: &CleanContext) -> JudgeVerdict {
        JudgeVerdict::approve(Granularity::Fragment, "worth it")
    }
}

struct SimpleAuthor;
impl Author for SimpleAuthor {
    fn write(
        &mut self,
        _granularity: Granularity,
        ctx: &CleanContext,
    ) -> Result<Memory, AuthorError> {
        Ok(Memory {
            id: MemoryId::from(format!("mem-{}", ctx.node().id.0)),
            kind: MemoryKind::Fragment,
            intent: ctx.node().intent.clone(),
            parameter_schema: ParameterSchema::default(),
            applicability: Applicability::unconstrained(),
            plan: Plan {
                steps: vec![PlanStep {
                    description: "authored step".to_owned(),
                    tool: Some(ToolName::from("read_file")),
                    intent: None,
                }],
            },
            evidence_contract: EvidenceContract::default(),
            outcome_shape: OutcomeShape {
                result_ref: OutcomeRef::from("outcome://authored"),
                schema: "s".to_owned(),
            },
            cached_outcome: None,
            provenance: Provenance::default(),
            reinforcement: Reinforcement::default(),
            version: MemoryVersion(
                ctx.node()
                    .subtree_hash
                    .clone()
                    .unwrap_or(SubtreeHash(Sha256::from("v"))),
            ),
        })
    }
}

type Engine = InductionEngine<
    InMemoryMemoryStore,
    InMemoryRecurrenceTracker,
    ApprovingJudge,
    SimpleAuthor,
    NoEmbeddingClient,
>;

fn induction_engine(threshold: u64) -> Engine {
    InductionEngine::new(
        InMemoryMemoryStore::new(),
        InMemoryRecurrenceTracker::new(),
        ApprovingJudge,
        SimpleAuthor,
        threshold,
    )
}

#[test]
fn engine_queue_run_induces_memory_from_closed_node() {
    let mut goal_store = EventLogGoalStore::new(InMemoryGoalEventLog::new());

    let session = SessionId::from("s1");
    let id = goal_store
        .create(&session, None, "hyp".to_owned(), sig())
        .expect("create");
    let outcome = goal_store
        .close(&session, &id, Resolution::Accepted)
        .expect("close");
    let hash = outcome.subtree_hash.expect("closed carries hash");

    let signal = ClosureSignal::new(session.clone(), id.clone(), hash);
    let mut queue = EngineInductionQueue::new(goal_store, induction_engine(1));
    let result = queue.run(&signal);

    assert!(
        matches!(result, Some(InductionOutcome::Inserted(_))),
        "induction ran end to end and inserted a memory, got {result:?}"
    );
    assert_eq!(queue.engine().store().filter(&sig()).len(), 1);
}

#[test]
fn mode_b_opted_in_within_age_serves_believed_unverified() {
    let outcome = CachedOutcome {
        answer: OutcomeValue(CanonicalJson("\"volatile\"".to_owned())),
        mode: AnswerMode::BoundedVolatile {
            max_age: Duration(100),
        },
        validity_tokens: vec![ValidityToken::Ttl {
            issued_at: Timestamp(0),
            ttl: Duration(1_000),
        }],
        issued_at: Timestamp(10),
    };
    let mut store = InMemoryMemoryStore::new();
    store
        .insert(key("n"), memory_with("m", Some(outcome), vec![]))
        .expect("insert");
    let near = Some(distances(&store, &[0.1, 0.2, 0.3]));
    let retrieval = MemoryRetrieval::new(&store, near);
    let policy = AllowListModeB::new(vec![IntentType::from("lookup")]);

    let start = start_goal(&sig(), &retrieval, &mut StaleValidator, &policy, Timestamp(50));
    match start {
        GoalStart::Replay(ReplayDecision::ServeAnswer { verified, .. }) => {
            assert!(!verified, "Mode B is always believed-unverified");
        }
        other => panic!("expected Mode B ServeAnswer, got {other:?}"),
    }
}

#[test]
fn start_goal_with_summaries_empty_candidates_yields_empty_and_from_scratch() {
    let store = InMemoryMemoryStore::new();
    let near = Some(distances(&store, &[0.1, 0.2, 0.3]));
    let retrieval = MemoryRetrieval::new(&store, near);

    let summary_provider = SummaryProvider::new(SummaryConfig {
        enabled: true,
        max_summaries: None,
    });
    let with = start_goal_with_summaries(
        &sig(),
        &retrieval,
        &mut StaleValidator,
        &DenyAllModeB,
        Timestamp(0),
        &summary_provider,
    );
    assert_eq!(
        with.start,
        GoalStart::FromScratch,
        "no candidates => from-scratch replay decision"
    );
    assert!(
        with.summaries.is_empty(),
        "no candidates => empty summary set"
    );
}

#[test]
fn start_goal_with_summaries_disabled_matches_start_goal() {
    let token = content_token("a");
    let mut store = InMemoryMemoryStore::new();
    store
        .insert(
            key("n"),
            memory_with("m", Some(sound_outcome(vec![token])), vec![]),
        )
        .expect("valid insert");
    let near = Some(distances(&store, &[0.1, 0.2, 0.3]));
    let retrieval = MemoryRetrieval::new(&store, near);

    let plain =
        start_goal(&sig(), &retrieval, &mut StaleValidator, &DenyAllModeB, Timestamp(0));

    let summary_provider = SummaryProvider::new(SummaryConfig::default());
    let with = start_goal_with_summaries(
        &sig(),
        &retrieval,
        &mut StaleValidator,
        &DenyAllModeB,
        Timestamp(0),
        &summary_provider,
    );

    assert_eq!(
        with.start, plain,
        "a disabled provider leaves the replay decision identical to start_goal"
    );
    assert!(
        with.summaries.is_empty(),
        "a disabled provider produces no freshly retrieved summaries"
    );
}

#[test]
fn a_learned_goal_starts_with_replay() {
    let mut goal_store = EventLogGoalStore::new(InMemoryGoalEventLog::new());
    let session = SessionId::from("s1");
    let id = goal_store.create(&session, None, "hyp".to_owned(), sig()).expect("create");
    let hash = goal_store
        .close(&session, &id, Resolution::Accepted)
        .expect("close")
        .subtree_hash
        .expect("closed carries hash");
    let mut queue = EngineInductionQueue::new(goal_store, induction_engine(1));
    let signal = ClosureSignal::new(session, id, hash);

    let start = |queue: &EngineInductionQueue<_, _, _, _, _, _>| {
        let retrieval = MemoryRetrieval::new(queue.engine().store(), None);
        start_goal(&sig(), &retrieval, &mut StaleValidator, &DenyAllModeB, Timestamp(0))
    };
    assert_eq!(start(&queue), GoalStart::FromScratch);
    queue.run(&signal).expect("the node is there");
    assert!(matches!(
        start(&queue),
        GoalStart::Replay(ReplayDecision::ReplayProcedure { .. })
    ));

    // Running again reinforces and keeps no second memory.
    assert!(matches!(queue.run(&signal), Some(InductionOutcome::Reinforced(_))));
    assert_eq!(queue.engine().store().filter(&sig()).len(), 1);
}
