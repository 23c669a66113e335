//! Learning memories.

use std::sync::atomic::{AtomicUsize, Ordering};
use std::sync::Arc;

use halter_goals::goal_model::{GoalNode, Resolution};
use halter_goals::tier2::{
    AnswerMode, Applicability, Author, AuthorError, CachedOutcome, CleanContext, Decision,
    DistilledNode, EvidenceContract, EvidenceContractItem, Granularity, InMemoryMemoryStore,
    InMemoryRecurrenceTracker, InductionEngine, InductionOutcome, Judge, JudgeVerdict, Memory,
    MemoryKind, MemoryStore, MemoryVersion, NoEmbeddingClient, OutcomeShape, OutcomeValue,
    ParameterSchema, Plan, PlanStep, Provenance, RecurrenceTracker, Reinforcement,
};
use halter_goals::types::{
    CanonicalJson, GoalNodeId, IntentSignature, IntentType, MemoryId, OutcomeRef, Scope, Sha256,
    SubtreeHash, TargetRef, TargetType, Timestamp, ToolName, ValidityToken,
};

fn intent() -> IntentSignature {
    IntentSignature {
        intent_type: IntentType::from("lookup"),
        target_type: TargetType::from("file"),
        target_ref: TargetRef::from("src/lib.rs"),
        scope: Scope::from("repo"),
    }
}

fn subtree_hash(seed: &str) -> SubtreeHash {
    SubtreeHash(Sha256::from(seed))
}

fn resolved_node(id: &str, hash: &str) -> GoalNode {
    GoalNode {
        id: GoalNodeId::from(id),
        parent: None,
        children: Vec::new(),
        hypothesis: "the file exists".to_owned(),
        resolution_conditions: vec!["file readable".to_owned()],
        resolution: Resolution::Accepted,
        intent: intent(),
        tool_calls: Vec::new(),
        subtree_hash: Some(subtree_hash(hash)),
    }
}

fn authored_memory(id: &str) -> Memory {
    Memory {
        id: MemoryId::from(id),
        kind: MemoryKind::Fragment,
        intent: intent(),
        parameter_schema: ParameterSchema::default(),
        applicability: Applicability {
            required_intent_type: Some(IntentType::from("lookup")),
            ..Applicability::default()
        },
        plan: Plan {
            steps: vec![PlanStep {
                description: "read the file".to_owned(),
                tool: Some(ToolName::from("read_file")),
                intent: None,
            }],
        },
        evidence_contract: EvidenceContract {
            items: vec![EvidenceContractItem {
                tool: ToolName::from("read_file"),
                normalized_args: CanonicalJson("{\"path\":\"src/lib.rs\"}".to_owned()),
                validity_token: ValidityToken::ContentHash(Sha256::from("abc")),
            }],
        },
        outcome_shape: OutcomeShape {
            result_ref: OutcomeRef::from("outcome://1"),
            schema: "file-contents".to_owned(),
        },
        cached_outcome: Some(CachedOutcome {
            answer: OutcomeValue(CanonicalJson("{\"lines\":42}".to_owned())),
            mode: AnswerMode::SoundPinnable,
            validity_tokens: vec![ValidityToken::ContentHash(Sha256::from("abc"))],
            issued_at: Timestamp(0),
        }),
        provenance: Provenance::default(),
        reinforcement: Reinforcement::default(),
        version: MemoryVersion(subtree_hash("v1")),
    }
}

struct SpyJudge {
    decision: Decision,
    calls: Arc<AtomicUsize>,
}

impl SpyJudge {
    fn approving() -> (Self, Arc<AtomicUsize>) {
        let calls = Arc::new(AtomicUsize::new(0));
        (
            Self {
                decision: Decision::Approve,
                calls: Arc::clone(&calls),
            },
            calls,
        )
    }

    fn declining() -> (Self, Arc<AtomicUsize>) {
        let calls = Arc::new(AtomicUsize::new(0));
        (
            Self {
                decision: Decision::Decline,
                calls: Arc::clone(&calls),
            },
            calls,
        )
    }
}

impl Judge for SpyJudge {
    fn evaluate(&mut self, ctx: &CleanContext) -> JudgeVerdict {
        self.calls.fetch_add(1, Ordering::SeqCst);
        let _distilled: &DistilledNode = ctx.node();
        match self.decision {
            Decision::Approve => {
                JudgeVerdict::approve(Granularity::Fragment, "worth caching")
            }
            Decision::Decline => JudgeVerdict::decline("one-off, not worth caching"),
        }
    }
}

struct FixedAuthor {
    mem_id: String,
    calls: Arc<AtomicUsize>,
}

impl FixedAuthor {
    fn new(mem_id: &str) -> (Self, Arc<AtomicUsize>) {
        let calls = Arc::new(AtomicUsize::new(0));
        (
            Self {
                mem_id: mem_id.to_owned(),
                calls: Arc::clone(&calls),
            },
            calls,
        )
    }
}

impl Author for FixedAuthor {
    fn write(
        &mut self,
        _granularity: Granularity,
        ctx: &CleanContext,
    ) -> Result<Memory, AuthorError> {
        self.calls.fetch_add(1, Ordering::SeqCst);
        let _distilled: &DistilledNode = ctx.node();
        Ok(authored_memory(&self.mem_id))
    }
}

struct FailingAuthor {
    calls: Arc<AtomicUsize>,
}

impl FailingAuthor {
    fn new() -> (Self, Arc<AtomicUsize>) {
        let calls = Arc::new(AtomicUsize::new(0));
        (
            Self {
                calls: Arc::clone(&calls),
            },
            calls,
        )
    }
}

impl Author for FailingAuthor {
    fn write(
        &mut self,
        _granularity: Granularity,
        _ctx: &CleanContext,
    ) -> Result<Memory, AuthorError> {
        self.calls.fetch_add(1, Ordering::SeqCst);
        Err(AuthorError::new("could not synthesize a well-formed memory"))
    }
}

type Engine<A> =
    InductionEngine<InMemoryMemoryStore, InMemoryRecurrenceTracker, SpyJudge, A, NoEmbeddingClient>;

fn engine_with<A: Author>(judge: SpyJudge, author: A, n: u64) -> Engine<A> {
    InductionEngine::new(
        InMemoryMemoryStore::new(),
        InMemoryRecurrenceTracker::new(),
        judge,
        author,
        n,
    )
}

#[test]
fn below_threshold_skips_and_does_not_invoke_judge() {
    let (judge, judge_calls) = SpyJudge::approving();
    let (author, author_calls) = FixedAuthor::new("mem-1");
    let mut engine = engine_with(judge, author, 3);

    let node = resolved_node("n1", "h1");
    let outcome = engine.induce_memory(&node);

    assert!(
        matches!(outcome, InductionOutcome::Skipped(_)),
        "below N must Skip, got {outcome:?}"
    );
    assert_eq!(engine.tracker().recurrence_count(&node.intent), 1);
    assert_eq!(judge_calls.load(Ordering::SeqCst), 0, "Judge must not run below N");
    assert_eq!(author_calls.load(Ordering::SeqCst), 0);
    assert!(engine.store().filter(&node.intent).is_empty());
}

#[test]
fn at_threshold_proceeds_to_judge_and_inserts() {
    let (judge, judge_calls) = SpyJudge::approving();
    let (author, _) = FixedAuthor::new("mem-1");
    let mut engine = engine_with(judge, author, 1);

    let node = resolved_node("n1", "h1");
    let outcome = engine.induce_memory(&node);

    assert!(
        matches!(outcome, InductionOutcome::Inserted(_)),
        "at/above N must proceed and insert, got {outcome:?}"
    );
    assert_eq!(judge_calls.load(Ordering::SeqCst), 1, "Judge must run at N");
    assert_eq!(engine.store().filter(&node.intent).len(), 1);
}

#[test]
fn occurrence_recorded_even_when_gated() {
    let (judge, _) = SpyJudge::approving();
    let (author, _) = FixedAuthor::new("mem-1");
    let mut engine = engine_with(judge, author, 5);

    let node = resolved_node("n1", "h1");
    engine.induce_memory(&node);
    engine.induce_memory(&node);
    engine.induce_memory(&node);
    assert_eq!(engine.tracker().recurrence_count(&node.intent), 3);
}

#[test]
fn judge_decline_rejects_persists_rationale_and_skips_author() {
    let (judge, judge_calls) = SpyJudge::declining();
    let (author, author_calls) = FixedAuthor::new("mem-1");
    let mut engine = engine_with(judge, author, 1);

    let node = resolved_node("n1", "h1");
    let outcome = engine.induce_memory(&node);

    match outcome {
        InductionOutcome::Rejected(rationale) => {
            assert_eq!(rationale, "one-off, not worth caching");
        }
        other => panic!("expected Rejected, got {other:?}"),
    }
    assert_eq!(judge_calls.load(Ordering::SeqCst), 1);
    assert_eq!(author_calls.load(Ordering::SeqCst), 0);
    assert!(engine.store().filter(&node.intent).is_empty());
    let declines = engine.log().declines();
    assert_eq!(declines.len(), 1);
    assert_eq!(declines[0].rationale, "one-off, not worth caching");
    assert_eq!(declines[0].intent, node.intent);
}

#[test]
fn approve_then_author_ok_inserts_and_store_has_memory() {
    let (judge, _) = SpyJudge::approving();
    let (author, author_calls) = FixedAuthor::new("mem-ins");
    let mut engine = engine_with(judge, author, 1);

    let node = resolved_node("n1", "h1");
    let outcome = engine.induce_memory(&node);

    assert_eq!(outcome, InductionOutcome::Inserted(MemoryId::from("mem-ins")));
    assert_eq!(author_calls.load(Ordering::SeqCst), 1);
    let found = engine.store().filter(&node.intent);
    assert_eq!(found.len(), 1);
    assert_eq!(found[0].id, MemoryId::from("mem-ins"));
}

#[test]
fn author_failure_inserts_nothing_records_failure_and_allows_retrigger() {
    let (judge, _) = SpyJudge::approving();
    let (author, author_calls) = FailingAuthor::new();
    let mut engine = engine_with(judge, author, 1);

    let node = resolved_node("n1", "h1");
    let outcome = engine.induce_memory(&node);

    assert!(
        matches!(outcome, InductionOutcome::AuthorFailed(_)),
        "expected AuthorFailed, got {outcome:?}"
    );
    assert!(engine.store().filter(&node.intent).is_empty());
    assert_eq!(engine.log().failures().len(), 1);
    assert_eq!(engine.log().failures()[0].intent, node.intent);

    let outcome2 = engine.induce_memory(&node);
    assert!(
        matches!(outcome2, InductionOutcome::AuthorFailed(_)),
        "re-trigger reaches Author again, got {outcome2:?}"
    );
    assert_eq!(
        author_calls.load(Ordering::SeqCst),
        2,
        "Author was re-invoked on re-trigger"
    );
}

#[test]
fn clean_context_carries_only_distilled_node_no_transcript() {
    let node = resolved_node("n1", "h1");
    let ctx = CleanContext::from_node(&node);
    let distilled = ctx.node();
    assert_eq!(distilled.id, node.id);
    assert_eq!(distilled.intent, node.intent);
    assert_eq!(distilled.hypothesis, node.hypothesis);
    assert_eq!(distilled.resolution, node.resolution);
}

#[test]
fn same_key_again_reinforces_without_duplicate() {
    let (judge, judge_calls) = SpyJudge::approving();
    let (author, author_calls) = FixedAuthor::new("mem-1");
    let mut engine = engine_with(judge, author, 1);

    let node = resolved_node("n1", "h1");
    let first = engine.induce_memory(&node);
    assert!(matches!(first, InductionOutcome::Inserted(_)));

    let second = engine.induce_memory(&node);
    assert!(
        matches!(second, InductionOutcome::Reinforced(_)),
        "same key must reinforce, got {second:?}"
    );
    assert_eq!(engine.store().filter(&node.intent).len(), 1, "no duplicate memory");
    assert_eq!(judge_calls.load(Ordering::SeqCst), 1);
    assert_eq!(author_calls.load(Ordering::SeqCst), 1);
}

#[test]
fn dedup_on_intent_and_plan_reinforces_instead_of_inserting() {
    let (judge, _) = SpyJudge::approving();
    let (author, _) = FixedAuthor::new("mem-dup");
    let mut engine = engine_with(judge, author, 1);

    let node1 = resolved_node("n1", "h1");
    assert!(matches!(
        engine.induce_memory(&node1),
        InductionOutcome::Inserted(_)
    ));

    let node2 = resolved_node("n2", "h2");
    let outcome = engine.induce_memory(&node2);
    assert!(
        matches!(outcome, InductionOutcome::Reinforced(_)),
        "intent+plan match must reinforce, got {outcome:?}"
    );
    assert_eq!(
        engine.store().filter(&intent()).len(),
        1,
        "dedup keeps a single memory"
    );
}

#[test]
fn open_node_is_skipped_without_recording_or_judging() {
    let (judge, judge_calls) = SpyJudge::approving();
    let (author, _) = FixedAuthor::new("mem-1");
    let mut engine = engine_with(judge, author, 1);

    let mut node = resolved_node("n1", "h1");
    node.resolution = Resolution::Open;

    let outcome = engine.induce_memory(&node);
    assert!(
        matches!(outcome, InductionOutcome::Skipped(_)),
        "an Open node must be skipped, got {outcome:?}"
    );
    assert_eq!(judge_calls.load(Ordering::SeqCst), 0, "Judge never runs for Open");
    assert!(engine.store().filter(&node.intent).is_empty());
}

/// Writes memories that no store may keep.
struct FaultyAuthor;

impl Author for FaultyAuthor {
    fn write(
        &mut self,
        _granularity: Granularity,
        _ctx: &CleanContext,
    ) -> Result<Memory, AuthorError> {
        let mut mem = authored_memory("faulty");
        mem.kind = MemoryKind::Negative;
        mem.evidence_contract = EvidenceContract::default();
        Ok(mem)
    }
}

#[test]
fn a_memory_that_the_store_refuses_is_noted() {
    let (judge, _calls) = SpyJudge::approving();
    let mut engine = engine_with(judge, FaultyAuthor, 1);
    let node = resolved_node("n1", "h1");
    let reason = "missing evidence contract: a Negative memory requires a non-empty evidence \
                  contract";
    assert_eq!(
        engine.induce_memory(&node),
        InductionOutcome::AuthorFailed(reason.to_owned())
    );
    let failures = engine.log().failures();
    assert_eq!(failures.len(), 1);
    assert_eq!(failures[0].intent, intent());
    assert_eq!(failures[0].key, (GoalNodeId::from("n1"), subtree_hash("h1")));
    assert_eq!(failures[0].reason, reason);
    assert!(engine.log().declines().is_empty());
    assert!(engine.store().filter(&intent()).is_empty());
}
