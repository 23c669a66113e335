//! The judge and the author that go by how a goal was resolved.

use halter_goals::goal_model::{GoalNode, GoalNodeRevision, Resolution};
use halter_goals::tier2::store::validate_memory;
use halter_goals::tier2::{
    Author, AuthorError, CleanContext, Decision, GoalResolutionAuthor, GoalResolutionJudge,
    Granularity, InMemoryMemoryStore, InMemoryRecurrenceTracker, InductionEngine,
    InductionOutcome, Judge, JudgeVerdict, MemoryKind, MemoryStore, RecurrenceTracker,
};
use halter_goals::types::{
    GoalNodeId, IntentSignature, IntentType, MemoryId, OutcomeRef, Scope, Sha256, SubtreeHash,
    TargetRef, TargetType,
};

fn node(resolution: Resolution, hash: Option<&str>) -> GoalNode {
    GoalNode {
        id: GoalNodeId::from("n1"),
        parent: None,
        children: Vec::new(),
        hypothesis: "the file exists".to_owned(),
        resolution_conditions: vec!["  ".to_owned(), "file readable".to_owned()],
        resolution,
        intent: IntentSignature {
            intent_type: IntentType::from("lookup"),
            target_type: TargetType::from("file"),
            target_ref: TargetRef::from("src/lib.rs"),
            scope: Scope::from("repo"),
        },
        tool_calls: Vec::new(),
        subtree_hash: hash.map(|h| SubtreeHash(Sha256::from(h))),
    }
}

fn verdict(resolution: Resolution) -> JudgeVerdict {
    GoalResolutionJudge::new().evaluate(&CleanContext::from_node(&node(resolution, Some("h"))))
}

#[test]
fn only_accepted_goals_are_approved() {
    assert_eq!(
        verdict(Resolution::Accepted),
        JudgeVerdict::approve(
            Granularity::Fragment,
            "goal resolved as accepted; the solved procedure is worth remembering"
        )
    );
    assert_eq!(
        verdict(Resolution::Rejected),
        JudgeVerdict::decline("goal was rejected; a rejected goal is not authored")
    );
    assert_eq!(
        verdict(Resolution::Inconclusive),
        JudgeVerdict::decline("goal was inconclusive; an inconclusive goal is not authored")
    );
    assert_eq!(
        verdict(Resolution::Open),
        JudgeVerdict::decline("goal is still open; an open goal is not authored")
    );
    assert_eq!(verdict(Resolution::Open).decision, Decision::Decline);
}

#[test]
fn a_fragment_is_written_from_the_node() {
    let ctx = CleanContext::from_node(&node(Resolution::Accepted, Some("h")));
    let mem = GoalResolutionAuthor::new().write(Granularity::Fragment, &ctx).unwrap();
    assert_eq!(mem.id, MemoryId::from("mem-n1-h"));
    assert_eq!(mem.kind, MemoryKind::Fragment);
    let steps: Vec<&str> = mem.plan.steps.iter().map(|s| s.description.as_str()).collect();
    assert_eq!(steps, vec!["the file exists", "file readable"]);
    assert_eq!(mem.outcome_shape.result_ref, OutcomeRef::from("outcome://n1"));
    assert_eq!(mem.applicability.required_intent_type, Some(IntentType::from("lookup")));
    assert_eq!(mem.cached_outcome, None);
    assert_eq!(
        mem.provenance.origins,
        vec![(GoalNodeId::from("n1"), SubtreeHash(Sha256::from("h")))]
    );
    assert_eq!(validate_memory(&mem), Ok(()));
}

#[test]
fn an_empty_hash_is_versioned_by_the_node() {
    let ctx = CleanContext::from_node(&node(Resolution::Accepted, Some("")));
    let mem = GoalResolutionAuthor::new().write(Granularity::Fragment, &ctx).unwrap();
    assert_eq!(mem.id, MemoryId::from("mem-n1-"));
    assert_eq!(mem.version.0, SubtreeHash(Sha256::from("n1")));
    let ctx = CleanContext::from_node(&node(Resolution::Accepted, Some("h")));
    let mem = GoalResolutionAuthor::new().write(Granularity::Fragment, &ctx).unwrap();
    assert_eq!(mem.version.0, SubtreeHash(Sha256::from("h")));
}

#[test]
fn other_sizes_and_unhashed_nodes_are_not_written() {
    let ctx = CleanContext::from_node(&node(Resolution::Accepted, Some("h")));
    for (granularity, name) in
        [(Granularity::Composite, "Composite"), (Granularity::Negative, "Negative")]
    {
        let error = GoalResolutionAuthor::new().write(granularity, &ctx).unwrap_err();
        assert_eq!(
            error.to_string(),
            format!("author failure: unsupported granularity {name}; this author writes fragments only")
        );
    }
    let unhashed = CleanContext::from_node(&node(Resolution::Accepted, None));
    assert_eq!(
        GoalResolutionAuthor::default().write(Granularity::Fragment, &unhashed),
        Err(AuthorError::new("cannot author a memory: resolved node has no subtree_hash"))
    );
}

#[test]
fn the_engine_learns_once_and_then_knows() {
    let mut engine = InductionEngine::new(
        InMemoryMemoryStore::new(),
        InMemoryRecurrenceTracker::new(),
        GoalResolutionJudge::default(),
        GoalResolutionAuthor::new(),
        2,
    );
    let n = node(Resolution::Accepted, Some("h"));
    assert_eq!(
        engine.induce_memory(&n),
        InductionOutcome::Skipped("below recurrence threshold".to_owned())
    );
    assert_eq!(engine.induce_memory(&n), InductionOutcome::Inserted(MemoryId::from("mem-n1-h")));
    assert_eq!(
        engine.induce_memory(&n),
        InductionOutcome::Reinforced(MemoryId::from("mem-n1-h"))
    );
    assert_eq!(engine.tracker().recurrence_count(&n.intent), 3);
    let found = engine.store().filter(&n.intent);
    assert_eq!(found.len(), 1);
    assert_eq!(found[0].reinforcement.hits, 1);
    assert!(engine.log().declines().is_empty());
    assert!(engine.log().failures().is_empty());
}

#[test]
fn openness_and_empty_revisions() {
    assert!(Resolution::Open.is_open());
    for resolved in [Resolution::Accepted, Resolution::Rejected, Resolution::Inconclusive] {
        assert!(!resolved.is_open());
    }
    let mut revision = GoalNodeRevision::default();
    assert!(revision.is_empty());
    revision.resolution_conditions = Some(Vec::new());
    assert!(!revision.is_empty());
}
