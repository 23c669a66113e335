//! Memories.

use halter_goals::tier2::{
    AnswerMode, Applicability, CachedOutcome, EvidenceContract, Memory, MemoryKind, MemoryVersion,
    OutcomeShape, OutcomeValue, ParameterDef, ParameterSchema, Plan, PlanStep, Provenance,
    Reinforcement,
};
use halter_goals::types::{
    CanonicalJson, Duration, GoalNodeId, IntentSignature, IntentType, MemoryId, OutcomeRef, Scope,
    Sha256, SubtreeHash, TargetRef, TargetType, Timestamp, ToolName, ValidityToken,
};

fn sample_signature() -> IntentSignature {
    IntentSignature {
        intent_type: IntentType::from("lookup"),
        target_type: TargetType::from("file"),
        target_ref: TargetRef::from("src/lib.rs"),
        scope: Scope::from("repo"),
    }
}

#[test]
fn applicability_matches_only_when_constraints_hold() {
    let sig = sample_signature();

    assert!(Applicability::unconstrained().applies_to(&sig));

    let matching = Applicability {
        required_intent_type: Some(IntentType::from("lookup")),
        required_scope: Some(Scope::from("repo")),
        ..Applicability::default()
    };
    assert!(matching.applies_to(&sig));

    let mismatching = Applicability {
        required_intent_type: Some(IntentType::from("mutate")),
        ..Applicability::default()
    };
    assert!(!mismatching.applies_to(&sig));
}

fn full_memory() -> Memory {
    Memory {
        id: MemoryId::from("mem-1"),
        kind: MemoryKind::Composite,
        intent: sample_signature(),
        parameter_schema: ParameterSchema {
            parameters: vec![ParameterDef { name: "path".to_owned(), kind: "path".to_owned() }],
        },
        applicability: Applicability {
            required_target_type: Some(TargetType::from("file")),
            ..Applicability::default()
        },
        plan: Plan {
            steps: vec![PlanStep {
                description: "read the file".to_owned(),
                tool: Some(ToolName::from("read_file")),
                intent: Some(sample_signature()),
            }],
        },
        evidence_contract: EvidenceContract::default(),
        outcome_shape: OutcomeShape {
            result_ref: OutcomeRef::from("outcome://1"),
            schema: "file-contents".to_owned(),
        },
        cached_outcome: Some(CachedOutcome {
            answer: OutcomeValue(CanonicalJson("1".to_owned())),
            mode: AnswerMode::BoundedVolatile { max_age: Duration(5) },
            validity_tokens: vec![ValidityToken::ContentHash(Sha256::from("h"))],
            issued_at: Timestamp(3),
        }),
        provenance: Provenance {
            origins: vec![(GoalNodeId::from("n"), SubtreeHash(Sha256::from("h")))],
        },
        reinforcement: Reinforcement { hits: 1, ..Reinforcement::default() },
        version: MemoryVersion(SubtreeHash(Sha256::from("h"))),
    }
}

#[test]
fn clones_are_equal() {
    assert_eq!(full_memory().clone(), full_memory());
}

#[test]
fn plans_are_the_same_only_step_by_step() {
    let plan = full_memory().plan;
    assert!(plan.same(&plan.clone()));
    let mut other = plan.clone();
    other.steps[0].tool = None;
    assert!(!plan.same(&other));
    let mut intentless = plan.clone();
    intentless.steps[0].intent = None;
    assert!(!plan.same(&intentless));
    assert!(!plan.same(&Plan::default()));
    assert!(Plan::default().same(&Plan::default()));
}

#[test]
fn a_contract_is_empty_without_items() {
    assert!(EvidenceContract::default().is_empty());
}
