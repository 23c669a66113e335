//! Descriptions of similar goals.

use std::sync::atomic::{AtomicBool, Ordering};

use halter_goals::tier2::summary::summarize;
use halter_goals::tier2::{
    AnswerMode, Applicability, CachedOutcome, EvidenceContract, EvidenceContractItem, Memory,
    MemoryKind, MemoryVersion, OutcomeShape, OutcomeValue, ParameterSchema, Plan, PlanStep,
    Provenance, Reinforcement, Retrieval, ScoredMemory, SummaryConfig, SummaryProvider,
};
use halter_goals::types::{
    CanonicalJson, Duration, GoalNodeId, IntentSignature, IntentType, MemoryId, OutcomeRef, Scope,
    Sha256, SubtreeHash, TargetRef, TargetType, Timestamp, ToolName, ValidityToken,
};

struct SpyRetrieval {
    candidates: Vec<ScoredMemory>,
    called: AtomicBool,
}

impl SpyRetrieval {
    fn new(candidates: Vec<ScoredMemory>) -> Self {
        Self {
            candidates,
            called: AtomicBool::new(false),
        }
    }

    fn called(&self) -> bool {
        self.called.load(Ordering::SeqCst)
    }
}

impl Retrieval for SpyRetrieval {
    fn retrieve_memories(&self, _sig: &IntentSignature) -> Vec<ScoredMemory> {
        self.called.store(true, Ordering::SeqCst);
        self.candidates.clone()
    }
}

fn sig() -> IntentSignature {
    IntentSignature {
        intent_type: IntentType::from("lookup"),
        target_type: TargetType::from("file"),
        target_ref: TargetRef::from("src/lib.rs"),
        scope: Scope::from("repo"),
    }
}

fn memory_with_marker(id: &str, marker: &str) -> Memory {
    Memory {
        id: MemoryId::from(id),
        kind: MemoryKind::Fragment,
        intent: IntentSignature {
            intent_type: IntentType::from("lookup"),
            target_type: TargetType::from("file"),
            target_ref: TargetRef::from(marker),
            scope: Scope::from("repo"),
        },
        parameter_schema: ParameterSchema::default(),
        applicability: Applicability::unconstrained(),
        plan: Plan {
            steps: vec![PlanStep {
                description: "read the file".to_owned(),
                tool: Some(ToolName::from("read_file")),
                intent: None,
            }],
        },
        evidence_contract: EvidenceContract {
            items: vec![EvidenceContractItem {
                tool: ToolName::from("read_file"),
                normalized_args: CanonicalJson("{\"path\":\"x\"}".to_owned()),
                validity_token: ValidityToken::ContentHash(Sha256::from("abc123")),
            }],
        },
        outcome_shape: OutcomeShape {
            result_ref: OutcomeRef::from("outcome://1"),
            schema: "file-contents".to_owned(),
        },
        cached_outcome: Some(CachedOutcome {
            answer: OutcomeValue(CanonicalJson("{\"lines\":42}".to_owned())),
            mode: AnswerMode::SoundPinnable,
            validity_tokens: vec![ValidityToken::ContentHash(Sha256::from("abc123"))],
            issued_at: Timestamp(1_000),
        }),
        provenance: Provenance {
            origins: vec![(GoalNodeId::from("node-1"), SubtreeHash(Sha256::from("h")))],
        },
        reinforcement: Reinforcement::default(),
        version: MemoryVersion(SubtreeHash(Sha256::from("h"))),
    }
}

fn scored(mem: Memory, score: u32) -> ScoredMemory {
    ScoredMemory { memory: mem, score }
}

fn negative_memory_with_evidence(evidence_marker: &str) -> Memory {
    Memory {
        id: MemoryId::from("neg-1"),
        kind: MemoryKind::Negative,
        intent: IntentSignature {
            intent_type: IntentType::from("lookup"),
            target_type: TargetType::from("file"),
            target_ref: TargetRef::from("src/lib.rs"),
            scope: Scope::from("repo"),
        },
        parameter_schema: ParameterSchema::default(),
        applicability: Applicability::unconstrained(),
        plan: Plan {
            steps: vec![PlanStep {
                description: "attempt the dead-end approach".to_owned(),
                tool: Some(ToolName::from("read_file")),
                intent: None,
            }],
        },
        evidence_contract: EvidenceContract {
            items: vec![EvidenceContractItem {
                tool: ToolName::from("read_file"),
                normalized_args: CanonicalJson(format!("{{\"arg\":\"{evidence_marker}\"}}")),
                validity_token: ValidityToken::ContentHash(Sha256::from(evidence_marker)),
            }],
        },
        outcome_shape: OutcomeShape {
            result_ref: OutcomeRef::from("outcome://1"),
            schema: "file-contents".to_owned(),
        },
        cached_outcome: Some(CachedOutcome {
            answer: OutcomeValue(CanonicalJson(format!("{{\"answer\":\"{evidence_marker}\"}}"))),
            mode: AnswerMode::SoundPinnable,
            validity_tokens: vec![ValidityToken::ContentHash(Sha256::from(evidence_marker))],
            issued_at: Timestamp(1_000),
        }),
        provenance: Provenance {
            origins: vec![(GoalNodeId::from("node-1"), SubtreeHash(Sha256::from("h")))],
        },
        reinforcement: Reinforcement::default(),
        version: MemoryVersion(SubtreeHash(Sha256::from("h"))),
    }
}

#[test]
fn negative_memory_produces_dead_end_summary() {
    let mem = negative_memory_with_evidence("EVIDENCE-XYZ12");
    let summary = summarize(&mem);

    assert!(summary.dead_end, "a Negative memory is a dead-end");
    assert!(
        summary.concluded.to_lowercase().contains("dead-end"),
        "the conclusion phrases a learned dead-end: {:?}",
        summary.concluded
    );
    assert!(!summary.did.contains("EVIDENCE-XYZ12"));
    assert!(!summary.concluded.contains("EVIDENCE-XYZ12"));
}

#[test]
fn enabled_provider_bounds_and_orders_candidates() {
    let candidates = vec![
        scored(memory_with_marker("mem-0", "ref-first"), 3),
        scored(memory_with_marker("mem-1", "ref-second"), 2),
        scored(memory_with_marker("mem-2", "ref-third"), 1),
    ];
    let retrieval = SpyRetrieval::new(candidates);
    let provider = SummaryProvider::new(SummaryConfig {
        enabled: true,
        max_summaries: Some(2),
    });

    let summaries = provider.summaries_for(&sig(), &retrieval);

    assert_eq!(summaries.len(), 2, "bounded to max_summaries");
    assert!(
        summaries[0].did.contains("ref-first"),
        "first summary is the first candidate: {:?}",
        summaries[0].did
    );
    assert!(
        summaries[1].did.contains("ref-second"),
        "second summary is the second candidate: {:?}",
        summaries[1].did
    );
}

#[test]
fn disabled_provider_returns_no_summaries() {
    let candidates = vec![scored(memory_with_marker("mem-0", "ref-only"), 1)];
    let retrieval = SpyRetrieval::new(candidates);
    let provider = SummaryProvider::new(SummaryConfig::default());

    let summaries = provider.summaries_for(&sig(), &retrieval);

    assert!(summaries.is_empty(), "a disabled provider yields no summaries");
    assert!(
        !retrieval.called(),
        "a disabled provider does not invoke retrieval"
    );
}

#[test]
fn a_fragment_is_described_in_full() {
    let mut mem = memory_with_marker("mem-0", "src/lib.rs");
    let summary = summarize(&mem);
    assert_eq!(summary.did, "lookup file src/lib.rs (scope: repo) — steps: read the file");
    assert_eq!(
        summary.concluded,
        "resolved as a fragment procedure; outcome shape: file-contents; a cached answer is \
         available (sound/pinnable)"
    );
    assert!(!summary.dead_end);

    mem.kind = MemoryKind::Composite;
    mem.cached_outcome = None;
    mem.plan.steps.push(PlanStep { description: "count".to_owned(), tool: None, intent: None });
    let summary = summarize(&mem);
    assert_eq!(summary.did, "lookup file src/lib.rs (scope: repo) — steps: read the file; count");
    assert_eq!(
        summary.concluded,
        "resolved as a composite procedure; outcome shape: file-contents; no cached answer"
    );

    mem.plan = Plan::default();
    assert_eq!(summarize(&mem).did, "lookup file src/lib.rs (scope: repo) — no recorded steps");
}

#[test]
fn the_kind_of_answer_is_named() {
    let mut mem = memory_with_marker("mem-0", "r");
    if let Some(cached) = mem.cached_outcome.as_mut() {
        cached.mode = AnswerMode::BoundedVolatile { max_age: Duration(1) };
    }
    assert!(summarize(&mem).concluded.ends_with("a cached answer is available (bounded-volatile)"));
}

#[test]
fn an_unbounded_provider_describes_everything() {
    let found = vec![scored(memory_with_marker("a", "x"), 1), scored(memory_with_marker("b", "y"), 1)];
    let provider = SummaryProvider::new(SummaryConfig { enabled: true, max_summaries: None });
    assert_eq!(provider.summaries_of(&found).len(), 2);
    let none = SummaryProvider::new(SummaryConfig { enabled: true, max_summaries: Some(0) });
    assert!(none.summaries_of(&found).is_empty());
}
