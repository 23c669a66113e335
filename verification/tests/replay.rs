//! Serving answers and replaying plans.

use std::collections::HashMap;

use halter_goals::tier1::Freshness;
use halter_goals::tier2::replay::decide_from;
use halter_goals::tier2::{
    decide_replay, AllowListModeB, AnswerMode, Applicability, CachedOutcome, DenyAllModeB,
    EvidenceContract, EvidenceContractItem, EvidenceValidator, Memory, MemoryKind, MemoryVersion,
    ModeBPolicy, OutcomeShape, OutcomeValue, ParameterSchema, Plan, PlanStep, Provenance,
    Reinforcement, ReplayDecision, TokensHold,
};
use halter_goals::types::{
    CanonicalJson, Duration, IntentSignature, IntentType, MemoryId, OutcomeRef, Scope, Sha256,
    SubtreeHash, TargetRef, TargetType, Timestamp, ToolName, ValidityToken,
};

struct MapEvidenceValidator {
    fresh_tokens: HashMap<String, bool>,
    unavailable: bool,
}

impl MapEvidenceValidator {
    fn new() -> Self {
        Self {
            fresh_tokens: HashMap::new(),
            unavailable: false,
        }
    }

    fn with_token(mut self, token: &ValidityToken, fresh: bool) -> Self {
        self.fresh_tokens.insert(token_key(token), fresh);
        self
    }

    fn unavailable() -> Self {
        Self {
            fresh_tokens: HashMap::new(),
            unavailable: true,
        }
    }
}

fn token_key(token: &ValidityToken) -> String {
    format!("{token:?}")
}

impl EvidenceValidator for MapEvidenceValidator {
    fn revalidate_item(&mut self, item: &EvidenceContractItem) -> Freshness {
        if self.unavailable {
            return Freshness::Stale;
        }
        match self.fresh_tokens.get(&token_key(&item.validity_token)) {
            Some(true) => Freshness::Fresh,
            _ => Freshness::Stale,
        }
    }

    fn tokens_hold(&mut self, tokens: &[ValidityToken]) -> TokensHold {
        if self.unavailable {
            return TokensHold::Unavailable;
        }
        if tokens
            .iter()
            .all(|t| self.fresh_tokens.get(&token_key(t)).copied().unwrap_or(false))
        {
            TokensHold::AllHold
        } else {
            TokensHold::SomeStale
        }
    }
}

fn sig(intent: &str) -> IntentSignature {
    IntentSignature {
        intent_type: IntentType::from(intent),
        target_type: TargetType::from("file"),
        target_ref: TargetRef::from("src/lib.rs"),
        scope: Scope::from("repo"),
    }
}

fn content_token(h: &str) -> ValidityToken {
    ValidityToken::ContentHash(Sha256::from(h))
}

fn ttl_token(issued_at: u64, ttl: u64) -> ValidityToken {
    ValidityToken::Ttl {
        issued_at: Timestamp(issued_at),
        ttl: Duration(ttl),
    }
}

fn contract_item(tool: &str, args: &str, token: ValidityToken) -> EvidenceContractItem {
    EvidenceContractItem {
        tool: ToolName::from(tool),
        normalized_args: CanonicalJson(args.to_owned()),
        validity_token: token,
    }
}

fn memory_with(
    cached_outcome: Option<CachedOutcome>,
    items: Vec<EvidenceContractItem>,
) -> Memory {
    Memory {
        id: MemoryId::from("mem-replay"),
        kind: MemoryKind::Fragment,
        intent: sig("lookup"),
        parameter_schema: ParameterSchema::default(),
        applicability: Applicability::unconstrained(),
        plan: Plan {
            steps: vec![PlanStep {
                description: "read the file".to_owned(),
                tool: Some(ToolName::from("read_file")),
                intent: None,
            }],
        },
        evidence_contract: EvidenceContract { items },
        outcome_shape: OutcomeShape {
            result_ref: OutcomeRef::from("outcome://1"),
            schema: "file-contents".to_owned(),
        },
        cached_outcome,
        provenance: Provenance::default(),
        reinforcement: Reinforcement::default(),
        version: MemoryVersion(SubtreeHash(Sha256::from("h"))),
    }
}

fn sound_outcome(tokens: Vec<ValidityToken>) -> CachedOutcome {
    CachedOutcome {
        answer: OutcomeValue(CanonicalJson("\"answer\"".to_owned())),
        mode: AnswerMode::SoundPinnable,
        validity_tokens: tokens,
        issued_at: Timestamp(0),
    }
}

fn volatile_outcome(
    tokens: Vec<ValidityToken>,
    max_age: u64,
    issued_at: u64,
) -> CachedOutcome {
    CachedOutcome {
        answer: OutcomeValue(CanonicalJson("\"volatile-answer\"".to_owned())),
        mode: AnswerMode::BoundedVolatile {
            max_age: Duration(max_age),
        },
        validity_tokens: tokens,
        issued_at: Timestamp(issued_at),
    }
}

#[test]
fn no_cached_outcome_skips_answer_check_and_replays() {
    let token = content_token("e1");
    let mem = memory_with(None, vec![contract_item("read_file", "{}", token.clone())]);
    let mut validator = MapEvidenceValidator::new().with_token(&token, true);

    let decision = decide_replay(&mem, &mut validator, &DenyAllModeB, &sig("lookup"), Timestamp(0));
    match decision {
        ReplayDecision::ReplayProcedure {
            evidence,
            evidence_fully_fresh,
            ..
        } => {
            assert_eq!(evidence.len(), 1);
            assert!(evidence_fully_fresh);
        }
        other => panic!("expected ReplayProcedure, got {other:?}"),
    }
}

#[test]
fn answer_served_before_replay_is_reached() {
    let answer_token = content_token("a1");
    let evidence_token = content_token("e-stale");
    let mem = memory_with(
        Some(sound_outcome(vec![answer_token.clone()])),
        vec![contract_item("read_file", "{}", evidence_token.clone())],
    );
    let mut validator = MapEvidenceValidator::new()
        .with_token(&answer_token, true)
        .with_token(&evidence_token, false);

    let decision =
        decide_replay(&mem, &mut validator, &DenyAllModeB, &sig("lookup"), Timestamp(0));
    assert_eq!(
        decision,
        ReplayDecision::ServeAnswer {
            answer: OutcomeValue(CanonicalJson("\"answer\"".to_owned())),
            verified: true,
        },
        "servable Mode A answer must be served before replay is considered"
    );
}

#[test]
fn mode_a_all_tokens_hold_serves_verified() {
    let t1 = content_token("a1");
    let t2 = content_token("a2");
    let mem = memory_with(Some(sound_outcome(vec![t1.clone(), t2.clone()])), vec![]);
    let mut validator = MapEvidenceValidator::new()
        .with_token(&t1, true)
        .with_token(&t2, true);

    let decision =
        decide_replay(&mem, &mut validator, &DenyAllModeB, &sig("lookup"), Timestamp(0));
    assert_eq!(
        decision,
        ReplayDecision::ServeAnswer {
            answer: OutcomeValue(CanonicalJson("\"answer\"".to_owned())),
            verified: true,
        }
    );
}

#[test]
fn mode_a_one_token_stale_falls_through_not_verified() {
    let t1 = content_token("a1");
    let t2 = content_token("a2");
    let mem = memory_with(
        Some(sound_outcome(vec![t1.clone(), t2.clone()])),
        vec![contract_item("read_file", "{}", content_token("e1"))],
    );
    let mut validator = MapEvidenceValidator::new()
        .with_token(&t1, true)
        .with_token(&t2, false);

    let decision =
        decide_replay(&mem, &mut validator, &DenyAllModeB, &sig("lookup"), Timestamp(0));
    assert!(
        matches!(decision, ReplayDecision::ReplayProcedure { .. }),
        "a stale Mode A token must fall through to replay, never serve verified"
    );
}

#[test]
fn mode_a_tier1_unavailable_falls_through_not_verified() {
    let t1 = content_token("a1");
    let mem = memory_with(
        Some(sound_outcome(vec![t1])),
        vec![contract_item("read_file", "{}", content_token("e1"))],
    );
    let mut validator = MapEvidenceValidator::unavailable();

    let decision =
        decide_replay(&mem, &mut validator, &DenyAllModeB, &sig("lookup"), Timestamp(0));
    match decision {
        ReplayDecision::ReplayProcedure {
            evidence_fully_fresh,
            evidence,
            ..
        } => {
            assert!(!evidence_fully_fresh, "unavailable Tier 1 => not fully fresh");
            assert!(
                evidence.iter().all(|(_, f)| *f == Freshness::Stale),
                "unavailable Tier 1 treats all evidence as stale"
            );
        }
        other => panic!("expected fall-through to replay, got {other:?}"),
    }
}

#[test]
fn mode_b_opted_in_within_max_age_serves_believed_unverified() {
    let token = ttl_token(0, 1_000);
    let mem = memory_with(Some(volatile_outcome(vec![token], 100, 10)), vec![]);
    let mut validator = MapEvidenceValidator::new();
    let policy = AllowListModeB::new(vec![IntentType::from("lookup")]);

    let decision = decide_replay(&mem, &mut validator, &policy, &sig("lookup"), Timestamp(50));
    assert_eq!(
        decision,
        ReplayDecision::ServeAnswer {
            answer: OutcomeValue(CanonicalJson("\"volatile-answer\"".to_owned())),
            verified: false,
        },
        "opted-in Mode B within max_age serves believed-unverified"
    );
}

#[test]
fn mode_b_not_opted_in_falls_through() {
    let token = ttl_token(0, 1_000);
    let mem = memory_with(
        Some(volatile_outcome(vec![token], 100, 10)),
        vec![contract_item("read_file", "{}", content_token("e1"))],
    );
    let mut validator = MapEvidenceValidator::new().with_token(&content_token("e1"), true);

    let decision =
        decide_replay(&mem, &mut validator, &DenyAllModeB, &sig("lookup"), Timestamp(50));
    assert!(
        matches!(decision, ReplayDecision::ReplayProcedure { .. }),
        "Mode B must not activate without opt-in"
    );
}

#[test]
fn mode_b_opted_in_but_too_old_falls_through() {
    let token = ttl_token(0, 1_000);
    let mem = memory_with(
        Some(volatile_outcome(vec![token], 100, 10)),
        vec![contract_item("read_file", "{}", content_token("e1"))],
    );
    let mut validator = MapEvidenceValidator::new().with_token(&content_token("e1"), true);
    let policy = AllowListModeB::new(vec![IntentType::from("lookup")]);

    let decision = decide_replay(&mem, &mut validator, &policy, &sig("lookup"), Timestamp(200));
    assert!(
        matches!(decision, ReplayDecision::ReplayProcedure { .. }),
        "an over-age Mode B answer must fall through to replay"
    );
}

#[test]
fn mode_b_boundary_age_equal_max_age_serves() {
    let token = ttl_token(0, 1_000);
    let mem = memory_with(Some(volatile_outcome(vec![token], 100, 10)), vec![]);
    let mut validator = MapEvidenceValidator::new();
    let policy = AllowListModeB::new(vec![IntentType::from("lookup")]);

    let decision = decide_replay(&mem, &mut validator, &policy, &sig("lookup"), Timestamp(110));
    assert_eq!(
        decision,
        ReplayDecision::ServeAnswer {
            answer: OutcomeValue(CanonicalJson("\"volatile-answer\"".to_owned())),
            verified: false,
        }
    );
}

#[test]
fn replay_evidence_fully_fresh_when_all_fresh() {
    let e1 = content_token("e1");
    let e2 = content_token("e2");
    let mem = memory_with(
        None,
        vec![
            contract_item("read_file", "{\"p\":1}", e1.clone()),
            contract_item("read_file", "{\"p\":2}", e2.clone()),
        ],
    );
    let mut validator = MapEvidenceValidator::new()
        .with_token(&e1, true)
        .with_token(&e2, true);

    let decision =
        decide_replay(&mem, &mut validator, &DenyAllModeB, &sig("lookup"), Timestamp(0));
    match decision {
        ReplayDecision::ReplayProcedure {
            evidence,
            evidence_fully_fresh,
            ..
        } => {
            assert!(evidence_fully_fresh);
            assert!(evidence.iter().all(|(_, f)| *f == Freshness::Fresh));
        }
        other => panic!("expected ReplayProcedure, got {other:?}"),
    }
}

#[test]
fn replay_not_fully_fresh_when_any_stale() {
    let e1 = content_token("e1");
    let e2 = content_token("e2");
    let mem = memory_with(
        None,
        vec![
            contract_item("read_file", "{\"p\":1}", e1.clone()),
            contract_item("read_file", "{\"p\":2}", e2.clone()),
        ],
    );
    let mut validator = MapEvidenceValidator::new()
        .with_token(&e1, true)
        .with_token(&e2, false);

    let decision =
        decide_replay(&mem, &mut validator, &DenyAllModeB, &sig("lookup"), Timestamp(0));
    match decision {
        ReplayDecision::ReplayProcedure {
            evidence,
            evidence_fully_fresh,
            ..
        } => {
            assert!(!evidence_fully_fresh);
            assert_eq!(evidence[0].1, Freshness::Fresh);
            assert_eq!(evidence[1].1, Freshness::Stale);
        }
        other => panic!("expected ReplayProcedure, got {other:?}"),
    }
}

#[test]
fn replay_tier1_unavailable_treats_all_evidence_stale() {
    let e1 = content_token("e1");
    let e2 = content_token("e2");
    let mem = memory_with(
        None,
        vec![
            contract_item("read_file", "{\"p\":1}", e1),
            contract_item("read_file", "{\"p\":2}", e2),
        ],
    );
    let mut validator = MapEvidenceValidator::unavailable();

    let decision =
        decide_replay(&mem, &mut validator, &DenyAllModeB, &sig("lookup"), Timestamp(0));
    match decision {
        ReplayDecision::ReplayProcedure {
            evidence,
            evidence_fully_fresh,
            ..
        } => {
            assert!(!evidence_fully_fresh);
            assert!(evidence.iter().all(|(_, f)| *f == Freshness::Stale));
        }
        other => panic!("expected ReplayProcedure, got {other:?}"),
    }
}

#[test]
fn deny_all_policy_opts_nothing_in() {
    let policy = DenyAllModeB;
    assert!(!policy.opted_in(&IntentType::from("lookup")));
    assert!(!policy.opted_in(&IntentType::from("anything")));
}

#[test]
fn allow_list_policy_opts_in_only_listed_types() {
    let policy = AllowListModeB::default().allow(IntentType::from("lookup"));
    assert!(policy.opted_in(&IntentType::from("lookup")));
    assert!(!policy.opted_in(&IntentType::from("mutate")));
}

#[test]
fn the_decision_follows_from_what_was_found() {
    let item = contract_item("read_file", "{}", content_token("a"));
    let mem = memory_with(Some(sound_outcome(vec![content_token("a")])), vec![item.clone()]);
    let answer = OutcomeValue(CanonicalJson("\"answer\"".to_owned()));
    let replayed = |status: Freshness| ReplayDecision::ReplayProcedure {
        plan: mem.plan.clone(),
        evidence: vec![(item.clone(), status)],
        evidence_fully_fresh: status == Freshness::Fresh,
    };
    let decide = |hold: TokensHold, status: Freshness| {
        decide_from(&mem, hold, true, &vec![status], Timestamp(5))
    };
    assert_eq!(
        decide(TokensHold::AllHold, Freshness::Stale),
        ReplayDecision::ServeAnswer { answer, verified: true }
    );
    assert_eq!(decide(TokensHold::SomeStale, Freshness::Stale), replayed(Freshness::Stale));
    assert_eq!(decide(TokensHold::Unavailable, Freshness::Fresh), replayed(Freshness::Fresh));
}

#[derive(Default)]
struct CountingValidator {
    items: usize,
    tokens: usize,
}

impl EvidenceValidator for CountingValidator {
    fn revalidate_item(&mut self, _item: &EvidenceContractItem) -> Freshness {
        self.items += 1;
        Freshness::Stale
    }

    fn tokens_hold(&mut self, _tokens: &[ValidityToken]) -> TokensHold {
        self.tokens += 1;
        TokensHold::AllHold
    }
}

#[test]
fn the_validator_is_asked_only_for_what_is_needed() {
    let items = vec![
        contract_item("read_file", "{}", content_token("a")),
        contract_item("read_file", "[]", content_token("b")),
    ];
    let allow = AllowListModeB::default().allow(IntentType::from("lookup"));
    let asked = |outcome: Option<CachedOutcome>, now: u64| {
        let mut validator = CountingValidator::default();
        let mem = memory_with(outcome, items.clone());
        decide_replay(&mem, &mut validator, &allow, &sig("lookup"), Timestamp(now));
        (validator.items, validator.tokens)
    };
    assert_eq!(asked(None, 0), (2, 0));
    assert_eq!(asked(Some(sound_outcome(vec![content_token("a")])), 0), (0, 1));
    assert_eq!(asked(Some(volatile_outcome(Vec::new(), 10, 0)), 10), (0, 0));
    assert_eq!(asked(Some(volatile_outcome(Vec::new(), 10, 0)), 11), (2, 0));
}
