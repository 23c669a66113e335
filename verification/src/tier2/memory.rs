//! The procedural memory: how a class of goal was solved, and what must still
//! hold before it is replayed.
//!
//! A memory names the evidence that it rests on by tool, arguments and validity
//! token; it never carries the evidence itself.

use vstd::prelude::*;

use crate::goal_model::closure;
use crate::types::{
    CanonicalJson, GoalDuration, GoalNodeId, GoalTimestamp, GoalToolName, IntentSignature,
    IntentType, IntentView, MemoryId, OutcomeRef, Scope, SubtreeHash, TargetRef, TargetType,
    TokenView, ValidityToken,
};
use crate::views;

verus! {

/// What a memory records.
#[derive(Debug, Clone, Copy, PartialEq, Eq, PartialOrd, Ord, Hash, Structural)]
pub enum MemoryKind {
    /// One procedure for one intent.
    Fragment,
    /// A procedure composed of others.
    Composite,
    /// A dead end, for as long as its evidence holds.
    Negative,
}

/// A slot that a memory leaves open.
#[derive(Debug, PartialEq, Eq, PartialOrd, Ord, Hash)]
pub struct ParameterDef {
    /// The name of the slot.
    pub name: String,
    /// A hint at what fills the slot.
    pub kind: String,
}

/// The content of a value of [`ParameterDef`].
#[verifier::ext_equal]
pub struct ParameterDefView {
    pub name: Seq<char>,
    pub kind: Seq<char>,
}

impl View for ParameterDef {
    type V = ParameterDefView;

    open spec fn view(&self) -> ParameterDefView {
        ParameterDefView {
            name: self.name@,
            kind: self.kind@,
        }
    }
}

impl Clone for ParameterDef {
    fn clone(&self) -> (r: Self)
        ensures
            r == *self,
    {
        ParameterDef {
            name: self.name.clone(),
            kind: self.kind.clone(),
        }
    }
}

/// The slots that a memory leaves open; none means fully concrete.
#[derive(Debug, PartialEq, Eq, PartialOrd, Ord, Hash)]
pub struct ParameterSchema {
    /// The slots.
    pub parameters: Vec<ParameterDef>,
}

/// The content of a value of [`ParameterSchema`].
#[verifier::ext_equal]
pub struct ParameterSchemaView {
    pub parameters: Seq<ParameterDefView>,
}

impl View for ParameterSchema {
    type V = ParameterSchemaView;

    open spec fn view(&self) -> ParameterSchemaView {
        ParameterSchemaView {
            parameters: views::of_seq(self.parameters@),
        }
    }
}

impl Clone for ParameterSchema {
    fn clone(&self) -> (r: Self)
        ensures
            r@ == self@,
    {
        let r = ParameterSchema {
            parameters: self.parameters.clone(),
        };
        assert(views::of_seq(r.parameters@) =~= views::of_seq(self.parameters@));
        r
    }
}

impl Default for ParameterSchema {
    fn default() -> (r: Self)
        ensures
            r.parameters@.len() == 0,
    {
        ParameterSchema { parameters: Vec::new() }
    }
}

/// When a memory applies: each field that is set must equal the same field of
/// the querying signature.
#[derive(Debug, PartialEq, Eq, PartialOrd, Ord, Hash)]
pub struct Applicability {
    /// The intent type asked for, if any.
    pub required_intent_type: Option<IntentType>,
    /// The target type asked for, if any.
    pub required_target_type: Option<TargetType>,
    /// The target asked for, if any.
    pub required_target_ref: Option<TargetRef>,
    /// The scope asked for, if any.
    pub required_scope: Option<Scope>,
}

/// The content of a value of [`Applicability`].
#[verifier::ext_equal]
pub struct ApplicabilityView {
    pub required_intent_type: Option<Seq<char>>,
    pub required_target_type: Option<Seq<char>>,
    pub required_target_ref: Option<Seq<char>>,
    pub required_scope: Option<Seq<char>>,
}

impl View for Applicability {
    type V = ApplicabilityView;

    open spec fn view(&self) -> ApplicabilityView {
        ApplicabilityView {
            required_intent_type: views::of_option(self.required_intent_type),
            required_target_type: views::of_option(self.required_target_type),
            required_target_ref: views::of_option(self.required_target_ref),
            required_scope: views::of_option(self.required_scope),
        }
    }
}

impl Clone for Applicability {
    fn clone(&self) -> (r: Self)
        ensures
            r == *self,
    {
        Applicability {
            required_intent_type: match &self.required_intent_type {
                Some(x) => Some(x.clone()),
                None => None,
            },
            required_target_type: match &self.required_target_type {
                Some(x) => Some(x.clone()),
                None => None,
            },
            required_target_ref: match &self.required_target_ref {
                Some(x) => Some(x.clone()),
                None => None,
            },
            required_scope: match &self.required_scope {
                Some(x) => Some(x.clone()),
                None => None,
            },
        }
    }
}

impl Default for Applicability {
    fn default() -> (r: Self)
        ensures
            r.required_intent_type is None,
            r.required_target_type is None,
            r.required_target_ref is None,
            r.required_scope is None,
    {
        Applicability {
            required_intent_type: None,
            required_target_type: None,
            required_target_ref: None,
            required_scope: None,
        }
    }
}

/// Whether an optional requirement allows a value.
pub open spec fn allows(required: Option<Seq<char>>, actual: Seq<char>) -> bool {
    required is Some ==> required->0 == actual
}

impl ApplicabilityView {
    /// Whether the signature meets every requirement that is set.
    pub open spec fn applies_to(self, sig: IntentView) -> bool {
        &&& allows(self.required_intent_type, sig.intent_type)
        &&& allows(self.required_target_type, sig.target_type)
        &&& allows(self.required_target_ref, sig.target_ref)
        &&& allows(self.required_scope, sig.scope)
    }
}

impl Applicability {
    /// Applies to every signature.
    pub fn unconstrained() -> (r: Self)
        ensures
            forall|sig: IntentView| #[trigger] r@.applies_to(sig),
            r.required_intent_type is None,
            r.required_target_type is None,
            r.required_target_ref is None,
            r.required_scope is None,
    {
        Applicability::default()
    }

    /// Whether the signature meets every requirement that is set.
    pub fn applies_to(&self, sig: &IntentSignature) -> (r: bool)
        ensures
            r == self@.applies_to(sig@),
            r == {
                &&& self.required_intent_type is None || (self.required_intent_type->0)@
                    == sig.intent_type@
                &&& self.required_target_type is None || (self.required_target_type->0)@
                    == sig.target_type@
                &&& self.required_target_ref is None || (self.required_target_ref->0)@
                    == sig.target_ref@
                &&& self.required_scope is None || (self.required_scope->0)@ == sig.scope@
            },
    {
        (match &self.required_intent_type {
            Some(v) => v.0 == sig.intent_type.0,
            None => true,
        }) && (match &self.required_target_type {
            Some(v) => v.0 == sig.target_type.0,
            None => true,
        }) && (match &self.required_target_ref {
            Some(v) => v.0 == sig.target_ref.0,
            None => true,
        }) && (match &self.required_scope {
            Some(v) => v.0 == sig.scope.0,
            None => true,
        })
    }
}

/// One step of a plan.
#[derive(Debug, PartialEq, Eq, PartialOrd, Ord, Hash)]
pub struct PlanStep {
    /// What the step does.
    pub description: String,
    /// The tool it calls, if any.
    pub tool: Option<GoalToolName>,
    /// The intent it enacts, if any.
    pub intent: Option<IntentSignature>,
}

/// The content of a value of [`PlanStep`].
#[verifier::ext_equal]
pub struct PlanStepView {
    pub description: Seq<char>,
    pub tool: Option<Seq<char>>,
    pub intent: Option<IntentView>,
}

impl View for PlanStep {
    type V = PlanStepView;

    open spec fn view(&self) -> PlanStepView {
        PlanStepView {
            description: self.description@,
            tool: views::of_option(self.tool),
            intent: views::of_option(self.intent),
        }
    }
}

impl Clone for PlanStep {
    fn clone(&self) -> (r: Self)
        ensures
            r == *self,
    {
        PlanStep {
            description: self.description.clone(),
            tool: match &self.tool {
                Some(x) => Some(x.clone()),
                None => None,
            },
            intent: match &self.intent {
                Some(x) => Some(x.clone()),
                None => None,
            },
        }
    }
}

impl PlanStep {
    /// Whether the two steps agree on every field.
    pub fn same(&self, other: &PlanStep) -> (r: bool)
        ensures
            r == (self@ == other@),
    {
        let tool: bool = match (&self.tool, &other.tool) {
            (Some(a), Some(b)) => a.0 == b.0,
            (None, None) => true,
            _ => false,
        };
        let intent: bool = match (&self.intent, &other.intent) {
            (Some(a), Some(b)) => a.same(b),
            (None, None) => true,
            _ => false,
        };
        let r = self.description == other.description && tool && intent;
        assert(tool == (self@.tool == other@.tool));
        assert(intent == (self@.intent == other@.intent));
        assert(r ==> self@ =~= other@);
        r
    }
}

/// The steps to replay, in order.
#[derive(Debug, PartialEq, Eq, PartialOrd, Ord, Hash)]
pub struct Plan {
    /// The steps.
    pub steps: Vec<PlanStep>,
}

/// The content of a value of [`Plan`].
#[verifier::ext_equal]
pub struct PlanView {
    pub steps: Seq<PlanStepView>,
}

impl View for Plan {
    type V = PlanView;

    open spec fn view(&self) -> PlanView {
        PlanView {
            steps: views::of_seq(self.steps@),
        }
    }
}

impl Clone for Plan {
    fn clone(&self) -> (r: Self)
        ensures
            r@ == self@,
    {
        let r = Plan {
            steps: self.steps.clone(),
        };
        assert(views::of_seq(r.steps@) =~= views::of_seq(self.steps@));
        r
    }
}

impl Default for Plan {
    fn default() -> (r: Self)
        ensures
            r.steps@.len() == 0,
    {
        Plan { steps: Vec::new() }
    }
}

impl Plan {
    /// Whether the two plans have the same steps in the same order.
    pub fn same(&self, other: &Plan) -> (r: bool)
        ensures
            r == (self@ == other@),
    {
        if self.steps.len() != other.steps.len() {
            assert(self@.steps.len() != other@.steps.len());
            return false;
        }
        let mut i: usize = 0;
        while i < self.steps.len()
            invariant
                i <= self.steps@.len(),
                self.steps@.len() == other.steps@.len(),
                forall|j: int| 0 <= j < i ==> #[trigger] self@.steps[j] == other@.steps[j],
            decreases self.steps@.len() - i,
        {
            if !self.steps[i].same(&other.steps[i]) {
                assert(self@.steps[i as int] != other@.steps[i as int]);
                return false;
            }
            i += 1;
        }
        assert(self@.steps =~= other@.steps);
        true
    }
}

/// One result that a replay depends on: which one, and how its freshness is checked.
#[derive(Debug, PartialEq, Eq, PartialOrd, Ord, Hash)]
pub struct EvidenceContractItem {
    /// The tool that gave the result.
    pub tool: GoalToolName,
    /// The arguments in canonical form.
    pub normalized_args: CanonicalJson,
    /// How freshness is checked again.
    pub validity_token: ValidityToken,
}

/// The content of a value of [`EvidenceContractItem`].
#[verifier::ext_equal]
pub struct EvidenceItemView {
    pub tool: Seq<char>,
    pub normalized_args: Seq<char>,
    pub validity_token: TokenView,
}

impl View for EvidenceContractItem {
    type V = EvidenceItemView;

    open spec fn view(&self) -> EvidenceItemView {
        EvidenceItemView {
            tool: self.tool@,
            normalized_args: self.normalized_args@,
            validity_token: self.validity_token@,
        }
    }
}

impl Clone for EvidenceContractItem {
    fn clone(&self) -> (r: Self)
        ensures
            r == *self,
    {
        EvidenceContractItem {
            tool: self.tool.clone(),
            normalized_args: self.normalized_args.clone(),
            validity_token: self.validity_token.clone(),
        }
    }
}

/// The results that a replay depends on.
#[derive(Debug, PartialEq, Eq, PartialOrd, Ord, Hash)]
pub struct EvidenceContract {
    /// The results.
    pub items: Vec<EvidenceContractItem>,
}

/// The content of a value of [`EvidenceContract`].
#[verifier::ext_equal]
pub struct EvidenceContractView {
    pub items: Seq<EvidenceItemView>,
}

impl View for EvidenceContract {
    type V = EvidenceContractView;

    open spec fn view(&self) -> EvidenceContractView {
        EvidenceContractView {
            items: views::of_seq(self.items@),
        }
    }
}

impl Clone for EvidenceContract {
    fn clone(&self) -> (r: Self)
        ensures
            r@ == self@,
    {
        let r = EvidenceContract {
            items: self.items.clone(),
        };
        assert(views::of_seq(r.items@) =~= views::of_seq(self.items@));
        r
    }
}

impl Default for EvidenceContract {
    fn default() -> (r: Self)
        ensures
            r.items@.len() == 0,
    {
        EvidenceContract { items: Vec::new() }
    }
}

impl EvidenceContract {
    /// Whether the replay depends on nothing.
    pub fn is_empty(&self) -> (r: bool)
        ensures
            r == (self@.items.len() == 0),
    {
        self.items.len() == 0
    }
}

/// The form of what a successful replay yields.
#[derive(Debug, PartialEq, Eq, PartialOrd, Ord, Hash)]
pub struct OutcomeShape {
    /// Where the result is found.
    pub result_ref: OutcomeRef,
    /// What the result looks like.
    pub schema: String,
}

/// The content of a value of [`OutcomeShape`].
#[verifier::ext_equal]
pub struct OutcomeShapeView {
    pub result_ref: Seq<char>,
    pub schema: Seq<char>,
}

impl View for OutcomeShape {
    type V = OutcomeShapeView;

    open spec fn view(&self) -> OutcomeShapeView {
        OutcomeShapeView {
            result_ref: self.result_ref@,
            schema: self.schema@,
        }
    }
}

impl Clone for OutcomeShape {
    fn clone(&self) -> (r: Self)
        ensures
            r == *self,
    {
        OutcomeShape {
            result_ref: self.result_ref.clone(),
            schema: self.schema.clone(),
        }
    }
}

/// An answer, as canonical JSON.
#[derive(Debug, PartialEq, Eq, PartialOrd, Ord, Hash)]
pub struct OutcomeValue(pub CanonicalJson);

impl View for OutcomeValue {
    type V = Seq<char>;

    open spec fn view(&self) -> Seq<char> {
        self.0@
    }
}

impl Clone for OutcomeValue {
    fn clone(&self) -> (r: Self)
        ensures
            r == *self,
    {
        OutcomeValue(self.0.clone())
    }
}

/// How a cached answer may be served.
#[derive(Debug, Clone, Copy, PartialEq, Eq, PartialOrd, Ord, Hash)]
pub enum AnswerMode {
    /// Mode A: every dependency is pinned by its content, and the answer is
    /// served as verified while all of them hold.
    SoundPinnable,
    /// Mode B: opt-in, bounded by age, and always served as unverified.
    BoundedVolatile {
        /// The greatest age at which the answer is served.
        max_age: GoalDuration,
    },
}

/// An answer kept for a goal.
#[derive(Debug, PartialEq, Eq, PartialOrd, Ord, Hash)]
pub struct CachedOutcome {
    /// The answer.
    pub answer: OutcomeValue,
    /// How it may be served.
    pub mode: AnswerMode,
    /// Every token that the answer depends on.
    pub validity_tokens: Vec<ValidityToken>,
    /// When the answer was captured.
    pub issued_at: GoalTimestamp,
}

/// The content of a value of [`CachedOutcome`].
#[verifier::ext_equal]
pub struct CachedOutcomeView {
    pub answer: Seq<char>,
    pub mode: AnswerMode,
    pub validity_tokens: Seq<TokenView>,
    pub issued_at: u64,
}

impl View for CachedOutcome {
    type V = CachedOutcomeView;

    open spec fn view(&self) -> CachedOutcomeView {
        CachedOutcomeView {
            answer: self.answer@,
            mode: self.mode,
            validity_tokens: views::of_seq(self.validity_tokens@),
            issued_at: self.issued_at.0,
        }
    }
}

impl Clone for CachedOutcome {
    fn clone(&self) -> (r: Self)
        ensures
            r@ == self@,
    {
        let r = CachedOutcome {
            answer: self.answer.clone(),
            mode: self.mode,
            validity_tokens: self.validity_tokens.clone(),
            issued_at: self.issued_at,
        };
        assert(views::of_seq(r.validity_tokens@) =~= views::of_seq(self.validity_tokens@));
        r
    }
}

/// The resolved subtrees that a memory came from.
#[derive(Debug, PartialEq, Eq, PartialOrd, Ord, Hash)]
pub struct Provenance {
    /// Node and subtree hash of each.
    pub origins: Vec<(GoalNodeId, SubtreeHash)>,
}

/// The content of a value of [`Provenance`].
#[verifier::ext_equal]
pub struct ProvenanceView {
    pub origins: Seq<(Seq<char>, Seq<char>)>,
}

impl View for Provenance {
    type V = ProvenanceView;

    open spec fn view(&self) -> ProvenanceView {
        ProvenanceView {
            origins: closure::pair_views(self.origins@),
        }
    }
}

impl Clone for Provenance {
    fn clone(&self) -> (r: Self)
        ensures
            r@ == self@,
    {
        Provenance {
            origins: closure::clone_pairs(&self.origins),
        }
    }
}

impl Default for Provenance {
    fn default() -> (r: Self)
        ensures
            r.origins@.len() == 0,
    {
        Provenance { origins: Vec::new() }
    }
}

/// How often a memory was seen again.
#[derive(Debug, Clone, Copy, PartialEq, Eq, PartialOrd, Ord, Hash)]
pub struct Reinforcement {
    /// How often the memory was found.
    pub hits: u64,
    /// How often a replay succeeded.
    pub confirms: u64,
    /// How often a replay was contradicted.
    pub contradicts: u64,
    /// When the counts last changed.
    pub last_updated: GoalTimestamp,
}

impl Default for Reinforcement {
    fn default() -> (r: Self)
        ensures
            r == (Reinforcement {
                hits: 0,
                confirms: 0,
                contradicts: 0,
                last_updated: GoalTimestamp(0),
            }),
    {
        Reinforcement { hits: 0, confirms: 0, contradicts: 0, last_updated: GoalTimestamp(0) }
    }
}

/// The version of a memory: the hash of the subtree it came from.
#[derive(Debug, PartialEq, Eq, PartialOrd, Ord, Hash)]
pub struct MemoryVersion(pub SubtreeHash);

impl View for MemoryVersion {
    type V = Seq<char>;

    open spec fn view(&self) -> Seq<char> {
        self.0@
    }
}

impl Clone for MemoryVersion {
    fn clone(&self) -> (r: Self)
        ensures
            r == *self,
    {
        MemoryVersion(self.0.clone())
    }
}

/// How a class of goal was solved.
#[derive(Debug, PartialEq, Eq, PartialOrd, Ord, Hash)]
pub struct Memory {
    /// Identifies the memory.
    pub id: MemoryId,
    /// What the memory records.
    pub kind: MemoryKind,
    /// The intent it answers.
    pub intent: IntentSignature,
    /// The slots it leaves open.
    pub parameter_schema: ParameterSchema,
    /// When it applies.
    pub applicability: Applicability,
    /// The steps to replay.
    pub plan: Plan,
    /// What must still hold before the plan is trusted.
    pub evidence_contract: EvidenceContract,
    /// The form of what a replay yields.
    pub outcome_shape: OutcomeShape,
    /// An answer kept for the goal, if any.
    pub cached_outcome: Option<CachedOutcome>,
    /// Where the memory came from.
    pub provenance: Provenance,
    /// How often it was seen again.
    pub reinforcement: Reinforcement,
    /// Its version.
    pub version: MemoryVersion,
}

/// The content of a value of [`Memory`].
#[verifier::ext_equal]
pub struct MemoryView {
    pub id: Seq<char>,
    pub kind: MemoryKind,
    pub intent: IntentView,
    pub parameter_schema: ParameterSchemaView,
    pub applicability: ApplicabilityView,
    pub plan: PlanView,
    pub evidence_contract: EvidenceContractView,
    pub outcome_shape: OutcomeShapeView,
    pub cached_outcome: Option<CachedOutcomeView>,
    pub provenance: ProvenanceView,
    pub reinforcement: Reinforcement,
    pub version: Seq<char>,
}

impl View for Memory {
    type V = MemoryView;

    open spec fn view(&self) -> MemoryView {
        MemoryView {
            id: self.id@,
            kind: self.kind,
            intent: self.intent@,
            parameter_schema: self.parameter_schema@,
            applicability: self.applicability@,
            plan: self.plan@,
            evidence_contract: self.evidence_contract@,
            outcome_shape: self.outcome_shape@,
            cached_outcome: views::of_option(self.cached_outcome),
            provenance: self.provenance@,
            reinforcement: self.reinforcement,
            version: self.version@,
        }
    }
}

impl Clone for Memory {
    fn clone(&self) -> (r: Self)
        ensures
            r@ == self@,
    {
        Memory {
            id: self.id.clone(),
            kind: self.kind,
            intent: self.intent.clone(),
            parameter_schema: self.parameter_schema.clone(),
            applicability: self.applicability.clone(),
            plan: self.plan.clone(),
            evidence_contract: self.evidence_contract.clone(),
            outcome_shape: self.outcome_shape.clone(),
            cached_outcome: match &self.cached_outcome {
                Some(x) => Some(x.clone()),
                None => None,
            },
            provenance: self.provenance.clone(),
            reinforcement: self.reinforcement,
            version: self.version.clone(),
        }
    }
}

/// A vector of single-precision numbers, each by its IEEE 754 bit pattern.
#[derive(Debug, PartialEq, Eq, Hash)]
pub struct Embedding(pub Vec<u32>);

impl View for Embedding {
    type V = Seq<u32>;

    open spec fn view(&self) -> Seq<u32> {
        self.0@
    }
}

impl Clone for Embedding {
    fn clone(&self) -> (r: Self)
        ensures
            r@ == self@,
    {
        let r = Embedding(self.0.clone());
        assert(r@ =~= self@);
        r
    }
}

impl Default for Embedding {
    fn default() -> (r: Self)
        ensures
            r@ == Seq::<u32>::empty(),
    {
        Embedding(Vec::new())
    }
}

/// What a store keeps for a memory.
#[derive(Debug, PartialEq)]
pub struct MemoryRecord {
    /// The identifier of the memory.
    pub id: MemoryId,
    /// The intent type of the memory.
    pub intent_type: IntentType,
    /// The target type of the memory.
    pub target_type: TargetType,
    /// The target of the memory.
    pub target_ref: TargetRef,
    /// The scope of the memory.
    pub scope: Scope,
    /// The kind of the memory.
    pub kind: MemoryKind,
    /// The vector it is recalled by.
    pub embedding: Embedding,
    /// The memory.
    pub body: Memory,
    /// The node it was learned from.
    pub node_id: GoalNodeId,
    /// The hash of the subtree it was learned from.
    pub subtree_hash: SubtreeHash,
    /// When the record was made.
    pub created_at: GoalTimestamp,
    /// When the record last changed.
    pub updated_at: GoalTimestamp,
}

/// The content of a value of [`MemoryRecord`].
#[verifier::ext_equal]
pub struct MemoryRecordView {
    pub id: Seq<char>,
    pub intent_type: Seq<char>,
    pub target_type: Seq<char>,
    pub target_ref: Seq<char>,
    pub scope: Seq<char>,
    pub kind: MemoryKind,
    pub embedding: Seq<u32>,
    pub body: MemoryView,
    pub node_id: Seq<char>,
    pub subtree_hash: Seq<char>,
    pub created_at: u64,
    pub updated_at: u64,
}

impl View for MemoryRecord {
    type V = MemoryRecordView;

    open spec fn view(&self) -> MemoryRecordView {
        MemoryRecordView {
            id: self.id@,
            intent_type: self.intent_type@,
            target_type: self.target_type@,
            target_ref: self.target_ref@,
            scope: self.scope@,
            kind: self.kind,
            embedding: self.embedding@,
            body: self.body@,
            node_id: self.node_id@,
            subtree_hash: self.subtree_hash@,
            created_at: self.created_at.0,
            updated_at: self.updated_at.0,
        }
    }
}

impl Clone for MemoryRecord {
    fn clone(&self) -> (r: Self)
        ensures
            r@ == self@,
    {
        MemoryRecord {
            id: self.id.clone(),
            intent_type: self.intent_type.clone(),
            target_type: self.target_type.clone(),
            target_ref: self.target_ref.clone(),
            scope: self.scope.clone(),
            kind: self.kind,
            embedding: self.embedding.clone(),
            body: self.body.clone(),
            node_id: self.node_id.clone(),
            subtree_hash: self.subtree_hash.clone(),
            created_at: self.created_at,
            updated_at: self.updated_at,
        }
    }
}

} // verus!
