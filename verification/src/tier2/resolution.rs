//! A judge and an author that go by a node's resolution alone.

use vstd::prelude::*;
use vstd::string::*;

use crate::goal_model::model::Resolution;
use crate::text;
use crate::tier2::induction;
use crate::tier2::induction::{
    Author, AuthorError, CleanContext, DistilledNode, DistilledView, Granularity, Judge,
    JudgeVerdict, VerdictView,
};
use crate::tier2::memory::{
    Applicability, ApplicabilityView, EvidenceContract, EvidenceContractView, Memory, MemoryKind,
    MemoryVersion, MemoryView, OutcomeShape, OutcomeShapeView, ParameterSchema,
    ParameterSchemaView, Plan, PlanStep, PlanStepView, PlanView, Provenance, ProvenanceView,
    Reinforcement,
};
use crate::tier2::store;
use crate::types::{GoalTimestamp, MemoryId, OutcomeRef, Sha256, SubtreeHash};
use crate::views;

verus! {

/// Finds accepted goals worth a memory, and no others.
#[derive(Debug, Clone, Copy)]
pub struct GoalResolutionJudge;

/// The verdict on a node with this resolution.
pub open spec fn judged(resolution: Resolution) -> VerdictView {
    match resolution {
        Resolution::Accepted => induction::approval(
            Granularity::Fragment,
            "goal resolved as accepted; the solved procedure is worth remembering"@,
        ),
        Resolution::Rejected => induction::refusal(
            "goal was rejected; a rejected goal is not authored"@,
        ),
        Resolution::Inconclusive => induction::refusal(
            "goal was inconclusive; an inconclusive goal is not authored"@,
        ),
        Resolution::Open => induction::refusal(
            "goal is still open; an open goal is not authored"@,
        ),
    }
}

impl GoalResolutionJudge {
    /// A judge.
    pub fn new() -> (r: Self) {
        GoalResolutionJudge
    }
}

impl Default for GoalResolutionJudge {
    fn default() -> (r: Self) {
        GoalResolutionJudge
    }
}

impl Judge for GoalResolutionJudge {
    open spec fn may_judge(
        before: Self,
        node: DistilledView,
        verdict: VerdictView,
        after: Self,
    ) -> bool {
        verdict == judged(node.resolution)
    }

    fn evaluate(&mut self, ctx: &CleanContext) -> (r: JudgeVerdict) {
        match ctx.node().resolution {
            Resolution::Accepted => JudgeVerdict::approve(
                Granularity::Fragment,
                "goal resolved as accepted; the solved procedure is worth remembering",
            ),
            Resolution::Rejected => JudgeVerdict::decline(
                "goal was rejected; a rejected goal is not authored",
            ),
            Resolution::Inconclusive => JudgeVerdict::decline(
                "goal was inconclusive; an inconclusive goal is not authored",
            ),
            Resolution::Open => JudgeVerdict::decline(
                "goal is still open; an open goal is not authored",
            ),
        }
    }
}

/// Writes a fragment from a node's hypothesis and conditions.
#[derive(Debug, Clone, Copy)]
pub struct GoalResolutionAuthor;

/// A step that only describes.
pub open spec fn step(description: Seq<char>) -> PlanStepView {
    PlanStepView { description, tool: None, intent: None }
}

/// A step for each text that is not blank, in order.
pub open spec fn steps(texts: Seq<Seq<char>>) -> Seq<PlanStepView>
    decreases texts.len(),
{
    if texts.len() == 0 {
        Seq::empty()
    } else if text::is_blank(texts.last()) {
        steps(texts.drop_last())
    } else {
        steps(texts.drop_last()).push(step(texts.last()))
    }
}

/// What the memory of a node is versioned by: the subtree hash, or the node's
/// identifier where the hash is empty.
pub open spec fn version_key(node: DistilledView, hash: Seq<char>) -> Seq<char> {
    if hash.len() == 0 {
        node.id
    } else {
        hash
    }
}

/// The memory of a node with this subtree hash.
pub open spec fn memory_of(node: DistilledView, hash: Seq<char>) -> MemoryView {
    MemoryView {
        id: "mem-"@ + node.id + "-"@ + hash,
        kind: MemoryKind::Fragment,
        intent: node.intent,
        parameter_schema: ParameterSchemaView { parameters: Seq::empty() },
        applicability: ApplicabilityView {
            required_intent_type: Some(node.intent.intent_type),
            required_target_type: None,
            required_target_ref: None,
            required_scope: None,
        },
        plan: PlanView { steps: steps(seq![node.hypothesis] + node.resolution_conditions) },
        evidence_contract: EvidenceContractView { items: Seq::empty() },
        outcome_shape: OutcomeShapeView {
            result_ref: "outcome://"@ + node.id,
            schema: Seq::empty(),
        },
        cached_outcome: None,
        provenance: ProvenanceView { origins: seq![(node.id, hash)] },
        reinforcement: Reinforcement {
            hits: 0,
            confirms: 0,
            contradicts: 0,
            last_updated: GoalTimestamp(0),
        },
        version: version_key(node, hash),
    }
}

/// What is written for a node.
pub open spec fn authored(granularity: Granularity, node: DistilledView) -> Result<
    MemoryView,
    Seq<char>,
> {
    if node.subtree_hash is None {
        Err("cannot author a memory: resolved node has no subtree_hash"@)
    } else if !(granularity is Fragment) {
        Err(
            "unsupported granularity "@ + granularity.name()
                + "; this author writes fragments only"@,
        )
    } else {
        Ok(memory_of(node, node.subtree_hash->0))
    }
}

impl GoalResolutionAuthor {
    /// An author.
    pub fn new() -> (r: Self) {
        GoalResolutionAuthor
    }
}

impl Default for GoalResolutionAuthor {
    fn default() -> (r: Self) {
        GoalResolutionAuthor
    }
}

fn unsupported(granularity: Granularity) -> (r: AuthorError)
    ensures
        r@ == "unsupported granularity "@ + granularity.name()
            + "; this author writes fragments only"@,
{
    let mut message = "unsupported granularity ".to_owned();
    message.append(
        match granularity {
            Granularity::Fragment => "Fragment",
            Granularity::Composite => "Composite",
            Granularity::Negative => "Negative",
        },
    );
    message.append("; this author writes fragments only");
    AuthorError(message)
}

fn plan_steps(node: &DistilledNode) -> (r: Vec<PlanStep>)
    ensures
        views::of_seq(r@) == steps(seq![node@.hypothesis] + node@.resolution_conditions),
{
    let ghost texts = seq![node@.hypothesis] + node@.resolution_conditions;
    let mut r: Vec<PlanStep> = Vec::new();
    proof {
        assert(texts.take(1).drop_last() =~= texts.take(0));
        assert(texts.take(1).last() == node@.hypothesis);
        assert(views::of_seq(r@) =~= steps(texts.take(0)));
    }
    if !text::blank(node.hypothesis.as_str()) {
        let ghost before = views::of_seq(r@);
        r.push(PlanStep { description: node.hypothesis.clone(), tool: None, intent: None });
        assert(views::of_seq(r@) =~= before.push(step(node@.hypothesis)));
    }
    let mut i: usize = 0;
    while i < node.resolution_conditions.len()
        invariant
            i <= node.resolution_conditions@.len(),
            texts == seq![node@.hypothesis] + node@.resolution_conditions,
            views::of_seq(r@) == steps(texts.take(i + 1)),
        decreases node.resolution_conditions@.len() - i,
    {
        proof {
            assert(texts.take(i + 2).drop_last() =~= texts.take(i + 1));
            assert(texts.take(i + 2).last() == node.resolution_conditions@[i as int]@);
        }
        if !text::blank(node.resolution_conditions[i].as_str()) {
            let ghost before = views::of_seq(r@);
            r.push(
                PlanStep {
                    description: node.resolution_conditions[i].clone(),
                    tool: None,
                    intent: None,
                },
            );
            assert(views::of_seq(r@) =~= before.push(
                step(node.resolution_conditions@[i as int]@),
            ));
        }
        i += 1;
    }
    assert(texts.take(i + 1) =~= texts);
    r
}

impl Author for GoalResolutionAuthor {
    open spec fn may_write(
        before: Self,
        granularity: Granularity,
        node: DistilledView,
        written: Result<MemoryView, Seq<char>>,
        after: Self,
    ) -> bool {
        written == authored(granularity, node)
    }

    fn write(&mut self, granularity: Granularity, ctx: &CleanContext) -> (r: Result<
        Memory,
        AuthorError,
    >) {
        let node = ctx.node();
        let subtree_hash = match &node.subtree_hash {
            Some(hash) => hash.clone(),
            None => {
                return Err(
                    AuthorError::new(
                        "cannot author a memory: resolved node has no subtree_hash",
                    ),
                );
            },
        };
        if granularity != Granularity::Fragment {
            return Err(unsupported(granularity));
        }
        let mut id = "mem-".to_owned();
        id.append(node.id.0.as_str());
        id.append("-");
        id.append(subtree_hash.0.0.as_str());
        let mut result_ref = "outcome://".to_owned();
        result_ref.append(node.id.0.as_str());
        let steps = plan_steps(node);
        let mut applicability = Applicability::default();
        applicability.required_intent_type = Some(node.intent.intent_type.clone());
        let mut origins = Vec::new();
        origins.push((node.id.clone(), subtree_hash.clone()));
        let version = if subtree_hash.0.0.as_str().unicode_len() == 0 {
            SubtreeHash(Sha256(node.id.0.clone()))
        } else {
            subtree_hash
        };
        let mem = Memory {
            id: MemoryId(id),
            kind: MemoryKind::Fragment,
            intent: node.intent.clone(),
            parameter_schema: ParameterSchema::default(),
            applicability,
            plan: Plan { steps },
            evidence_contract: EvidenceContract::default(),
            outcome_shape: OutcomeShape {
                result_ref: OutcomeRef(result_ref),
                schema: String::new(),
            },
            cached_outcome: None,
            provenance: Provenance { origins },
            reinforcement: Reinforcement::default(),
            version: MemoryVersion(version),
        };
        proof {
            let view = memory_of(node@, node@.subtree_hash->0);
            assert(mem@.parameter_schema =~= view.parameter_schema);
            assert(mem@.evidence_contract =~= view.evidence_contract);
            assert(mem@.provenance.origins =~= view.provenance.origins);
            assert(mem@.outcome_shape =~= view.outcome_shape);
            assert(mem@ =~= view);
        }
        Ok(mem)
    }
}

/// What this author writes may be kept, applies to the goal it was written for,
/// and carries no answer.
pub proof fn law_authored_memory_is_valid(
    granularity: Granularity,
    node: DistilledView,
)
    requires
        authored(granularity, node) is Ok,
    ensures
        store::fault(authored(granularity, node)->Ok_0) is None,
        authored(granularity, node)->Ok_0.applicability.applies_to(node.intent),
        authored(granularity, node)->Ok_0.cached_outcome is None,
        authored(granularity, node)->Ok_0.intent == node.intent,
{
}

/// The judge approves exactly the accepted goals, and only fragments.
pub proof fn law_only_accepted_goals_are_approved(resolution: Resolution)
    ensures
        judged(resolution).decision is Approve <==> resolution == Resolution::Accepted,
        judged(resolution).granularity is Fragment,
{
}

} // verus!
