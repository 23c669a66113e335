//! What is learned from a goal, in terms of the goal's own texts.

use vstd::prelude::*;

use crate::goal_model::model::{GoalNodeView, Resolution};
use crate::text;
use crate::tier2::induction;
use crate::tier2::induction::{Decision, DistilledView, Granularity};
use crate::tier2::memory::{EvidenceItemView, MemoryKind, PlanStepView};
use crate::tier2::resolution;

verus! {

/// Whether a text has a character that is not white space.
pub open spec fn says_something(s: Seq<char>) -> bool {
    exists|i: int| 0 <= i < s.len() && !text::is_white(#[trigger] s[i])
}

/// The texts of a goal that say something: its hypothesis and its conditions, in
/// order.
pub open spec fn told(node: DistilledView) -> Seq<Seq<char>> {
    (seq![node.hypothesis] + node.resolution_conditions).filter(
        |t: Seq<char>| says_something(t),
    )
}

proof fn lemma_steps_are_told(texts: Seq<Seq<char>>)
    ensures
        resolution::steps(texts).map_values(|s: PlanStepView| s.description) == texts.filter(
            |t: Seq<char>| says_something(t),
        ),
        forall|i: int|
            0 <= i < resolution::steps(texts).len() ==> (#[trigger] resolution::steps(
                texts,
            )[i]).tool is None && resolution::steps(texts)[i].intent is None,
    decreases texts.len(),
{
    reveal(Seq::filter);
    let description = |s: PlanStepView| s.description;
    let worth = |t: Seq<char>| says_something(t);
    if texts.len() > 0 {
        let init = texts.drop_last();
        lemma_steps_are_told(init);
        let steps = resolution::steps(init);
        if says_something(texts.last()) {
            assert(!text::is_blank(texts.last()));
            assert(resolution::steps(texts).map_values(description) =~= steps.map_values(
                description,
            ).push(texts.last()));
        } else {
            assert(text::is_blank(texts.last()));
        }
        assert forall|i: int| 0 <= i < resolution::steps(texts).len() implies (
        #[trigger] resolution::steps(texts)[i]).tool is None && resolution::steps(
            texts,
        )[i].intent is None by {
            if i < steps.len() {
                assert(resolution::steps(texts)[i] == steps[i]);
            }
        }
    } else {
        assert(resolution::steps(texts).map_values(description) =~= texts.filter(worth));
    }
}

/// The plan of a memory lists the hypothesis and every condition of its goal that
/// says something, each as often and in the order in which the goal has them, and
/// nothing else. No step names a tool or an intent.
pub proof fn law_plan_lists_every_text(granularity: Granularity, node: DistilledView)
    requires
        resolution::authored(granularity, node) is Ok,
    ensures
        ({
            let steps = resolution::authored(granularity, node)->Ok_0.plan.steps;
            &&& steps.map_values(|s: PlanStepView| s.description) == told(node)
            &&& forall|i: int|
                0 <= i < steps.len() ==> (#[trigger] steps[i]).tool is None && steps[i].intent
                    is None
        }),
{
    lemma_steps_are_told(seq![node.hypothesis] + node.resolution_conditions);
}

/// A memory is written exactly where the goal has a hash and a fragment is asked
/// for.
pub proof fn law_fragments_of_hashed_goals_are_written(
    granularity: Granularity,
    node: DistilledView,
)
    ensures
        resolution::authored(granularity, node) is Ok <==> node.subtree_hash is Some && granularity
            == Granularity::Fragment,
{
}

/// A memory names the goal and the hash it was learned from, takes over its intent,
/// applies wherever the intent type is the goal's, rests on no evidence, carries no
/// answer and has not been counted yet.
pub proof fn law_memory_names_its_goal(granularity: Granularity, node: DistilledView)
    requires
        resolution::authored(granularity, node) is Ok,
    ensures
        ({
            let mem = resolution::authored(granularity, node)->Ok_0;
            let hash = node.subtree_hash->0;
            &&& mem.id == "mem-"@ + node.id + "-"@ + hash
            &&& mem.kind == MemoryKind::Fragment
            &&& mem.intent == node.intent
            &&& mem.provenance.origins == seq![(node.id, hash)]
            &&& hash.len() > 0 ==> mem.version == hash
            &&& hash.len() == 0 ==> mem.version == node.id
            &&& mem.applicability.required_intent_type == Some(node.intent.intent_type)
            &&& mem.applicability.required_target_type is None
            &&& mem.applicability.required_target_ref is None
            &&& mem.applicability.required_scope is None
            &&& mem.parameter_schema.parameters.len() == 0
            &&& mem.evidence_contract.items == Seq::<EvidenceItemView>::empty()
            &&& mem.outcome_shape.result_ref == "outcome://"@ + node.id
            &&& mem.outcome_shape.schema.len() == 0
            &&& mem.cached_outcome is None
            &&& mem.reinforcement.hits == 0
            &&& mem.reinforcement.confirms == 0
            &&& mem.reinforcement.contradicts == 0
            &&& mem.reinforcement.last_updated.0 == 0
        }),
{
}

/// A goal is found worth a memory exactly when it was accepted, and then a fragment
/// is asked for.
pub proof fn law_accepted_goals_are_worth_a_fragment(resolution: Resolution)
    ensures
        resolution::judged(resolution).decision == Decision::Approve <==> resolution
            == Resolution::Accepted,
        resolution::judged(resolution).decision == Decision::Decline <==> resolution
            != Resolution::Accepted,
        resolution::judged(resolution).granularity == Granularity::Fragment,
{
}

/// Judge and author see a goal's own texts, resolution, intent and hash, unchanged.
pub proof fn law_context_shows_the_goal(node: GoalNodeView)
    ensures
        induction::distilled(node).id == node.id,
        induction::distilled(node).resolution == node.resolution,
        induction::distilled(node).intent == node.intent,
        induction::distilled(node).subtree_hash == node.subtree_hash,
        induction::distilled(node).hypothesis == node.hypothesis,
        induction::distilled(node).resolution_conditions == node.resolution_conditions,
{
}

} // verus!
