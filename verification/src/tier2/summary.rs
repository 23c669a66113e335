//! Short descriptions of what similar goals did and concluded. Off unless asked
//! for.

use vstd::prelude::*;
use vstd::string::*;

use crate::text;
use crate::tier2::memory::{
    AnswerMode, CachedOutcomeView, EvidenceContractView, Memory, MemoryKind, MemoryView,
    PlanStepView,
};
use crate::tier2::retrieval::{Retrieval, ScoredMemory, ScoredView};
use crate::types::IntentSignature;
use crate::views;

verus! {

/// Whether descriptions are made, and how many.
#[derive(Debug, Clone, Copy, PartialEq, Eq)]
pub struct SummaryConfig {
    /// Whether descriptions are made.
    pub enabled: bool,
    /// The most descriptions made, if there is a bound.
    pub max_summaries: Option<usize>,
}

impl Default for SummaryConfig {
    fn default() -> (r: Self)
        ensures
            !r.enabled,
            r.max_summaries is None,
    {
        SummaryConfig { enabled: false, max_summaries: None }
    }
}

/// The description of a similar goal.
#[derive(Debug, PartialEq, Eq)]
pub struct GoalSummary {
    /// What was done.
    pub did: String,
    /// What came of it.
    pub concluded: String,
    /// Whether it was a dead end.
    pub dead_end: bool,
}

/// The content of a description.
#[verifier::ext_equal]
pub struct SummaryView {
    pub did: Seq<char>,
    pub concluded: Seq<char>,
    pub dead_end: bool,
}

impl View for GoalSummary {
    type V = SummaryView;

    open spec fn view(&self) -> SummaryView {
        SummaryView { did: self.did@, concluded: self.concluded@, dead_end: self.dead_end }
    }
}

impl Clone for GoalSummary {
    fn clone(&self) -> (r: Self)
        ensures
            r == *self,
    {
        GoalSummary {
            did: self.did.clone(),
            concluded: self.concluded.clone(),
            dead_end: self.dead_end,
        }
    }
}

/// The descriptions of steps, in order.
pub open spec fn step_texts(steps: Seq<PlanStepView>) -> Seq<Seq<char>> {
    steps.map_values(|s: PlanStepView| s.description)
}

/// What was done: the intent and the steps of the plan.
pub open spec fn did_text(mem: MemoryView) -> Seq<char> {
    mem.intent.intent_type + " "@ + mem.intent.target_type + " "@ + mem.intent.target_ref
        + " (scope: "@ + mem.intent.scope + ")"@ + if mem.plan.steps.len() == 0 {
        " — no recorded steps"@
    } else {
        " — steps: "@ + text::joined(step_texts(mem.plan.steps), "; "@)
    }
}

/// The kind of a cached answer.
pub open spec fn answer_text(cached: Option<CachedOutcomeView>) -> Seq<char> {
    match cached {
        Some(outcome) => match outcome.mode {
            AnswerMode::SoundPinnable => "; a cached answer is available (sound/pinnable)"@,
            AnswerMode::BoundedVolatile { .. } =>
                "; a cached answer is available (bounded-volatile)"@,
        },
        None => "; no cached answer"@,
    }
}

/// What came of it: the kind of the memory, the form of its outcome, and the
/// kind of its cached answer.
pub open spec fn concluded_text(mem: MemoryView) -> Seq<char> {
    match mem.kind {
        MemoryKind::Negative =>
            "learned dead-end: this approach did not resolve the goal (outcome shape: "@
            + mem.outcome_shape.schema + ")"@,
        MemoryKind::Fragment => "resolved as a fragment procedure; outcome shape: "@
            + mem.outcome_shape.schema + answer_text(mem.cached_outcome),
        MemoryKind::Composite => "resolved as a composite procedure; outcome shape: "@
            + mem.outcome_shape.schema + answer_text(mem.cached_outcome),
    }
}

/// The description of a memory.
pub open spec fn summarized(mem: MemoryView) -> SummaryView {
    SummaryView {
        did: did_text(mem),
        concluded: concluded_text(mem),
        dead_end: mem.kind == MemoryKind::Negative,
    }
}

fn describe_did(mem: &Memory) -> (r: String)
    ensures
        r@ == did_text(mem@),
{
    let mut did = mem.intent.intent_type.0.clone();
    did.append(" ");
    did.append(mem.intent.target_type.0.as_str());
    did.append(" ");
    did.append(mem.intent.target_ref.0.as_str());
    did.append(" (scope: ");
    did.append(mem.intent.scope.0.as_str());
    did.append(")");
    if mem.plan.steps.len() == 0 {
        did.append(" — no recorded steps");
        return did;
    }
    let mut steps: Vec<String> = Vec::new();
    let mut i: usize = 0;
    while i < mem.plan.steps.len()
        invariant
            i <= mem.plan.steps@.len(),
            steps@.len() == i,
            forall|j: int| 0 <= j < i ==> (#[trigger] steps@[j])@ == mem@.plan.steps[j].description,
        decreases mem.plan.steps@.len() - i,
    {
        steps.push(mem.plan.steps[i].description.clone());
        i += 1;
    }
    assert(views::of_seq(steps@) =~= step_texts(mem@.plan.steps));
    let ghost before = did@;
    did.append(" — steps: ");
    did.append(text::join(&steps, "; ").as_str());
    assert(did@ =~= before + (" — steps: "@ + text::joined(
        step_texts(mem@.plan.steps),
        "; "@,
    )));
    did
}

fn describe_answer(mem: &Memory) -> (r: &'static str)
    ensures
        r@ == answer_text(mem@.cached_outcome),
{
    match &mem.cached_outcome {
        Some(cached) => match cached.mode {
            AnswerMode::SoundPinnable => "; a cached answer is available (sound/pinnable)",
            AnswerMode::BoundedVolatile { .. } =>
                "; a cached answer is available (bounded-volatile)",
        },
        None => "; no cached answer",
    }
}

/// The description of a memory.
pub fn summarize(mem: &Memory) -> (r: GoalSummary)
    ensures
        r@ == summarized(mem@),
{
    let did = describe_did(mem);
    match mem.kind {
        MemoryKind::Negative => {
            let mut concluded =
                "learned dead-end: this approach did not resolve the goal (outcome shape: ".to_owned();
            concluded.append(mem.outcome_shape.schema.as_str());
            concluded.append(")");
            GoalSummary { did, concluded, dead_end: true }
        },
        MemoryKind::Fragment => {
            let mut concluded = "resolved as a fragment procedure; outcome shape: ".to_owned();
            concluded.append(mem.outcome_shape.schema.as_str());
            concluded.append(describe_answer(mem));
            GoalSummary { did, concluded, dead_end: false }
        },
        MemoryKind::Composite => {
            let mut concluded = "resolved as a composite procedure; outcome shape: ".to_owned();
            concluded.append(mem.outcome_shape.schema.as_str());
            concluded.append(describe_answer(mem));
            GoalSummary { did, concluded, dead_end: false }
        },
    }
}

/// How many descriptions are made of `n` memories.
pub open spec fn bound(config: SummaryConfig, n: nat) -> nat {
    if !config.enabled {
        0
    } else if config.max_summaries is Some && config.max_summaries->0 < n {
        config.max_summaries->0 as nat
    } else {
        n
    }
}

/// The descriptions of what was found: of the first memories, in order.
pub open spec fn summaries(config: SummaryConfig, found: Seq<ScoredView>) -> Seq<SummaryView> {
    Seq::new(bound(config, found.len()), |i: int| summarized(found[i].memory))
}

/// Makes descriptions.
pub struct SummaryProvider {
    config: SummaryConfig,
}

impl SummaryProvider {
    /// What the provider goes by.
    pub closed spec fn config(&self) -> SummaryConfig {
        self.config
    }

    /// A provider that goes by the configuration.
    pub fn new(config: SummaryConfig) -> (r: Self)
        ensures
            r.config() == config,
    {
        SummaryProvider { config }
    }

    /// Whether descriptions are made.
    pub fn is_enabled(&self) -> (r: bool)
        ensures
            r == self.config().enabled,
    {
        self.config.enabled
    }

    /// The descriptions of what was found.
    pub fn summaries_of(&self, found: &Vec<ScoredMemory>) -> (r: Vec<GoalSummary>)
        ensures
            views::of_seq(r@) == summaries(self.config(), views::of_seq(found@)),
    {
        let mut r: Vec<GoalSummary> = Vec::new();
        let n: usize = if !self.config.enabled {
            0
        } else {
            match self.config.max_summaries {
                Some(max) => if max < found.len() {
                    max
                } else {
                    found.len()
                },
                None => found.len(),
            }
        };
        let mut i: usize = 0;
        while i < n
            invariant
                i <= n,
                n <= found@.len(),
                n == bound(self.config, found@.len()),
                r@.len() == i,
                forall|j: int|
                    0 <= j < i ==> (#[trigger] r@[j])@ == summarized(
                        views::of_seq(found@)[j].memory,
                    ),
            decreases n - i,
        {
            r.push(summarize(&found[i].memory));
            i += 1;
        }
        assert(views::of_seq(r@) =~= summaries(self.config(), views::of_seq(found@)));
        r
    }

    /// The descriptions of what is found for a signature; nothing is searched
    /// unless descriptions are asked for.
    pub fn summaries_for<R: Retrieval>(&self, sig: &IntentSignature, retrieval: &R) -> (r: Vec<
        GoalSummary,
    >)
        ensures
            !self.config().enabled ==> r@.len() == 0,
            self.config().enabled ==> exists|found: Seq<ScoredView>| #[trigger]
                retrieval.may_retrieve(sig@, found) && views::of_seq(r@) == summaries(
                    self.config(),
                    found,
                ),
    {
        if !self.config.enabled {
            return Vec::new();
        }
        let found = retrieval.retrieve_memories(sig);
        assert(retrieval.may_retrieve(sig@, views::of_seq(found@)));
        self.summaries_of(&found)
    }
}

/// A description shows neither evidence nor the cached answer: memories that
/// differ only there have the same description.
pub proof fn law_summary_shows_no_payload(
    mem: MemoryView,
    evidence_contract: EvidenceContractView,
    cached: CachedOutcomeView,
)
    requires
        mem.cached_outcome is Some,
        mem.cached_outcome->0.mode == cached.mode,
    ensures
        summarized(MemoryView { evidence_contract, cached_outcome: Some(cached), ..mem })
            == summarized(mem),
{
}

/// A description says dead end exactly for a memory of a dead end.
pub proof fn law_dead_ends_are_marked(mem: MemoryView)
    ensures
        summarized(mem).dead_end <==> mem.kind == MemoryKind::Negative,
{
}

/// Descriptions keep the order of what was found and the bound; without a bound
/// there is one for each memory, and none where they are not asked for.
pub proof fn law_summaries_keep_order_and_bound(config: SummaryConfig, found: Seq<ScoredView>, i: int)
    requires
        0 <= i < summaries(config, found).len(),
    ensures
        config.enabled,
        i < found.len(),
        config.max_summaries is Some ==> summaries(config, found).len() <= config.max_summaries->0,
        config.max_summaries is None ==> summaries(config, found).len() == found.len(),
        summaries(config, found)[i] == summarized(found[i].memory),
{
}

} // verus!
