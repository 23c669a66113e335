//! The two flows that tie the parts together: from a closed goal to a memory,
//! and from a new goal to what is known about it.

use vstd::prelude::*;

use crate::goal_model::closure::ClosureSignal;
use crate::goal_model::store;
use crate::goal_model::store::GoalStore;
use crate::tier2::embedding::request::EmbeddingClient;
use crate::tier2::embedding::writer::{EmbeddingWriteError, WriteView};
use crate::tier2::engine;
use crate::tier2::engine::InductionEngine;
use crate::tier2::induction::{Author, InductionOutcome, Judge, OutcomeView, RecurrenceTracker};
use crate::tier2::memory::{MemoryRecordView, MemoryView};
use crate::tier2::replay;
use crate::tier2::replay::{DecisionView, EvidenceValidator, ModeBPolicy, ReplayDecision};
use crate::tier2::retrieval;
use crate::tier2::retrieval::{Retrieval, ScoredMemory, ScoredView};
use crate::tier2::store as memory_store;
use crate::tier2::store::MemoryStore;
use crate::tier2::store_laws;
use crate::tier2::summary;
use crate::tier2::summary::{GoalSummary, SummaryProvider, SummaryView};
use crate::types::{GoalTimestamp, IntentSignature, IntentView};
use crate::views;

verus! {

/// Learns from closed goals.
pub struct EngineInductionQueue<
    G: GoalStore,
    S: MemoryStore,
    T: RecurrenceTracker,
    J: Judge,
    A: Author,
    C: EmbeddingClient,
> {
    store: G,
    engine: InductionEngine<S, T, J, A, C>,
}

impl<
    G: GoalStore,
    S: MemoryStore,
    T: RecurrenceTracker,
    J: Judge,
    A: Author,
    C: EmbeddingClient,
> EngineInductionQueue<G, S, T, J, A, C> {
    /// The store that closed goals are looked up in.
    pub closed spec fn goals(&self) -> G {
        self.store
    }

    /// The engine that learns.
    pub closed spec fn learner(&self) -> InductionEngine<S, T, J, A, C> {
        self.engine
    }

    /// A queue that looks goals up in the store and learns with the engine.
    pub fn new(store: G, engine: InductionEngine<S, T, J, A, C>) -> (r: Self)
        ensures
            r.goals() == store,
            r.learner() == engine,
    {
        EngineInductionQueue { store, engine }
    }

    /// The engine that learns.
    pub fn engine(&self) -> (r: &InductionEngine<S, T, J, A, C>)
        ensures
            *r == self.learner(),
    {
        &self.engine
    }

    /// Learns from the closed node of a signal, if the node is still there.
    pub fn run(&mut self, signal: &ClosureSignal) -> (r: Option<InductionOutcome>)
        requires
            store::sound(old(self).goals().events(signal@.session)),
            memory_store::sound(old(self).learner().memories().records()),
        ensures
            final(self).goals() == old(self).goals(),
            memory_store::sound(final(self).learner().memories().records()),
            r is None ==> final(self).learner() == old(self).learner(),
            r is Some ==> store::tree_of(old(self).goals().events(signal@.session)).has(
                signal@.node_id,
            ) && engine::ran(
                old(self).learner(),
                store::tree_of(
                    old(self).goals().events(signal@.session),
                ).nodes[signal@.node_id],
                final(self).learner(),
                r->0@,
            ),
            old(self).goals().available() ==> (r is Some <==> store::tree_of(
                old(self).goals().events(signal@.session),
            ).has(signal@.node_id)),
    {
        match self.store.get(&signal.session, &signal.node_id) {
            Ok(Some(node)) => Some(self.engine.induce_memory(&node)),
            Ok(None) => None,
            Err(_) => None,
        }
    }
}

/// How a goal starts.
#[derive(Debug, PartialEq, Eq)]
pub enum GoalStart {
    /// With a memory.
    Replay(ReplayDecision),
    /// With nothing.
    FromScratch,
}

/// The content of a start.
#[verifier::ext_equal]
pub enum StartView {
    Replay(DecisionView),
    FromScratch,
}

impl View for GoalStart {
    type V = StartView;

    open spec fn view(&self) -> StartView {
        match *self {
            GoalStart::Replay(d) => StartView::Replay(d@),
            GoalStart::FromScratch => StartView::FromScratch,
        }
    }
}

impl Clone for GoalStart {
    fn clone(&self) -> (r: Self)
        ensures
            r@ == self@,
    {
        match self {
            GoalStart::Replay(d) => GoalStart::Replay(d.clone()),
            GoalStart::FromScratch => GoalStart::FromScratch,
        }
    }
}

/// Whether a goal can start like this, given what was found for it, and what that
/// leaves of the validator: with the first memory found, or from scratch where
/// none was, and then the validator is not asked.
pub open spec fn starts<V: EvidenceValidator, P: ModeBPolicy>(
    before: V,
    policy: P,
    sig: IntentView,
    now: u64,
    found: Seq<ScoredView>,
    start: StartView,
    after: V,
) -> bool {
    if found.len() == 0 {
        start == StartView::FromScratch && after == before
    } else {
        start matches StartView::Replay(d) && replay::allowed(
            before,
            policy,
            found[0].memory,
            sig.intent_type,
            now,
            d,
            after,
        )
    }
}

/// Whether a goal can start like this, given what can be found for it.
pub open spec fn may_start<R: Retrieval, V: EvidenceValidator, P: ModeBPolicy>(
    retrieval: R,
    before: V,
    policy: P,
    sig: IntentView,
    now: u64,
    start: StartView,
    after: V,
) -> bool {
    exists|found: Seq<ScoredView>| #[trigger]
        retrieval.may_retrieve(sig, found) && starts(
            before,
            policy,
            sig,
            now,
            found,
            start,
            after,
        )
}

/// Starts a goal with what was found for it.
pub fn start_with<V: EvidenceValidator, P: ModeBPolicy>(
    sig: &IntentSignature,
    found: &Vec<ScoredMemory>,
    validator: &mut V,
    mode_b_policy: &P,
    now: GoalTimestamp,
) -> (r: GoalStart)
    ensures
        starts(
            *old(validator),
            *mode_b_policy,
            sig@,
            now.0,
            views::of_seq(found@),
            r@,
            *final(validator),
        ),
{
    if found.len() == 0 {
        return GoalStart::FromScratch;
    }
    GoalStart::Replay(
        replay::decide_replay(&found[0].memory, validator, mode_b_policy, sig, now),
    )
}

/// Starts a goal.
pub fn start_goal<R: Retrieval, V: EvidenceValidator, P: ModeBPolicy>(
    sig: &IntentSignature,
    retrieval: &R,
    validator: &mut V,
    mode_b_policy: &P,
    now: GoalTimestamp,
) -> (r: GoalStart)
    ensures
        may_start(
            *retrieval,
            *old(validator),
            *mode_b_policy,
            sig@,
            now.0,
            r@,
            *final(validator),
        ),
{
    let found = retrieval.retrieve_memories(sig);
    assert(retrieval.may_retrieve(sig@, views::of_seq(found@)));
    start_with(sig, &found, validator, mode_b_policy, now)
}

/// How a goal starts, with descriptions of similar goals.
#[derive(Debug, PartialEq, Eq)]
pub struct GoalStartWithSummaries {
    /// How the goal starts.
    pub start: GoalStart,
    /// The descriptions.
    pub summaries: Vec<GoalSummary>,
}

impl Clone for GoalStartWithSummaries {
    fn clone(&self) -> (r: Self)
        ensures
            r.start@ == self.start@,
            views::of_seq(r.summaries@) == views::of_seq(self.summaries@),
    {
        let r = GoalStartWithSummaries {
            start: self.start.clone(),
            summaries: self.summaries.clone(),
        };
        assert(views::of_seq(r.summaries@) =~= views::of_seq(self.summaries@));
        r
    }
}

/// Whether these are descriptions of what can be found.
pub open spec fn describes<R: Retrieval>(
    retrieval: R,
    provider: SummaryProvider,
    sig: IntentView,
    summaries: Seq<SummaryView>,
) -> bool {
    if provider.config().enabled {
        exists|found: Seq<ScoredView>| #[trigger]
            retrieval.may_retrieve(sig, found) && summaries == summary::summaries(
                provider.config(),
                found,
            )
    } else {
        summaries.len() == 0
    }
}

/// Starts a goal as [`start_goal`] does, and describes similar goals.
pub fn start_goal_with_summaries<R: Retrieval, V: EvidenceValidator, P: ModeBPolicy>(
    sig: &IntentSignature,
    retrieval: &R,
    validator: &mut V,
    mode_b_policy: &P,
    now: GoalTimestamp,
    summary_provider: &SummaryProvider,
) -> (r: GoalStartWithSummaries)
    ensures
        may_start(
            *retrieval,
            *old(validator),
            *mode_b_policy,
            sig@,
            now.0,
            r.start@,
            *final(validator),
        ),
        describes(*retrieval, *summary_provider, sig@, views::of_seq(r.summaries@)),
{
    let start = start_goal(sig, retrieval, validator, mode_b_policy, now);
    let summaries = summary_provider.summaries_for(sig, retrieval);
    GoalStartWithSummaries { start, summaries }
}

/// What is known about a new goal: memories and descriptions, and no decision.
#[derive(Debug, PartialEq, Eq)]
pub struct AdvisorySummary {
    /// The memories that apply, the best first.
    pub memories: Vec<ScoredMemory>,
    /// The descriptions.
    pub summaries: Vec<GoalSummary>,
}

impl Clone for AdvisorySummary {
    fn clone(&self) -> (r: Self)
        ensures
            views::of_seq(r.memories@) == views::of_seq(self.memories@),
            views::of_seq(r.summaries@) == views::of_seq(self.summaries@),
    {
        let r = AdvisorySummary {
            memories: self.memories.clone(),
            summaries: self.summaries.clone(),
        };
        assert(views::of_seq(r.memories@) =~= views::of_seq(self.memories@));
        assert(views::of_seq(r.summaries@) =~= views::of_seq(self.summaries@));
        r
    }
}

impl AdvisorySummary {
    /// Nothing is known.
    pub fn empty() -> (r: Self)
        ensures
            r.memories@.len() == 0,
            r.summaries@.len() == 0,
    {
        AdvisorySummary { memories: Vec::new(), summaries: Vec::new() }
    }

    /// Whether nothing is known.
    pub fn is_empty(&self) -> (r: bool)
        ensures
            r == (self.memories@.len() == 0 && self.summaries@.len() == 0),
    {
        self.memories.len() == 0 && self.summaries.len() == 0
    }
}

/// Finds what is known about a new goal.
pub fn retrieve_advisory<R: Retrieval>(
    sig: &IntentSignature,
    retrieval: &R,
    summary_provider: &SummaryProvider,
) -> (r: AdvisorySummary)
    ensures
        retrieval.may_retrieve(sig@, views::of_seq(r.memories@)),
        describes(*retrieval, *summary_provider, sig@, views::of_seq(r.summaries@)),
{
    let memories = retrieval.retrieve_memories(sig);
    let summaries = summary_provider.summaries_for(sig, retrieval);
    AdvisorySummary { memories, summaries }
}

/// A goal that a memory was learned from is not started from scratch again:
/// once a run kept a memory that applies to an intent, a goal with that intent
/// starts by replaying a memory, with or without a vector.
pub proof fn law_learned_goals_start_with_replay<V: EvidenceValidator, P: ModeBPolicy>(
    before: Seq<MemoryRecordView>,
    key: (Seq<char>, Seq<char>),
    mem: MemoryView,
    embedded: Result<WriteView, EmbeddingWriteError>,
    after: Seq<MemoryRecordView>,
    distances: Option<Seq<u32>>,
    head_min: nat,
    tail_limit: nat,
    validator: V,
    policy: P,
    sig: IntentView,
    now: u64,
    start: StartView,
    left: V,
)
    requires
        memory_store::sound(after),
        engine::inserted(before, key, mem, embedded, after, OutcomeView::Inserted(mem.id)),
        mem.applicability.applies_to(sig),
        starts(
            validator,
            policy,
            sig,
            now,
            retrieval::retrieved(after, sig, distances, head_min, tail_limit),
            start,
            left,
        ),
    ensures
        start is Replay,
        retrieval::retrieved(after, sig, distances, head_min, tail_limit).map_values(
            |s: ScoredView| s.memory,
        ).contains(mem),
{
    let i = store_laws::lemma_in_table(after, mem.id);
    let found = retrieval::retrieved(after, sig, distances, head_min, tail_limit);
    let k = retrieval::law_applicable_memories_are_found(
        after,
        sig,
        distances,
        head_min,
        tail_limit,
        i,
    );
    let memories = found.map_values(|s: ScoredView| s.memory);
    assert(memories[k] == mem);
}

/// A provider that is switched off adds no descriptions.
pub proof fn law_switched_off_provider_adds_nothing<R: Retrieval>(
    retrieval: R,
    provider: SummaryProvider,
    sig: IntentView,
    descriptions: Seq<SummaryView>,
)
    requires
        describes(retrieval, provider, sig, descriptions),
        !provider.config().enabled,
    ensures
        descriptions == Seq::<SummaryView>::empty(),
{
    assert(descriptions =~= Seq::<SummaryView>::empty());
}

/// A goal starts from scratch exactly where no memory is found for it, and no
/// evidence is checked then. Otherwise it starts with what is decided on the first
/// memory found, for the goal's own intent type and at the given time.
pub proof fn law_goals_start_with_the_first_memory_found<V: EvidenceValidator, P: ModeBPolicy>(
    before: V,
    policy: P,
    sig: IntentView,
    now: u64,
    found: Seq<ScoredView>,
    start: StartView,
    after: V,
)
    requires
        starts(before, policy, sig, now, found, start, after),
    ensures
        found.len() == 0 <==> start == StartView::FromScratch,
        start == StartView::FromScratch ==> after == before,
        found.len() > 0 ==> start is Replay && replay::allowed(
            before,
            policy,
            found[0].memory,
            sig.intent_type,
            now,
            start->Replay_0,
            after,
        ),
{
}

/// Descriptions are those of memories found for the signature, one for each within
/// the bound, in order.
pub proof fn law_descriptions_are_of_found_memories<R: Retrieval>(
    retrieval: R,
    provider: SummaryProvider,
    sig: IntentView,
    descriptions: Seq<SummaryView>,
)
    requires
        describes(retrieval, provider, sig, descriptions),
        provider.config().enabled,
    ensures
        exists|found: Seq<ScoredView>|
            {
                let bound = provider.config().max_summaries;
                &&& #[trigger] retrieval.may_retrieve(sig, found)
                &&& descriptions.len() <= found.len()
                &&& bound is None ==> descriptions.len() == found.len()
                &&& bound is Some ==> descriptions.len() == bound->0 || (descriptions.len()
                    == found.len() && found.len() < bound->0)
                &&& forall|i: int|
                    0 <= i < descriptions.len() ==> #[trigger] descriptions[i]
                        == summary::summarized(found[i].memory)
            },
{
    let found = choose|found: Seq<ScoredView>| #[trigger]
        retrieval.may_retrieve(sig, found) && descriptions == summary::summaries(
            provider.config(),
            found,
        );
    assert(retrieval.may_retrieve(sig, found));
}

} // verus!
