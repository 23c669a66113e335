//! How a run that learns from a goal ends, in terms of the goal, the records and
//! what judge, author and backend said.

use vstd::prelude::*;

use crate::goal_model::model::{GoalNodeView, Resolution};
use crate::tier2::embedding::request::EmbeddingClient;
use crate::tier2::embedding::writer;
use crate::tier2::embedding::writer::{EmbeddingWriteError, WriteView};
use crate::tier2::engine;
use crate::tier2::engine::InductionEngine;
use crate::tier2::induction::{
    Author, Decision, DistilledView, Judge, LogView, OutcomeView, RecurrenceTracker, VerdictView,
};
use crate::tier2::memory::{AnswerMode, MemoryKind, MemoryRecordView, MemoryView};
use crate::tier2::store;
use crate::tier2::store::MemoryStore;
use crate::types::IntentView;

verus! {

/// The count of an intent after one more occurrence, as far as it goes.
pub open spec fn grown(count: u64) -> int {
    if count == u64::MAX {
        u64::MAX as int
    } else {
        count + 1
    }
}

/// An open goal is skipped, and nothing changes. The intent of any other goal is
/// counted once and no other intent is. The goal is skipped while the count stays
/// below the threshold, and where the goal has no subtree hash. No other goal is
/// skipped.
pub proof fn law_goals_are_skipped_at_the_entry<
    S: MemoryStore,
    T: RecurrenceTracker,
    J: Judge,
    A: Author,
    C: EmbeddingClient,
>(
    before: InductionEngine<S, T, J, A, C>,
    node: GoalNodeView,
    after: InductionEngine<S, T, J, A, C>,
    outcome: OutcomeView,
    other: IntentView,
)
    requires
        engine::ran(before, node, after, outcome),
        other != node.intent,
    ensures
        ({
            let counted = grown(before.recurrences().count(node.intent));
            let open = node.resolution == Resolution::Open;
            &&& open ==> outcome == OutcomeView::Skipped("node is not resolved"@)
                && after.recurrences() == before.recurrences()
            &&& !open ==> after.recurrences().count(node.intent) == counted
                && after.recurrences().count(other) == before.recurrences().count(other)
            &&& !open && counted < before.limit() ==> outcome == OutcomeView::Skipped(
                "below recurrence threshold"@,
            )
            &&& !open && counted >= before.limit() && node.subtree_hash is None ==> outcome
                == OutcomeView::Skipped("resolved node has no subtree_hash"@)
            &&& !open && counted >= before.limit() && node.subtree_hash is Some ==> !(
            outcome is Skipped)
            &&& outcome is Skipped ==> {
                &&& after.memories() == before.memories()
                &&& after.notes() == before.notes()
                &&& after.judging() == before.judging()
                &&& after.authoring() == before.authoring()
                &&& after.writing() == before.writing()
            }
        }),
{
}

/// A refusal of the judge is noted with the goal's intent, its node and hash, and
/// the judge's reason; so is a failure. Whatever else happens is not noted.
pub proof fn law_refusals_and_failures_are_noted<
    S: MemoryStore,
    T: RecurrenceTracker,
    J: Judge,
    A: Author,
    C: EmbeddingClient,
>(
    before: InductionEngine<S, T, J, A, C>,
    node: GoalNodeView,
    after: InductionEngine<S, T, J, A, C>,
    outcome: OutcomeView,
)
    requires
        engine::ran(before, node, after, outcome),
        node.subtree_hash is Some,
    ensures
        ({
            let (was, now) = (before.notes(), after.notes());
            &&& match outcome {
                OutcomeView::Rejected(reason) => {
                    &&& now.declines.len() == was.declines.len() + 1
                    &&& now.declines.drop_last() == was.declines
                    &&& now.declines.last().intent == node.intent
                    &&& now.declines.last().key == (node.id, node.subtree_hash->0)
                    &&& now.declines.last().reason == reason
                    &&& now.failures == was.failures
                },
                OutcomeView::AuthorFailed(reason) => {
                    &&& now.failures.len() == was.failures.len() + 1
                    &&& now.failures.drop_last() == was.failures
                    &&& now.failures.last().intent == node.intent
                    &&& now.failures.last().key == (node.id, node.subtree_hash->0)
                    &&& now.failures.last().reason == reason
                    &&& now.declines == was.declines
                },
                _ => now.declines == was.declines && now.failures == was.failures,
            }
        }),
{
    assert(after.notes().declines.drop_last() =~= before.notes().declines || !(
    outcome is Rejected));
    assert(after.notes().failures.drop_last() =~= before.notes().failures || !(
    outcome is AuthorFailed));
}

/// What judge and author see of a goal: its texts, intent, resolution, name and
/// hash.
pub open spec fn shown(node: GoalNodeView) -> DistilledView {
    DistilledView {
        id: node.id,
        resolution: node.resolution,
        intent: node.intent,
        subtree_hash: node.subtree_hash,
        hypothesis: node.hypothesis,
        resolution_conditions: node.resolution_conditions,
    }
}

/// Whether the judge was shown the goal and gave this verdict.
pub open spec fn judged<S: MemoryStore, T: RecurrenceTracker, J: Judge, A: Author, C: EmbeddingClient>(
    before: InductionEngine<S, T, J, A, C>,
    node: GoalNodeView,
    verdict: VerdictView,
    after: InductionEngine<S, T, J, A, C>,
) -> bool {
    J::may_judge(before.judging(), shown(node), verdict, after.judging())
}

/// Whether the author was shown the goal and the granularity of the verdict, and
/// wrote this memory.
pub open spec fn wrote<S: MemoryStore, T: RecurrenceTracker, J: Judge, A: Author, C: EmbeddingClient>(
    before: InductionEngine<S, T, J, A, C>,
    node: GoalNodeView,
    verdict: VerdictView,
    mem: MemoryView,
    after: InductionEngine<S, T, J, A, C>,
) -> bool {
    A::may_write(before.authoring(), verdict.granularity, shown(node), Ok(mem), after.authoring())
}

/// A memory is inserted only where the judge approved the goal and the author wrote
/// that memory for it; a goal is rejected only where the judge declined it, for the
/// judge's reason. Where the judge declined or was not asked, the author was not.
pub proof fn law_insertions_are_judged_and_written<
    S: MemoryStore,
    T: RecurrenceTracker,
    J: Judge,
    A: Author,
    C: EmbeddingClient,
>(
    before: InductionEngine<S, T, J, A, C>,
    node: GoalNodeView,
    after: InductionEngine<S, T, J, A, C>,
    outcome: OutcomeView,
)
    requires
        engine::ran(before, node, after, outcome),
    ensures
        outcome matches OutcomeView::Inserted(id) ==> exists|verdict: VerdictView, mem: MemoryView|
            {
                &&& judged(before, node, verdict, after)
                &&& verdict.decision == Decision::Approve
                &&& #[trigger] wrote(before, node, verdict, mem, after)
                &&& may_be_stored(mem)
                &&& mem.id == id
            },
        outcome matches OutcomeView::Rejected(reason) ==> after.authoring() == before.authoring()
            && exists|verdict: VerdictView|
            {
                &&& #[trigger] judged(before, node, verdict, after)
                &&& verdict.decision == Decision::Decline
                &&& verdict.rationale == reason
            },
{
    if outcome is Inserted || outcome is Rejected {
        let way = choose|way: engine::Met|
            {
                &&& #[trigger] engine::met(before, node, way, after)
                &&& way.ends(outcome)
                &&& before.memories().available() ==> {
                    &&& way.agrees(before.memories().records(), node)
                    &&& engine::induced(
                        before.memories().records(),
                        before.notes(),
                        node,
                        way.verdict,
                        way.written,
                        way.embedded,
                        after.memories().records(),
                        after.notes(),
                        outcome,
                    )
                }
            };
        assert(judged(before, node, way.verdict, after));
        if outcome is Inserted {
            assert(wrote(before, node, way.verdict, way.written->Ok_0, after));
        }
    }
}

/// A goal past the entry whose records are at hand runs by them: what the judge
/// said, the author wrote and the backend gave decide the rest.
pub proof fn law_runs_go_by_the_records<
    S: MemoryStore,
    T: RecurrenceTracker,
    J: Judge,
    A: Author,
    C: EmbeddingClient,
>(
    before: InductionEngine<S, T, J, A, C>,
    node: GoalNodeView,
    after: InductionEngine<S, T, J, A, C>,
    outcome: OutcomeView,
) -> (r: (VerdictView, Result<MemoryView, Seq<char>>, Result<WriteView, EmbeddingWriteError>))
    requires
        engine::ran(before, node, after, outcome),
        before.memories().available(),
        !(outcome is Skipped),
    ensures
        engine::induced(
            before.memories().records(),
            before.notes(),
            node,
            r.0,
            r.1,
            r.2,
            after.memories().records(),
            after.notes(),
            outcome,
        ),
        (forall|i: int|
            0 <= i < before.memories().records().len() ==> !of_subtree(
                #[trigger] before.memories().records()[i],
                node,
            )) ==> judged(before, node, r.0, after),
        (exists|i: int|
            0 <= i < before.memories().records().len() && of_subtree(
                #[trigger] before.memories().records()[i],
                node,
            )) ==> after.judging() == before.judging() && after.authoring() == before.authoring()
            && after.writing() == before.writing(),
{
    let records = before.memories().records();
    let way = choose|way: engine::Met|
        {
            &&& #[trigger] engine::met(before, node, way, after)
            &&& way.ends(outcome)
            &&& before.memories().available() ==> {
                &&& way.agrees(before.memories().records(), node)
                &&& engine::induced(
                    before.memories().records(),
                    before.notes(),
                    node,
                    way.verdict,
                    way.written,
                    way.embedded,
                    after.memories().records(),
                    after.notes(),
                    outcome,
                )
            }
        };
    let holds = store::learned_from(node.id, node.subtree_hash->0);
    lemma_first_id(records, holds);
    assert forall|i: int| 0 <= i < records.len() implies holds(#[trigger] records[i])
        == of_subtree(records[i], node) by {}
    (way.verdict, way.written, way.embedded)
}

/// Whether a record was learned from this subtree.
pub open spec fn of_subtree(r: MemoryRecordView, node: GoalNodeView) -> bool {
    r.node_id == node.id && Some(r.subtree_hash) == node.subtree_hash
}

/// Whether a record has this intent and plan.
pub open spec fn same_procedure(r: MemoryRecordView, mem: MemoryView) -> bool {
    r.body.intent == mem.intent && r.body.plan == mem.plan
}

proof fn lemma_first_id(records: Seq<MemoryRecordView>, holds: spec_fn(MemoryRecordView) -> bool)
    ensures
        store::first_id(records, holds) is None <==> forall|i: int|
            0 <= i < records.len() ==> !holds(#[trigger] records[i]),
        store::first_id(records, holds) is Some ==> exists|i: int|
            {
                &&& 0 <= i < records.len()
                &&& holds(#[trigger] records[i])
                &&& store::first_id(records, holds)->0 == records[i].id
                &&& forall|j: int| 0 <= j < i ==> !holds(#[trigger] records[j])
            },
    decreases records.len(),
{
    if records.len() > 0 {
        let rest = records.drop_first();
        lemma_first_id(rest, holds);
        if holds(records[0]) {
            assert(0 <= 0 < records.len() && holds(records[0]));
        } else if store::first_id(rest, holds) is Some {
            let k = choose|k: int|
                {
                    &&& 0 <= k < rest.len()
                    &&& holds(#[trigger] rest[k])
                    &&& store::first_id(rest, holds)->0 == rest[k].id
                    &&& forall|j: int| 0 <= j < k ==> !holds(#[trigger] rest[j])
                };
            assert(records[k + 1] == rest[k]);
            assert forall|j: int| 0 <= j < k + 1 implies !holds(#[trigger] records[j]) by {
                if j > 0 {
                    assert(rest[j - 1] == records[j]);
                }
            }
        } else {
            assert forall|i: int| 0 <= i < records.len() implies !holds(#[trigger] records[i]) by {
                if i > 0 {
                    assert(rest[i - 1] == records[i]);
                }
            }
        }
    }
}

/// Whether the place holds the first record that was learned from the subtree.
pub open spec fn first_of_subtree(
    records: Seq<MemoryRecordView>,
    node: GoalNodeView,
    i: int,
) -> bool {
    &&& 0 <= i < records.len()
    &&& of_subtree(records[i], node)
    &&& forall|j: int| 0 <= j < i ==> !of_subtree(#[trigger] records[j], node)
}

/// Whether the place holds the first record with the intent and plan of a memory.
pub open spec fn first_of_procedure(
    records: Seq<MemoryRecordView>,
    mem: MemoryView,
    i: int,
) -> bool {
    &&& 0 <= i < records.len()
    &&& same_procedure(records[i], mem)
    &&& forall|j: int| 0 <= j < i ==> !same_procedure(#[trigger] records[j], mem)
}

/// A goal whose subtree the store knows reinforces the first memory learned from
/// it, whatever judge and author would say.
pub proof fn law_known_subtree_is_reinforced(
    before: Seq<MemoryRecordView>,
    log: LogView,
    node: GoalNodeView,
    verdict: VerdictView,
    written: Result<MemoryView, Seq<char>>,
    embedded: Result<WriteView, EmbeddingWriteError>,
    after: Seq<MemoryRecordView>,
    log_after: LogView,
    outcome: OutcomeView,
    at: int,
)
    requires
        node.subtree_hash is Some,
        engine::induced(
            before,
            log,
            node,
            verdict,
            written,
            embedded,
            after,
            log_after,
            outcome,
        ),
        first_of_subtree(before, node, at),
    ensures
        outcome == OutcomeView::Reinforced(before[at].id),
        log_after == log,
{
    let holds = store::learned_from(node.id, node.subtree_hash->0);
    lemma_first_id(before, holds);
    assert(holds(before[at]));
    let k = choose|k: int|
        {
            &&& 0 <= k < before.len()
            &&& holds(#[trigger] before[k])
            &&& store::first_id(before, holds)->0 == before[k].id
            &&& forall|j: int| 0 <= j < k ==> !holds(#[trigger] before[j])
        };
    if k < at {
        assert(!of_subtree(before[k], node));
    }
    assert(k == at);
}

/// A goal whose subtree is new ends as its judge and author say. A refusal rejects
/// it and an author's failure fails it, with the same reason and no record changed.
pub proof fn law_judge_and_author_can_end_a_run(
    before: Seq<MemoryRecordView>,
    log: LogView,
    node: GoalNodeView,
    verdict: VerdictView,
    written: Result<MemoryView, Seq<char>>,
    embedded: Result<WriteView, EmbeddingWriteError>,
    after: Seq<MemoryRecordView>,
    log_after: LogView,
    outcome: OutcomeView,
)
    requires
        node.subtree_hash is Some,
        engine::induced(
            before,
            log,
            node,
            verdict,
            written,
            embedded,
            after,
            log_after,
            outcome,
        ),
        forall|i: int| 0 <= i < before.len() ==> !of_subtree(#[trigger] before[i], node),
    ensures
        verdict.decision == Decision::Decline ==> outcome == OutcomeView::Rejected(
            verdict.rationale,
        ) && after == before,
        verdict.decision == Decision::Approve ==> !(outcome is Rejected),
        verdict.decision == Decision::Approve && written is Err ==> outcome
            == OutcomeView::AuthorFailed(written->Err_0) && after == before,
{
    let holds = store::learned_from(node.id, node.subtree_hash->0);
    lemma_first_id(before, holds);
    assert forall|i: int| 0 <= i < before.len() implies !holds(#[trigger] before[i]) by {
        assert(!of_subtree(before[i], node));
    }
}

/// Whether a memory may be stored: a dead end names evidence, and a cached answer
/// has tokens, all of them of content where it counts as sound.
pub open spec fn may_be_stored(mem: MemoryView) -> bool {
    &&& mem.kind == MemoryKind::Negative ==> mem.evidence_contract.items.len() > 0
    &&& mem.cached_outcome is Some ==> mem.cached_outcome->0.validity_tokens.len() > 0
    &&& mem.cached_outcome is Some && mem.cached_outcome->0.mode == AnswerMode::SoundPinnable
        ==> forall|i: int|
        0 <= i < mem.cached_outcome->0.validity_tokens.len() ==> (
        #[trigger] mem.cached_outcome->0.validity_tokens[i]) is ContentHash
}

/// An approved memory with an intent and plan that the store has reinforces the
/// first memory with these, if it may be stored.
pub proof fn law_known_procedure_is_reinforced(
    before: Seq<MemoryRecordView>,
    log: LogView,
    node: GoalNodeView,
    verdict: VerdictView,
    mem: MemoryView,
    embedded: Result<WriteView, EmbeddingWriteError>,
    after: Seq<MemoryRecordView>,
    log_after: LogView,
    outcome: OutcomeView,
    at: int,
)
    requires
        node.subtree_hash is Some,
        engine::induced(
            before,
            log,
            node,
            verdict,
            Ok(mem),
            embedded,
            after,
            log_after,
            outcome,
        ),
        forall|i: int| 0 <= i < before.len() ==> !of_subtree(#[trigger] before[i], node),
        verdict.decision == Decision::Approve,
        first_of_procedure(before, mem, at),
    ensures
        may_be_stored(mem) ==> outcome == OutcomeView::Reinforced(before[at].id),
        !may_be_stored(mem) ==> outcome is AuthorFailed && after == before,
{
    let known = store::learned_from(node.id, node.subtree_hash->0);
    lemma_first_id(before, known);
    assert forall|i: int| 0 <= i < before.len() implies !known(#[trigger] before[i]) by {
        assert(!of_subtree(before[i], node));
    }
    let holds = store::plans(mem.intent, mem.plan);
    lemma_first_id(before, holds);
    assert(holds(before[at]));
    let k = choose|k: int|
        {
            &&& 0 <= k < before.len()
            &&& holds(#[trigger] before[k])
            &&& store::first_id(before, holds)->0 == before[k].id
            &&& forall|j: int| 0 <= j < k ==> !holds(#[trigger] before[j])
        };
    if k < at {
        assert(!same_procedure(before[k], mem));
    }
    assert(k == at);
}

/// An approved memory that is new and may be stored is inserted, unless its vector
/// was refused: a record under its identifier, with the memory as it is, the goal's
/// node and hash, the vector made and times of zero. Every other record stays.
pub proof fn law_new_procedure_is_inserted(
    before: Seq<MemoryRecordView>,
    log: LogView,
    node: GoalNodeView,
    verdict: VerdictView,
    mem: MemoryView,
    embedded: Result<WriteView, EmbeddingWriteError>,
    after: Seq<MemoryRecordView>,
    log_after: LogView,
    outcome: OutcomeView,
)
    requires
        node.subtree_hash is Some,
        engine::induced(
            before,
            log,
            node,
            verdict,
            Ok(mem),
            embedded,
            after,
            log_after,
            outcome,
        ),
        forall|i: int| 0 <= i < before.len() ==> !of_subtree(#[trigger] before[i], node),
        forall|i: int| 0 <= i < before.len() ==> !same_procedure(#[trigger] before[i], mem),
        verdict.decision == Decision::Approve,
    ensures
        !(may_be_stored(mem) && embedded is Ok) ==> outcome is AuthorFailed && after == before,
        embedded matches Err(e) ==> outcome == OutcomeView::AuthorFailed(e.message()),
        may_be_stored(mem) && embedded is Ok ==> {
            let r = store::table(after)[mem.id];
            &&& outcome == OutcomeView::Inserted(mem.id)
            &&& store::table(after).dom() == store::table(before).dom().insert(mem.id)
            &&& forall|id: Seq<char>|
                id != mem.id && store::table(before).dom().contains(id) ==> #[trigger] store::table(
                    after,
                )[id] == store::table(before)[id]
            &&& r.body == mem
            &&& r.id == mem.id
            &&& r.intent_type == mem.intent.intent_type
            &&& r.target_type == mem.intent.target_type
            &&& r.target_ref == mem.intent.target_ref
            &&& r.scope == mem.intent.scope
            &&& r.kind == mem.kind
            &&& r.node_id == node.id
            &&& r.subtree_hash == node.subtree_hash->0
            &&& r.created_at == 0 && r.updated_at == 0
            &&& match embedded->Ok_0 {
                WriteView::Embedded(v) => r.embedding == v,
                WriteView::Unavailable => r.embedding == Seq::<u32>::empty(),
            }
        },
{
    let known = store::learned_from(node.id, node.subtree_hash->0);
    lemma_first_id(before, known);
    assert forall|i: int| 0 <= i < before.len() implies !known(#[trigger] before[i]) by {
        assert(!of_subtree(before[i], node));
    }
    let holds = store::plans(mem.intent, mem.plan);
    lemma_first_id(before, holds);
    assert forall|i: int| 0 <= i < before.len() implies !holds(#[trigger] before[i]) by {
        assert(!same_procedure(before[i], mem));
    }
}

/// Whether the writer was asked for a vector for the memory and this came of it.
pub open spec fn vector_made<
    S: MemoryStore,
    T: RecurrenceTracker,
    J: Judge,
    A: Author,
    C: EmbeddingClient,
>(
    before: InductionEngine<S, T, J, A, C>,
    mem: MemoryView,
    made: WriteView,
    after: InductionEngine<S, T, J, A, C>,
) -> bool {
    writer::writes(
        before.writing(),
        before.query_dimension(),
        mem.intent,
        Ok(made),
        after.writing(),
    )
}

/// A memory is inserted with what the writer made for its intent, and the writer is
/// not asked where nothing is inserted and nothing failed.
pub proof fn law_inserted_memories_have_their_vector<
    S: MemoryStore,
    T: RecurrenceTracker,
    J: Judge,
    A: Author,
    C: EmbeddingClient,
>(
    before: InductionEngine<S, T, J, A, C>,
    node: GoalNodeView,
    after: InductionEngine<S, T, J, A, C>,
    outcome: OutcomeView,
)
    requires
        engine::ran(before, node, after, outcome),
        node.subtree_hash is Some,
        before.memories().available(),
    ensures
        outcome matches OutcomeView::Inserted(id) ==> exists|mem: MemoryView, made: WriteView|
            {
                &&& #[trigger] vector_made(before, mem, made, after)
                &&& mem.id == id
                &&& store::table(after.memories().records()).dom().contains(id)
                &&& store::table(after.memories().records())[id].body == mem
                &&& store::table(after.memories().records())[id].node_id == node.id
                &&& store::table(after.memories().records())[id].subtree_hash
                    == node.subtree_hash->0
                &&& match made {
                    WriteView::Embedded(v) => store::table(
                        after.memories().records(),
                    )[id].embedding == v,
                    WriteView::Unavailable => store::table(
                        after.memories().records(),
                    )[id].embedding == Seq::<u32>::empty(),
                }
            },
        outcome is Rejected || outcome is Reinforced ==> after.writing() == before.writing(),
{
    if !(outcome is Skipped) {
        let way = choose|way: engine::Met|
            {
                &&& #[trigger] engine::met(before, node, way, after)
                &&& way.ends(outcome)
                &&& before.memories().available() ==> {
                    &&& way.agrees(before.memories().records(), node)
                    &&& engine::induced(
                        before.memories().records(),
                        before.notes(),
                        node,
                        way.verdict,
                        way.written,
                        way.embedded,
                        after.memories().records(),
                        after.notes(),
                        outcome,
                    )
                }
            };
        if outcome is Inserted {
            assert(vector_made(before, way.written->Ok_0, way.embedded->Ok_0, after));
        }
    }
}

} // verus!
