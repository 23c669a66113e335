//! What holds of every run that learns a memory.

use vstd::prelude::*;

use crate::goal_model::model::GoalNodeView;
use crate::tier2::embedding::request::EmbeddingClient;
use crate::tier2::embedding::writer::{EmbeddingWriteError, WriteView};
use crate::tier2::engine;
use crate::tier2::engine::InductionEngine;
use crate::tier2::induction;
use crate::tier2::induction::{
    Author, Judge, LogView, OutcomeView, RecurrenceTracker, VerdictView,
};
use crate::tier2::memory::{MemoryRecordView, MemoryView};
use crate::tier2::store;
use crate::tier2::store::MemoryStore;
use crate::tier2::store_laws;

verus! {

/// A subtree is learned from once: after a run kept a memory for it, a later run
/// for the same subtree keeps no other and reinforces, whatever judge, author
/// and backend say.
pub proof fn law_subtree_is_learned_once(
    before: Seq<MemoryRecordView>,
    log: LogView,
    node: GoalNodeView,
    verdict: VerdictView,
    written: Result<MemoryView, Seq<char>>,
    embedded: Result<WriteView, EmbeddingWriteError>,
    between: Seq<MemoryRecordView>,
    log_between: LogView,
    id: Seq<char>,
    later_verdict: VerdictView,
    later_written: Result<MemoryView, Seq<char>>,
    later_embedded: Result<WriteView, EmbeddingWriteError>,
    after: Seq<MemoryRecordView>,
    log_after: LogView,
    outcome: OutcomeView,
)
    requires
        store::sound(between),
        engine::induced(
            before,
            log,
            node,
            verdict,
            written,
            embedded,
            between,
            log_between,
            OutcomeView::Inserted(id),
        ),
        engine::induced(
            between,
            log_between,
            node,
            later_verdict,
            later_written,
            later_embedded,
            after,
            log_after,
            outcome,
        ),
    ensures
        outcome is Reinforced,
        store::table(after).dom() == store::table(between).dom(),
        log_after == log_between,
{
    let mem = written->Ok_0;
    let hash = node.subtree_hash->0;
    let vector = embedded->Ok_0.kept();
    store_laws::law_written_memory_is_found(
        before,
        between,
        mem,
        node.id,
        hash,
        vector,
        mem.intent,
    );
    store_laws::law_lookup_by_subtree(between, node.id, hash);
    assert(store::table(after).dom() =~= store::table(between).dom());
}

proof fn lemma_only_one_with_key(
    before: Seq<MemoryRecordView>,
    after: Seq<MemoryRecordView>,
    record: MemoryRecordView,
)
    requires
        store::sound(before),
        store::sound(after),
        store::first_id(before, store::learned_from(record.node_id, record.subtree_hash)) is None,
        store::table(after) == store::table(before).insert(record.id, record),
    ensures
        store::first_id(after, store::learned_from(record.node_id, record.subtree_hash)) == Some(
            record.id,
        ),
{
    let holds = store::learned_from(record.node_id, record.subtree_hash);
    store_laws::law_lookup_by_subtree(before, record.node_id, record.subtree_hash);
    store_laws::law_lookup_by_subtree(after, record.node_id, record.subtree_hash);
    let at = store_laws::lemma_in_table(after, record.id);
    assert(after[at] == record);
    assert(store::first_id(after, holds) is Some);
    let i = store_laws::lemma_first_id_holds(after, holds);
    store_laws::lemma_record_in_table(after, i);
    if after[i].id != record.id {
        assert(store::table(before).dom().contains(after[i].id));
        let j = store_laws::lemma_in_table(before, after[i].id);
        assert(before[j] == after[i]);
    }
}

/// A second run for a node reinforces what the first one kept: the same memory,
/// with its counts one higher and nothing else about it changed, no other memory
/// kept, and the intent counted once more. Neither judge nor author nor backend is
/// asked.
pub proof fn law_second_run_reinforces<
    S: MemoryStore,
    T: RecurrenceTracker,
    J: Judge,
    A: Author,
    C: EmbeddingClient,
>(
    start: InductionEngine<S, T, J, A, C>,
    node: GoalNodeView,
    between: InductionEngine<S, T, J, A, C>,
    id: Seq<char>,
    end: InductionEngine<S, T, J, A, C>,
    outcome: OutcomeView,
)
    requires
        start.memories().available(),
        store::sound(start.memories().records()),
        engine::ran(start, node, between, OutcomeView::Inserted(id)),
        engine::ran(between, node, end, outcome),
    ensures
        outcome == OutcomeView::Reinforced(id),
        end.notes() == between.notes(),
        end.judging() == between.judging(),
        end.authoring() == between.authoring(),
        end.writing() == between.writing(),
        end.recurrences().count(node.intent) == induction::one_more(
            between.recurrences().count(node.intent),
        ),
        ({
            let records = between.memories().records();
            let after = end.memories().records();
            &&& store::table(records).dom().contains(id)
            &&& store::table(after) == store::table(records).insert(
                id,
                store::bumped(store::table(records)[id], store::table(records)[id].body),
            )
            &&& store::table(after).dom() == store::table(records).dom()
            &&& store::table(after)[id].body.provenance == store::table(
                records,
            )[id].body.provenance
            &&& ({
                let counts = store::table(records)[id].body.reinforcement;
                let grown = store::table(after)[id].body.reinforcement;
                &&& counts.hits < u64::MAX ==> grown.hits == counts.hits + 1
                &&& counts.confirms < u64::MAX ==> grown.confirms == counts.confirms + 1
            })
        }),
{
    let before = start.memories().records();
    let records = between.memories().records();
    let after = end.memories().records();
    let way = choose|way: engine::Met|
        {
            &&& #[trigger] engine::met(start, node, way, between)
            &&& way.ends(OutcomeView::Inserted(id))
            &&& way.agrees(before, node)
            &&& engine::induced(
                before,
                start.notes(),
                node,
                way.verdict,
                way.written,
                way.embedded,
                records,
                between.notes(),
                OutcomeView::Inserted(id),
            )
        };
    let mem = way.written->Ok_0;
    let record = store::record_of(
        mem,
        node.id,
        node.subtree_hash->0,
        way.embedded->Ok_0.kept(),
        0,
        0,
    );
    lemma_only_one_with_key(before, records, record);
    assert(!(outcome is Skipped));
    assert(store::table(records).dom().contains(id));
    let body = store::table(records)[id].body;
    lemma_merging_own(body.provenance.origins, body.provenance.origins.len() as int);
    assert(body.provenance.origins.take(body.provenance.origins.len() as int)
        =~= body.provenance.origins);
    assert(store::table(after).dom() =~= store::table(records).dom());
    assert(store::table(after)[id].body.provenance =~= body.provenance);
}

proof fn lemma_merging_own(origins: Seq<(Seq<char>, Seq<char>)>, n: int)
    requires
        0 <= n <= origins.len(),
    ensures
        store::merged(origins, origins.take(n)) == origins,
    decreases n,
{
    if n > 0 {
        assert(origins.take(n).drop_last() =~= origins.take(n - 1));
        lemma_merging_own(origins, n - 1);
        assert(origins.contains(origins[n - 1]));
    }
}

/// A memory with an intent and a plan that the store has already is not kept
/// again: the one that is there is reinforced.
pub proof fn law_duplicates_are_reinforced(
    before: Seq<MemoryRecordView>,
    log: LogView,
    node: GoalNodeView,
    verdict: VerdictView,
    mem: MemoryView,
    embedded: Result<WriteView, EmbeddingWriteError>,
    after: Seq<MemoryRecordView>,
    log_after: LogView,
    outcome: OutcomeView,
)
    requires
        store::sound(before),
        store::first_id(before, store::plans(mem.intent, mem.plan)) is Some,
        engine::induced(
            before,
            log,
            node,
            verdict,
            Ok(mem),
            embedded,
            after,
            log_after,
            outcome,
        ),
    ensures
        !(outcome is Inserted),
        store::table(after).dom() == store::table(before).dom(),
{
    let by_key = store::learned_from(node.id, node.subtree_hash->0);
    let by_plan = store::plans(mem.intent, mem.plan);
    if store::first_id(before, by_key) is Some {
        store_laws::law_lookup_by_subtree(before, node.id, node.subtree_hash->0);
    } else {
        let i = store_laws::lemma_first_id_holds(before, by_plan);
        store_laws::lemma_record_in_table(before, i);
    }
    assert(store::table(after).dom() =~= store::table(before).dom());
}

/// A run that is declined, for which no memory is written, or whose memory the
/// store refuses leaves every memory as it was, and is noted once with its
/// reason.
pub proof fn law_refusals_change_no_memory(
    before: Seq<MemoryRecordView>,
    log: LogView,
    node: GoalNodeView,
    verdict: VerdictView,
    written: Result<MemoryView, Seq<char>>,
    embedded: Result<WriteView, EmbeddingWriteError>,
    after: Seq<MemoryRecordView>,
    log_after: LogView,
    outcome: OutcomeView,
)
    requires
        engine::induced(
            before,
            log,
            node,
            verdict,
            written,
            embedded,
            after,
            log_after,
            outcome,
        ),
    ensures
        outcome matches OutcomeView::Rejected(reason) ==> after == before && log_after.failures
            == log.failures && log_after.declines == log.declines.push(
            engine::note(node.intent, (node.id, node.subtree_hash->0), reason),
        ),
        outcome matches OutcomeView::AuthorFailed(reason) ==> after == before && log_after.declines
            == log.declines && log_after.failures == log.failures.push(
            engine::note(node.intent, (node.id, node.subtree_hash->0), reason),
        ),
        outcome is Reinforced || outcome is Inserted ==> log_after == log,
{
}

/// A goal that the judge declines costs one question to the judge and none to
/// anybody else: its reason is noted once, author and backend are not asked, and
/// no memory changes. Whatever else a run comes to, nothing is noted as declined.
pub proof fn law_declined_goals_are_not_written<
    S: MemoryStore,
    T: RecurrenceTracker,
    J: Judge,
    A: Author,
    C: EmbeddingClient,
>(
    before: InductionEngine<S, T, J, A, C>,
    node: GoalNodeView,
    after: InductionEngine<S, T, J, A, C>,
    outcome: OutcomeView,
)
    requires
        engine::ran(before, node, after, outcome),
    ensures
        outcome matches OutcomeView::Rejected(reason) ==> {
            &&& after.notes().declines == before.notes().declines.push(
                engine::note(node.intent, (node.id, node.subtree_hash->0), reason),
            )
            &&& after.notes().failures == before.notes().failures
            &&& after.memories() == before.memories()
            &&& after.authoring() == before.authoring()
            &&& after.writing() == before.writing()
            &&& exists|verdict: VerdictView|
                {
                    &&& #[trigger] J::may_judge(
                        before.judging(),
                        induction::distilled(node),
                        verdict,
                        after.judging(),
                    )
                    &&& verdict.decision is Decline
                    &&& verdict.rationale == reason
                }
        },
        !(outcome is Rejected) ==> after.notes().declines == before.notes().declines,
{
    if outcome is Rejected {
        let way = choose|way: engine::Met| #[trigger]
            engine::met(before, node, way, after) && way.ends(outcome);
        assert(J::may_judge(
            before.judging(),
            induction::distilled(node),
            way.verdict,
            after.judging(),
        ));
    }
}

/// A run that ends at its entry asks nobody, and one that asks for a memory was
/// told by the judge to.
pub proof fn law_nobody_is_asked_needlessly<
    S: MemoryStore,
    T: RecurrenceTracker,
    J: Judge,
    A: Author,
    C: EmbeddingClient,
>(
    before: InductionEngine<S, T, J, A, C>,
    node: GoalNodeView,
    after: InductionEngine<S, T, J, A, C>,
    outcome: OutcomeView,
)
    requires
        engine::ran(before, node, after, outcome),
    ensures
        outcome is Skipped ==> after.judging() == before.judging() && after.authoring()
            == before.authoring() && after.writing() == before.writing(),
        after.authoring() != before.authoring() ==> exists|verdict: VerdictView|
            {
                &&& #[trigger] J::may_judge(
                    before.judging(),
                    induction::distilled(node),
                    verdict,
                    after.judging(),
                )
                &&& verdict.decision is Approve
            },
{
    if after.authoring() != before.authoring() {
        let way = choose|way: engine::Met| #[trigger]
            engine::met(before, node, way, after) && way.ends(outcome);
        assert(way.authors());
        assert(J::may_judge(
            before.judging(),
            induction::distilled(node),
            way.verdict,
            after.judging(),
        ));
    }
}

/// Below the threshold nothing is judged, written or kept: a run that brings the
/// count of its intent to less than the threshold is skipped, and the first run
/// that may learn is the one that reaches it.
pub proof fn law_recurrence_gates_learning(
    node: GoalNodeView,
    count: u64,
    threshold: u64,
)
    requires
        !node.is_open(),
        node.subtree_hash is Some,
    ensures
        engine::entry_refusal(node, count, threshold) is Some <==> count < threshold,
{
}

} // verus!
