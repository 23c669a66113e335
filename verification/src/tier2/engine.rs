//! The run that learns a memory from a resolved goal, step by step and whole.

use vstd::prelude::*;
use vstd::string::*;

use crate::goal_model::model::{GoalNode, GoalNodeView};
use crate::tier2::embedding::request::{EmbeddingClient, NoEmbeddingClient};
use crate::tier2::embedding::settings::ResolvedEmbeddingSettings;
use crate::tier2::embedding::writer;
use crate::tier2::embedding::writer::{
    EmbeddingWriteError, MemoryEmbeddingWriter, WriteEmbedding, WriteView,
};
use crate::tier2::induction;
use crate::tier2::induction::{
    Author, AuthorError, CleanContext, Decision, DeclineRecord, FailureRecord, InductionLog,
    InductionOutcome, Judge, JudgeVerdict, LogView, NoteView, OutcomeView, RecurrenceTracker,
    VerdictView,
};
use crate::tier2::memory::{Memory, MemoryRecordView, MemoryView};
use crate::tier2::store;
use crate::tier2::store::MemoryStore;
use crate::tier2::store_laws;
use crate::types::{GoalNodeId, IntentView, MemoryId, SubtreeHash};
use crate::views;

verus! {

/// The bits of two, the distance of every vector from an empty one.
const FARTHEST: u32 = 0x4000_0000;

/// Whether the tracker counted one occurrence of the intent and nothing else.
pub open spec fn counted<T: RecurrenceTracker>(before: T, intent: IntentView, after: T) -> bool {
    &&& after.count(intent) == induction::one_more(before.count(intent))
    &&& forall|other: IntentView|
        other != intent ==> #[trigger] after.count(other) == before.count(other)
}

/// Why a run ends at its entry, if it does, when the intent has occurred `count`
/// times.
pub open spec fn entry_refusal(node: GoalNodeView, count: u64, threshold: u64) -> Option<Seq<char>> {
    if node.is_open() {
        Some("node is not resolved"@)
    } else if count < threshold {
        Some("below recurrence threshold"@)
    } else if node.subtree_hash is None {
        Some("resolved node has no subtree_hash"@)
    } else {
        None
    }
}

/// Counts one occurrence of a resolved node's intent, and lets the run pass with
/// the node's subtree once the intent occurred often enough.
pub fn enter<T: RecurrenceTracker>(tracker: &mut T, threshold: u64, node: &GoalNode) -> (r: Result<
    (GoalNodeId, SubtreeHash),
    InductionOutcome,
>)
    ensures
        node@.is_open() ==> *final(tracker) == *old(tracker),
        !node@.is_open() ==> counted(*old(tracker), node@.intent, *final(tracker)),
        entry_refusal(node@, final(tracker).count(node@.intent), threshold) matches Some(reason)
            ==> r is Err && r->Err_0@ == OutcomeView::Skipped(reason),
        entry_refusal(node@, final(tracker).count(node@.intent), threshold) is None ==> r is Ok
            && r->Ok_0.0@ == node@.id && r->Ok_0.1@ == node@.subtree_hash->0,
{
    if node.resolution.is_open() {
        return Err(InductionOutcome::Skipped("node is not resolved".to_owned()));
    }
    tracker.record_occurrence(&node.intent);
    if tracker.recurrence_count(&node.intent) < threshold {
        return Err(InductionOutcome::Skipped("below recurrence threshold".to_owned()));
    }
    match &node.subtree_hash {
        Some(hash) => Ok((node.id.clone(), hash.clone())),
        None => Err(InductionOutcome::Skipped("resolved node has no subtree_hash".to_owned())),
    }
}

fn farthest(n: usize) -> (r: Vec<u32>)
    ensures
        r@.len() == n,
{
    let mut r: Vec<u32> = Vec::new();
    let mut i: usize = 0;
    while i < n
        invariant
            i <= n,
            r@.len() == i,
        decreases n - i,
    {
        r.push(FARTHEST);
        i += 1;
    }
    r
}

/// The memory with this identifier: everything is recalled, and the memory
/// picked out.
pub fn stored_memory_by_id<S: MemoryStore>(memories: &S, id: &MemoryId) -> (r: Option<Memory>)
    requires
        store::sound(memories.records()),
    ensures
        memories.available() ==> views::of_option(r) == if store::table(
            memories.records(),
        ).dom().contains(id@) {
            Some(store::table(memories.records())[id@].body)
        } else {
            None
        },
{
    let vectors = memories.embeddings();
    let distances = farthest(vectors.len());
    let all = memories.ann_recall(&distances, usize::MAX);
    let ghost records = memories.records();
    proof {
        assert(views::of_seq(vectors@).len() == vectors@.len());
        if memories.available() {
            assert(distances@.len() == records.len());
            lemma_recalled_all(records, distances@, views::of_seq(all@));
        }
    }
    let mut i: usize = 0;
    while i < all.len()
        invariant
            i <= all@.len(),
            forall|j: int| 0 <= j < i ==> (#[trigger] all@[j])@.id != id@,
            records == memories.records(),
            memories.available() ==> recalled_all(records, views::of_seq(all@)),
        decreases all@.len() - i,
    {
        if all[i].id.0 == id.0 {
            proof {
                if memories.available() {
                    assert(views::of_seq(all@)[i as int] == all@[i as int]@);
                }
            }
            return Some(all[i].clone());
        }
        i += 1;
    }
    proof {
        if memories.available() && store::table(records).dom().contains(id@) {
            let k = views::of_seq(all@).index_of(store::table(records)[id@].body);
            assert(views::of_seq(all@).contains(store::table(records)[id@].body));
            assert(all@[k]@ == store::table(records)[id@].body);
            store_laws::law_kept_memories_are_valid(records, id@);
        }
    }
    None
}

/// Whether these are the memories of the records, each found under its
/// identifier.
spec fn recalled_all(records: Seq<MemoryRecordView>, all: Seq<MemoryView>) -> bool {
    &&& forall|i: int|
        0 <= i < all.len() ==> store::table(records).dom().contains((#[trigger] all[i]).id)
            && store::table(records)[all[i].id].body == all[i]
    &&& forall|id: Seq<char>| #[trigger]
        store::table(records).dom().contains(id) ==> all.contains(store::table(records)[id].body)
}

proof fn lemma_recalled_all(
    records: Seq<MemoryRecordView>,
    distances: Seq<u32>,
    all: Seq<MemoryView>,
)
    requires
        store::sound(records),
        distances.len() == records.len(),
        records.len() <= usize::MAX,
        all == store::nearest(records, distances, usize::MAX as nat),
    ensures
        recalled_all(records, all),
{
    store_laws::law_recall_respects_limit(records, distances, usize::MAX as nat);
    let bodies = records.map_values(|r: MemoryRecordView| r.body);
    all.to_multiset_ensures();
    bodies.to_multiset_ensures();
    assert forall|i: int| 0 <= i < all.len() implies store::table(records).dom().contains(
        (#[trigger] all[i]).id,
    ) && store::table(records)[all[i].id].body == all[i] by {
        assert(all.contains(all[i]));
        assert(bodies.to_multiset().count(all[i]) > 0);
        assert(bodies.contains(all[i]));
        let k = bodies.index_of(all[i]);
        assert(records[k].body == all[i]);
        assert(store::mirrors(records[k]));
        store_laws::lemma_record_in_table(records, k);
    }
    assert forall|id: Seq<char>| #[trigger] store::table(records).dom().contains(id) implies all.contains(
        store::table(records)[id].body,
    ) by {
        let k = store_laws::lemma_in_table(records, id);
        assert(bodies[k] == records[k].body);
        assert(bodies.contains(records[k].body));
        assert(all.to_multiset().count(records[k].body) > 0);
    }
}

/// The note on a goal that no memory was learned from.
pub open spec fn note(intent: IntentView, key: (Seq<char>, Seq<char>), reason: Seq<char>) -> NoteView {
    NoteView { intent, key, reason }
}

/// The log after a run ended like this: a refusal of the judge and a failure are
/// noted once each with their reason, and nothing else is.
pub open spec fn noted(
    log: LogView,
    node: GoalNodeView,
    outcome: OutcomeView,
) -> LogView {
    let key = (node.id, node.subtree_hash->0);
    match outcome {
        OutcomeView::Rejected(reason) => log.declined(note(node.intent, key, reason)),
        OutcomeView::AuthorFailed(reason) => log.failed(note(node.intent, key, reason)),
        _ => log,
    }
}

/// Whether a key names a node and its subtree.
pub open spec fn key_of(node: GoalNodeView, key: (GoalNodeId, SubtreeHash)) -> bool {
    node.subtree_hash is Some && key.0@ == node.id && key.1@ == node.subtree_hash->0
}

/// Ends a run that failed, and notes why.
fn fail(
    log: &mut InductionLog,
    node: &GoalNode,
    key: &(GoalNodeId, SubtreeHash),
    reason: String,
) -> (r: InductionOutcome)
    requires
        key_of(node@, *key),
    ensures
        r@ == OutcomeView::AuthorFailed(reason@),
        final(log)@ == noted(old(log)@, node@, r@),
{
    log.record_failure(
        FailureRecord {
            intent: node.intent.clone(),
            key: (key.0.clone(), key.1.clone()),
            reason: reason.clone(),
        },
    );
    InductionOutcome::AuthorFailed(reason)
}

/// Reinforces the memory learned from a subtree, if there is one.
pub fn reinforce_known<S: MemoryStore>(
    memories: &mut S,
    log: &mut InductionLog,
    node: &GoalNode,
    key: &(GoalNodeId, SubtreeHash),
) -> (r: Option<InductionOutcome>)
    requires
        store::sound(old(memories).records()),
        key_of(node@, *key),
    ensures
        final(memories).available() == old(memories).available(),
        store::sound(final(memories).records()),
        r is None ==> *final(memories) == *old(memories) && final(log)@ == old(log)@,
        r matches Some(outcome) ==> (outcome@ is Reinforced || outcome@ is AuthorFailed)
            && final(log)@ == noted(old(log)@, node@, outcome@),
        r matches Some(outcome) ==> outcome@ is AuthorFailed ==> final(memories).records()
            == old(memories).records(),
        old(memories).available() ==> match store::first_id(
            old(memories).records(),
            store::learned_from(key.0@, key.1@),
        ) {
            Some(id) => r is Some && r->0@ == OutcomeView::Reinforced(id) && store::reinforced(
                old(memories).records(),
                id,
                store::table(old(memories).records())[id].body,
                final(memories).records(),
            ),
            None => r is None,
        },
{
    let ghost records = memories.records();
    let known = memories.has_memory_for(key);
    match known {
        Some(existing) => {
            proof {
                if memories.available() {
                    store_laws::law_lookup_by_subtree(records, key.0@, key.1@);
                    store_laws::law_kept_memories_are_valid(records, existing@);
                }
            }
            match stored_memory_by_id(memories, &existing) {
                Some(candidate) => {
                    match memories.reinforce(&existing, candidate) {
                        Ok(id) => Some(InductionOutcome::Reinforced(id)),
                        Err(e) => Some(fail(log, node, key, e.to_string())),
                    }
                },
                None => Some(
                    fail(
                        log,
                        node,
                        key,
                        "existing memory not found for reinforcement".to_owned(),
                    ),
                ),
            }
        },
        None => None,
    }
}

/// Ends the run where the judge declined, and notes why.
pub fn after_judge(
    log: &mut InductionLog,
    node: &GoalNode,
    key: &(GoalNodeId, SubtreeHash),
    verdict: JudgeVerdict,
) -> (r: Option<InductionOutcome>)
    requires
        key_of(node@, *key),
    ensures
        verdict@.decision is Approve ==> r is None && final(log)@ == old(log)@,
        verdict@.decision is Decline ==> r is Some && r->0@ == OutcomeView::Rejected(
            verdict@.rationale,
        ) && final(log)@ == noted(old(log)@, node@, r->0@),
{
    match verdict.decision {
        Decision::Approve => None,
        Decision::Decline => {
            log.record_decline(
                DeclineRecord {
                    intent: node.intent.clone(),
                    key: (key.0.clone(), key.1.clone()),
                    rationale: verdict.rationale.clone(),
                },
            );
            Some(InductionOutcome::Rejected(verdict.rationale))
        },
    }
}

/// Ends the run where no memory was written or the store refuses it, and notes
/// why, or where a memory with the same intent and plan is there, which is
/// reinforced.
pub fn after_author<S: MemoryStore>(
    memories: &mut S,
    log: &mut InductionLog,
    node: &GoalNode,
    key: &(GoalNodeId, SubtreeHash),
    written: Result<Memory, AuthorError>,
) -> (r: Result<Memory, InductionOutcome>)
    requires
        store::sound(old(memories).records()),
        key_of(node@, *key),
    ensures
        final(memories).available() == old(memories).available(),
        store::sound(final(memories).records()),
        r is Ok ==> *final(memories) == *old(memories) && final(log)@ == old(log)@ && written is Ok
            && r->Ok_0 == written->Ok_0,
        r matches Err(outcome) ==> (outcome@ is Reinforced || outcome@ is AuthorFailed)
            && final(log)@ == noted(old(log)@, node@, outcome@),
        r matches Err(outcome) ==> outcome@ is AuthorFailed ==> final(memories).records()
            == old(memories).records(),
        induction::written_view(written) matches Err(reason) ==> r is Err && r->Err_0@
            == OutcomeView::AuthorFailed(reason) && *final(memories) == *old(memories),
        induction::written_view(written) matches Ok(mem) ==> {
            old(memories).available() ==> match store::first_id(
                old(memories).records(),
                store::plans(mem.intent, mem.plan),
            ) {
                Some(dup) => r is Err && match store::fault(mem) {
                    Some(e) => r->Err_0@ == OutcomeView::AuthorFailed(e.message()),
                    None => r->Err_0@ == OutcomeView::Reinforced(dup) && store::reinforced(
                        old(memories).records(),
                        dup,
                        mem,
                        final(memories).records(),
                    ),
                },
                None => r is Ok,
            }
        },
{
    match written {
        Err(e) => Err(fail(log, node, key, e.0)),
        Ok(candidate) => {
            match memories.find_duplicate(&candidate.intent, &candidate.plan) {
                Some(dup) => {
                    match memories.reinforce(&dup, candidate) {
                        Ok(id) => Err(InductionOutcome::Reinforced(id)),
                        Err(e) => Err(fail(log, node, key, e.to_string())),
                    }
                },
                None => Ok(candidate),
            }
        },
    }
}

/// Keeps the memory with what came of its vector, or notes why it is not kept.
pub fn after_embed<S: MemoryStore>(
    memories: &mut S,
    log: &mut InductionLog,
    node: &GoalNode,
    key: (GoalNodeId, SubtreeHash),
    candidate: Memory,
    embedded: Result<WriteEmbedding, EmbeddingWriteError>,
) -> (r: InductionOutcome)
    requires
        store::sound(old(memories).records()),
        key_of(node@, key),
    ensures
        final(memories).available() == old(memories).available(),
        store::sound(final(memories).records()),
        final(log)@ == noted(old(log)@, node@, r@),
        writer::write_fault(candidate@, writer::result_view(embedded)) matches Some(e) ==> r@
            == OutcomeView::AuthorFailed(e.message()) && final(memories).records() == old(
            memories,
        ).records(),
        writer::write_fault(candidate@, writer::result_view(embedded)) is None ==> r@
            == OutcomeView::Inserted(candidate@.id),
        old(memories).available() ==> inserted(
            old(memories).records(),
            (key.0@, key.1@),
            candidate@,
            writer::result_view(embedded),
            final(memories).records(),
            r@,
        ),
{
    let noted_key = (key.0.clone(), key.1.clone());
    match writer::insert_embedded(memories, key, candidate, embedded) {
        Ok(id) => InductionOutcome::Inserted(id),
        Err(e) => fail(log, node, &noted_key, e.to_string()),
    }
}

/// How keeping a memory ends, given what came of its vector.
pub open spec fn inserted(
    before: Seq<MemoryRecordView>,
    key: (Seq<char>, Seq<char>),
    mem: MemoryView,
    embedded: Result<WriteView, EmbeddingWriteError>,
    after: Seq<MemoryRecordView>,
    outcome: OutcomeView,
) -> bool {
    match writer::write_fault(mem, embedded) {
        Some(e) => outcome == OutcomeView::AuthorFailed(e.message()) && after == before,
        None => outcome == OutcomeView::Inserted(mem.id) && store::table(after) == store::table(
            before,
        ).insert(
            mem.id,
            store::record_of(mem, key.0, key.1, embedded->Ok_0.kept(), 0, 0),
        ),
    }
}

/// How a run past its entry ends, given what the judge said, what the author
/// wrote and what came of the vector, as far as the run asked for these.
pub open spec fn induced(
    before: Seq<MemoryRecordView>,
    log: LogView,
    node: GoalNodeView,
    verdict: VerdictView,
    written: Result<MemoryView, Seq<char>>,
    embedded: Result<WriteView, EmbeddingWriteError>,
    after: Seq<MemoryRecordView>,
    log_after: LogView,
    outcome: OutcomeView,
) -> bool {
    let key = (node.id, node.subtree_hash->0);
    &&& log_after == noted(log, node, outcome)
    &&& match store::first_id(before, store::learned_from(key.0, key.1)) {
        Some(id) => {
            &&& outcome == OutcomeView::Reinforced(id)
            &&& store::reinforced(before, id, store::table(before)[id].body, after)
        },
        None => if verdict.decision is Decline {
            &&& outcome == OutcomeView::Rejected(verdict.rationale)
            &&& after == before
        } else {
            match written {
                Err(reason) => {
                    &&& outcome == OutcomeView::AuthorFailed(reason)
                    &&& after == before
                },
                Ok(mem) => match store::first_id(
                    before,
                    store::plans(mem.intent, mem.plan),
                ) {
                    Some(dup) => match store::fault(mem) {
                        Some(e) => outcome == OutcomeView::AuthorFailed(e.message()) && after
                            == before,
                        None => outcome == OutcomeView::Reinforced(dup) && store::reinforced(
                            before,
                            dup,
                            mem,
                            after,
                        ),
                    },
                    None => inserted(before, key, mem, embedded, after, outcome),
                },
            }
        },
    }
}

/// Learns memories from resolved goals.
pub struct InductionEngine<
    S: MemoryStore,
    T: RecurrenceTracker,
    J: Judge,
    A: Author,
    C: EmbeddingClient,
> {
    store: S,
    tracker: T,
    judge: J,
    author: A,
    threshold: u64,
    log: InductionLog,
    writer: MemoryEmbeddingWriter<C>,
    source_dimension: Option<u32>,
}

impl<
    S: MemoryStore,
    T: RecurrenceTracker,
    J: Judge,
    A: Author,
> InductionEngine<S, T, J, A, NoEmbeddingClient> {
    /// An engine that keeps its memories without vectors.
    pub fn new(store: S, tracker: T, judge: J, author: A, threshold: u64) -> (r: Self)
        ensures
            r.memories() == store,
            r.recurrences() == tracker,
            r.judging() == judge,
            r.authoring() == author,
            r.limit() == threshold,
            r.notes() == (LogView { declines: Seq::empty(), failures: Seq::empty() }),
            !r.writing()@.writes(),
            r.writing()@.dimension is None,
            r.query_dimension() is None,
    {
        let settings = ResolvedEmbeddingSettings::disabled();
        let writer = MemoryEmbeddingWriter::new(NoEmbeddingClient, &settings);
        InductionEngine::with_writer(store, tracker, judge, author, threshold, writer, None)
    }
}

/// What a run past its entry met on its way. What it did not ask for is open.
#[verifier::ext_equal]
pub struct Met {
    /// Whether the store knows a memory learned from the subtree.
    pub known: bool,
    /// What the judge said.
    pub verdict: VerdictView,
    /// What the author wrote.
    pub written: Result<MemoryView, Seq<char>>,
    /// Whether the store has a memory with the same intent and plan.
    pub duplicate: bool,
    /// What came of the vector.
    pub embedded: Result<WriteView, EmbeddingWriteError>,
}

impl Met {
    /// Whether the judge is asked.
    pub open spec fn judges(self) -> bool {
        !self.known
    }

    /// Whether the author is asked.
    pub open spec fn authors(self) -> bool {
        self.judges() && self.verdict.decision is Approve
    }

    /// Whether a vector is asked for.
    pub open spec fn embeds(self) -> bool {
        self.authors() && self.written is Ok && !self.duplicate
    }

    /// Whether a run that met this can end like this, whatever the store holds.
    pub open spec fn ends(self, outcome: OutcomeView) -> bool {
        if !self.judges() {
            outcome is Reinforced || outcome is AuthorFailed
        } else if !self.authors() {
            outcome == OutcomeView::Rejected(self.verdict.rationale)
        } else {
            match self.written {
                Err(reason) => outcome == OutcomeView::AuthorFailed(reason),
                Ok(mem) => if self.duplicate {
                    outcome is Reinforced || outcome is AuthorFailed
                } else {
                    match writer::write_fault(mem, self.embedded) {
                        Some(e) => outcome == OutcomeView::AuthorFailed(e.message()),
                        None => outcome == OutcomeView::Inserted(mem.id),
                    }
                },
            }
        }
    }

    /// Whether these are what the records hold for the node.
    pub open spec fn agrees(self, records: Seq<MemoryRecordView>, node: GoalNodeView) -> bool {
        &&& self.known == (store::first_id(
            records,
            store::learned_from(node.id, node.subtree_hash->0),
        ) is Some)
        &&& self.authors() && self.written is Ok ==> self.duplicate == (store::first_id(
            records,
            store::plans(self.written->Ok_0.intent, self.written->Ok_0.plan),
        ) is Some)
    }
}

/// Whether a run for a node met this on its way: judge, author and writer were
/// each asked at most once, with what is theirs to know, and whoever was not asked
/// is as before.
pub open spec fn met<
    S: MemoryStore,
    T: RecurrenceTracker,
    J: Judge,
    A: Author,
    C: EmbeddingClient,
>(
    before: InductionEngine<S, T, J, A, C>,
    node: GoalNodeView,
    met: Met,
    after: InductionEngine<S, T, J, A, C>,
) -> bool {
    let distilled = induction::distilled(node);
    &&& if met.judges() {
        J::may_judge(before.judging(), distilled, met.verdict, after.judging())
    } else {
        after.judging() == before.judging()
    }
    &&& if met.authors() {
        A::may_write(
            before.authoring(),
            met.verdict.granularity,
            distilled,
            met.written,
            after.authoring(),
        )
    } else {
        after.authoring() == before.authoring()
    }
    &&& if met.embeds() {
        writer::writes(
            before.writing(),
            before.query_dimension(),
            met.written->Ok_0.intent,
            met.embedded,
            after.writing(),
        )
    } else {
        after.writing() == before.writing()
    }
}

/// Whether a run for a node changed the engine like this and ended like this.
///
/// The intent of a resolved node is counted once, before anything else. A run
/// that ends at its entry changes nothing more and asks nobody; one that passes
/// ends as what it met says. Where the store reads and writes its records, these
/// say what it met of them and how they change. Of every store: what is refused or
/// fails is noted, once and with its reason, and changes no record; nothing else
/// is noted.
pub open spec fn ran<
    S: MemoryStore,
    T: RecurrenceTracker,
    J: Judge,
    A: Author,
    C: EmbeddingClient,
>(
    before: InductionEngine<S, T, J, A, C>,
    node: GoalNodeView,
    after: InductionEngine<S, T, J, A, C>,
    outcome: OutcomeView,
) -> bool {
    let reason = entry_refusal(node, after.recurrences().count(node.intent), before.limit());
    &&& after.memories().available() == before.memories().available()
    &&& store::sound(after.memories().records())
    &&& after.notes() == noted(before.notes(), node, outcome)
    &&& outcome is Rejected ==> after.memories() == before.memories()
    &&& outcome is AuthorFailed ==> after.memories().records() == before.memories().records()
    &&& outcome is Skipped <==> reason is Some
    &&& after.limit() == before.limit()
    &&& after.query_dimension() == before.query_dimension()
    &&& node.is_open() ==> after.recurrences() == before.recurrences()
    &&& !node.is_open() ==> counted(before.recurrences(), node.intent, after.recurrences())
    &&& reason is Some ==> {
        &&& outcome == OutcomeView::Skipped(reason->0)
        &&& after.memories() == before.memories()
        &&& after.judging() == before.judging()
        &&& after.authoring() == before.authoring()
        &&& after.writing() == before.writing()
    }
    &&& reason is None ==> exists|way: Met|
        {
            &&& #[trigger] met(before, node, way, after)
            &&& way.ends(outcome)
            &&& before.memories().available() ==> {
                &&& way.agrees(before.memories().records(), node)
                &&& induced(
                    before.memories().records(),
                    before.notes(),
                    node,
                    way.verdict,
                    way.written,
                    way.embedded,
                    after.memories().records(),
                    after.notes(),
                    outcome,
                )
            }
        }
}

impl<
    S: MemoryStore,
    T: RecurrenceTracker,
    J: Judge,
    A: Author,
    C: EmbeddingClient,
> InductionEngine<S, T, J, A, C> {
    /// The store that memories are kept in.
    pub closed spec fn memories(&self) -> S {
        self.store
    }

    /// The tracker that counts intents.
    pub closed spec fn recurrences(&self) -> T {
        self.tracker
    }

    /// The judge.
    pub closed spec fn judging(&self) -> J {
        self.judge
    }

    /// The author.
    pub closed spec fn authoring(&self) -> A {
        self.author
    }

    /// How often an intent must occur before a memory is learned.
    pub closed spec fn limit(&self) -> u64 {
        self.threshold
    }

    /// The goals that no memory was learned from.
    pub closed spec fn notes(&self) -> LogView {
        self.log@
    }

    /// The write path for vectors.
    pub closed spec fn writing(&self) -> MemoryEmbeddingWriter<C> {
        self.writer
    }

    /// The dimension of the query path.
    pub closed spec fn query_dimension(&self) -> Option<u32> {
        self.source_dimension
    }

    /// An engine that keeps its memories with the vectors of a writer.
    pub fn with_writer(
        store: S,
        tracker: T,
        judge: J,
        author: A,
        threshold: u64,
        writer: MemoryEmbeddingWriter<C>,
        source_dimension: Option<u32>,
    ) -> (r: Self)
        ensures
            r.memories() == store,
            r.recurrences() == tracker,
            r.judging() == judge,
            r.authoring() == author,
            r.limit() == threshold,
            r.notes() == (LogView { declines: Seq::empty(), failures: Seq::empty() }),
            r.writing() == writer,
            r.query_dimension() == source_dimension,
    {
        InductionEngine {
            store,
            tracker,
            judge,
            author,
            threshold,
            log: InductionLog::new(),
            writer,
            source_dimension,
        }
    }

    /// The goals that no memory was learned from.
    pub fn log(&self) -> (r: &InductionLog)
        ensures
            r@ == self.notes(),
    {
        &self.log
    }

    /// The store that memories are kept in.
    pub fn store(&self) -> (r: &S)
        ensures
            *r == self.memories(),
    {
        &self.store
    }

    /// The tracker that counts intents.
    pub fn tracker(&self) -> (r: &T)
        ensures
            *r == self.recurrences(),
    {
        &self.tracker
    }

    /// Learns a memory from a resolved node, or reinforces one that is there.
    pub fn induce_memory(&mut self, node: &GoalNode) -> (r: InductionOutcome)
        requires
            store::sound(old(self).memories().records()),
        ensures
            ran(*old(self), node@, *final(self), r@),
    {
        let key = match enter(&mut self.tracker, self.threshold, node) {
            Ok(key) => key,
            Err(outcome) => {
                return outcome;
            },
        };
        let ghost none = Err::<WriteView, EmbeddingWriteError>(arbitrary());
        if let Some(outcome) = reinforce_known(
            &mut self.store,
            &mut self.log,
            node,
            &key,
        ) {
            proof {
                let way = Met {
                    known: true,
                    verdict: arbitrary(),
                    written: arbitrary(),
                    duplicate: false,
                    embedded: none,
                };
                assert(met(*old(self), node@, way, *self));
            }
            return outcome;
        }
        let judge_ctx = CleanContext::from_node(node);
        let verdict = self.judge.evaluate(&judge_ctx);
        let ghost said = verdict@;
        let granularity = verdict.granularity;
        if let Some(outcome) = after_judge(&mut self.log, node, &key, verdict) {
            proof {
                let way = Met {
                    known: false,
                    verdict: said,
                    written: arbitrary(),
                    duplicate: false,
                    embedded: none,
                };
                assert(met(*old(self), node@, way, *self));
            }
            return outcome;
        }
        let author_ctx = CleanContext::from_node(node);
        let written = self.author.write(granularity, &author_ctx);
        let ghost wrote = induction::written_view(written);
        let candidate = match after_author(&mut self.store, &mut self.log, node, &key, written) {
            Ok(candidate) => candidate,
            Err(outcome) => {
                proof {
                    let way = Met {
                        known: false,
                        verdict: said,
                        written: wrote,
                        duplicate: true,
                        embedded: none,
                    };
                    assert(met(*old(self), node@, way, *self));
                }
                return outcome;
            },
        };
        let embedded = writer::prepare_write(
            &mut self.writer,
            self.source_dimension,
            &candidate.intent,
        );
        let ghost way = Met {
            known: false,
            verdict: said,
            written: wrote,
            duplicate: false,
            embedded: writer::result_view(embedded),
        };
        let r = after_embed(&mut self.store, &mut self.log, node, key, candidate, embedded);
        assert(met(*old(self), node@, way, *self));
        r
    }
}

} // verus!
