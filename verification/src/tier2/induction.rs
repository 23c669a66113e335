//! Learning a memory from a resolved goal.
//!
//! A run counts one occurrence of the goal's intent. Once the intent recurred
//! often enough, a judge decides whether the goal is worth a memory, and an
//! author writes it. A memory that is already there is reinforced instead.

use vstd::prelude::*;
use vstd::string::*;

use crate::goal_model::model::{GoalNode, GoalNodeView, Resolution};
use crate::tier2::memory::{Memory, MemoryKind, MemoryView};
use crate::types::{GoalNodeId, IntentSignature, IntentView, MemoryId, SubtreeHash};
use crate::views;

verus! {

/// One more, unless the count is full.
pub open spec fn one_more(n: u64) -> u64 {
    if n < u64::MAX {
        (n + 1) as u64
    } else {
        u64::MAX
    }
}

/// Counts how often intents occur.
///
/// An implementation says with `count` how often that is.
pub trait RecurrenceTracker: Sized {
    /// How often the intent occurred.
    spec fn count(&self, intent: IntentView) -> u64;

    /// Counts one occurrence.
    fn record_occurrence(&mut self, intent: &IntentSignature)
        ensures
            final(self).count(intent@) == one_more(old(self).count(intent@)),
            forall|other: IntentView|
                other != intent@ ==> #[trigger] final(self).count(other) == old(self).count(other),
    ;

    /// How often the intent occurred.
    fn recurrence_count(&self, intent: &IntentSignature) -> (r: u64)
        ensures
            r == self.count(intent@),
    ;
}

/// A tracker that counts in memory.
#[derive(Debug)]
pub struct InMemoryRecurrenceTracker {
    counts: Vec<(IntentSignature, u64)>,
}

spec fn count_in(counts: Seq<(IntentSignature, u64)>, intent: IntentView) -> u64
    decreases counts.len(),
{
    if counts.len() == 0 {
        0
    } else if counts[0].0@ == intent {
        counts[0].1
    } else {
        count_in(counts.drop_first(), intent)
    }
}

proof fn lemma_count_at(counts: Seq<(IntentSignature, u64)>, intent: IntentView, at: int)
    requires
        0 <= at <= counts.len(),
        forall|i: int| 0 <= i < at ==> (#[trigger] counts[i]).0@ != intent,
        at < counts.len() ==> counts[at].0@ == intent,
    ensures
        count_in(counts, intent) == if at < counts.len() {
            counts[at].1
        } else {
            0
        },
    decreases counts.len(),
{
    if counts.len() > 0 && at > 0 {
        assert(counts[0].0@ != intent);
        let rest = counts.drop_first();
        assert forall|i: int| 0 <= i < at - 1 implies (#[trigger] rest[i]).0@ != intent by {
            assert(rest[i] == counts[i + 1]);
        }
        lemma_count_at(rest, intent, at - 1);
    }
}

proof fn lemma_count_other(
    counts: Seq<(IntentSignature, u64)>,
    at: int,
    n: u64,
    other: IntentView,
)
    requires
        0 <= at < counts.len(),
        counts[at].0@ != other,
    ensures
        count_in(counts.update(at, (counts[at].0, n)), other) == count_in(counts, other),
    decreases counts.len(),
{
    let after = counts.update(at, (counts[at].0, n));
    if at > 0 {
        assert(after.drop_first() =~= counts.drop_first().update(at - 1, (counts[at].0, n)));
        assert(counts.drop_first()[at - 1] == counts[at]);
        lemma_count_other(counts.drop_first(), at - 1, n, other);
    } else {
        assert(after.drop_first() =~= counts.drop_first());
    }
}

proof fn lemma_count_push(
    counts: Seq<(IntentSignature, u64)>,
    entry: (IntentSignature, u64),
    other: IntentView,
)
    requires
        entry.0@ != other,
    ensures
        count_in(counts.push(entry), other) == count_in(counts, other),
    decreases counts.len(),
{
    if counts.len() > 0 {
        assert(counts.push(entry).drop_first() =~= counts.drop_first().push(entry));
        lemma_count_push(counts.drop_first(), entry, other);
    } else {
        assert(counts.push(entry).drop_first() =~= counts);
    }
}

impl InMemoryRecurrenceTracker {
    /// A tracker that has counted nothing.
    pub fn new() -> (r: Self)
        ensures
            forall|intent: IntentView| #[trigger] r.count(intent) == 0,
    {
        InMemoryRecurrenceTracker { counts: Vec::new() }
    }

    fn find(&self, intent: &IntentSignature) -> (r: usize)
        ensures
            r <= self.counts@.len(),
            forall|i: int| 0 <= i < r ==> (#[trigger] self.counts@[i]).0@ != intent@,
            r < self.counts@.len() ==> self.counts@[r as int].0@ == intent@,
    {
        let mut i: usize = 0;
        while i < self.counts.len() && !self.counts[i].0.same(intent)
            invariant
                i <= self.counts@.len(),
                forall|j: int| 0 <= j < i ==> (#[trigger] self.counts@[j]).0@ != intent@,
            decreases self.counts@.len() - i,
        {
            i += 1;
        }
        i
    }
}

impl Default for InMemoryRecurrenceTracker {
    fn default() -> (r: Self)
        ensures
            forall|intent: IntentView| #[trigger] r.count(intent) == 0,
    {
        InMemoryRecurrenceTracker::new()
    }
}

impl RecurrenceTracker for InMemoryRecurrenceTracker {
    closed spec fn count(&self, intent: IntentView) -> u64 {
        count_in(self.counts@, intent)
    }

    fn record_occurrence(&mut self, intent: &IntentSignature) {
        let i = self.find(intent);
        let ghost before = self.counts@;
        proof {
            lemma_count_at(before, intent@, i as int);
        }
        if i < self.counts.len() {
            let n = self.counts[i].1.saturating_add(1);
            let entry = (self.counts[i].0.clone(), n);
            self.counts.set(i, entry);
            proof {
                assert(self.counts@ =~= before.update(i as int, (before[i as int].0, n)));
                lemma_count_at(self.counts@, intent@, i as int);
                assert forall|other: IntentView| other != intent@ implies #[trigger] self.count(
                    other,
                ) == old(self).count(other) by {
                    lemma_count_other(before, i as int, n, other);
                }
            }
        } else {
            let entry = (intent.clone(), 1u64);
            let ghost added = entry;
            self.counts.push(entry);
            proof {
                lemma_count_at(self.counts@, intent@, i as int);
                assert forall|other: IntentView| other != intent@ implies #[trigger] self.count(
                    other,
                ) == old(self).count(other) by {
                    lemma_count_push(before, added, other);
                }
            }
        }
    }

    fn recurrence_count(&self, intent: &IntentSignature) -> (r: u64) {
        let i = self.find(intent);
        proof {
            lemma_count_at(self.counts@, intent@, i as int);
        }
        if i < self.counts.len() {
            self.counts[i].1
        } else {
            0
        }
    }
}

/// What a judge and an author learn of a node: its structure, and nothing of the
/// work that was done on it.
#[derive(Debug, PartialEq, Eq)]
pub struct DistilledNode {
    /// The node.
    pub id: GoalNodeId,
    /// How it was resolved.
    pub resolution: Resolution,
    /// Its intent.
    pub intent: IntentSignature,
    /// The hash of its subtree, if closed.
    pub subtree_hash: Option<SubtreeHash>,
    /// The hypothesis it tested.
    pub hypothesis: String,
    /// The conditions under which it counted as resolved.
    pub resolution_conditions: Vec<String>,
}

/// The content of a distilled node.
#[verifier::ext_equal]
pub struct DistilledView {
    pub id: Seq<char>,
    pub resolution: Resolution,
    pub intent: IntentView,
    pub subtree_hash: Option<Seq<char>>,
    pub hypothesis: Seq<char>,
    pub resolution_conditions: Seq<Seq<char>>,
}

impl View for DistilledNode {
    type V = DistilledView;

    open spec fn view(&self) -> DistilledView {
        DistilledView {
            id: self.id@,
            resolution: self.resolution,
            intent: self.intent@,
            subtree_hash: views::of_option(self.subtree_hash),
            hypothesis: self.hypothesis@,
            resolution_conditions: views::of_seq(self.resolution_conditions@),
        }
    }
}

impl Clone for DistilledNode {
    fn clone(&self) -> (r: Self)
        ensures
            r@ == self@,
    {
        let r = DistilledNode {
            id: self.id.clone(),
            resolution: self.resolution,
            intent: self.intent.clone(),
            subtree_hash: match &self.subtree_hash {
                Some(hash) => Some(hash.clone()),
                None => None,
            },
            hypothesis: self.hypothesis.clone(),
            resolution_conditions: self.resolution_conditions.clone(),
        };
        assert(views::of_seq(r.resolution_conditions@) =~= views::of_seq(
            self.resolution_conditions@,
        ));
        r
    }
}

/// The structure of a node.
pub open spec fn distilled(node: GoalNodeView) -> DistilledView {
    DistilledView {
        id: node.id,
        resolution: node.resolution,
        intent: node.intent,
        subtree_hash: node.subtree_hash,
        hypothesis: node.hypothesis,
        resolution_conditions: node.resolution_conditions,
    }
}

/// What a judge or an author is given.
#[derive(Debug, PartialEq, Eq)]
pub struct CleanContext {
    node: DistilledNode,
}

impl View for CleanContext {
    type V = DistilledView;

    closed spec fn view(&self) -> DistilledView {
        self.node@
    }
}

impl Clone for CleanContext {
    fn clone(&self) -> (r: Self)
        ensures
            r@ == self@,
    {
        CleanContext { node: self.node.clone() }
    }
}

impl CleanContext {
    /// A fresh context with the structure of a node.
    pub fn from_node(node: &GoalNode) -> (r: Self)
        ensures
            r@ == distilled(node@),
    {
        let r = CleanContext {
            node: DistilledNode {
                id: node.id.clone(),
                resolution: node.resolution,
                intent: node.intent.clone(),
                subtree_hash: match &node.subtree_hash {
                    Some(hash) => Some(hash.clone()),
                    None => None,
                },
                hypothesis: node.hypothesis.clone(),
                resolution_conditions: node.resolution_conditions.clone(),
            },
        };
        assert(views::of_seq(r.node.resolution_conditions@) =~= views::of_seq(
            node.resolution_conditions@,
        ));
        r
    }

    /// The structure of the node.
    pub fn node(&self) -> (r: &DistilledNode)
        ensures
            r@ == self@,
    {
        &self.node
    }
}

/// Nothing of the work on a node shows in its context: nodes that differ only in
/// their tool calls and their place in the tree have the same context.
pub proof fn law_context_is_clean(a: GoalNodeView, b: GoalNodeView)
    requires
        b == (GoalNodeView {
            parent: b.parent,
            children: b.children,
            tool_calls: b.tool_calls,
            ..a
        }),
    ensures
        distilled(a) == distilled(b),
{
}

/// How large a memory to write.
#[derive(Debug, Clone, Copy, PartialEq, Eq, Structural)]
pub enum Granularity {
    /// One procedure.
    Fragment,
    /// A composed procedure.
    Composite,
    /// A dead end.
    Negative,
}

impl Granularity {
    /// The kind of memory of this size.
    pub open spec fn kind_of(self) -> MemoryKind {
        match self {
            Granularity::Fragment => MemoryKind::Fragment,
            Granularity::Composite => MemoryKind::Composite,
            Granularity::Negative => MemoryKind::Negative,
        }
    }

    /// The name.
    pub open spec fn name(self) -> Seq<char> {
        match self {
            Granularity::Fragment => "Fragment"@,
            Granularity::Composite => "Composite"@,
            Granularity::Negative => "Negative"@,
        }
    }

    /// The kind of memory of this size.
    pub fn kind(self) -> (r: MemoryKind)
        ensures
            r == self.kind_of(),
    {
        match self {
            Granularity::Fragment => MemoryKind::Fragment,
            Granularity::Composite => MemoryKind::Composite,
            Granularity::Negative => MemoryKind::Negative,
        }
    }
}

/// Whether a goal is worth a memory.
#[derive(Debug, Clone, Copy, PartialEq, Eq, Structural)]
pub enum Decision {
    /// It is.
    Approve,
    /// It is not.
    Decline,
}

/// What a judge says.
#[derive(Debug, PartialEq, Eq)]
pub struct JudgeVerdict {
    /// Whether the goal is worth a memory.
    pub decision: Decision,
    /// Why.
    pub rationale: String,
    /// How large a memory to write, if any.
    pub granularity: Granularity,
}

/// The content of a verdict.
#[verifier::ext_equal]
pub struct VerdictView {
    pub decision: Decision,
    pub rationale: Seq<char>,
    pub granularity: Granularity,
}

impl View for JudgeVerdict {
    type V = VerdictView;

    open spec fn view(&self) -> VerdictView {
        VerdictView {
            decision: self.decision,
            rationale: self.rationale@,
            granularity: self.granularity,
        }
    }
}

impl Clone for JudgeVerdict {
    fn clone(&self) -> (r: Self)
        ensures
            r == *self,
    {
        JudgeVerdict {
            decision: self.decision,
            rationale: self.rationale.clone(),
            granularity: self.granularity,
        }
    }
}

/// The verdict that a goal is worth a memory.
pub open spec fn approval(granularity: Granularity, rationale: Seq<char>) -> VerdictView {
    VerdictView { decision: Decision::Approve, rationale, granularity }
}

/// The verdict that a goal is not worth a memory.
pub open spec fn refusal(rationale: Seq<char>) -> VerdictView {
    VerdictView {
        decision: Decision::Decline,
        rationale,
        granularity: Granularity::Fragment,
    }
}

impl JudgeVerdict {
    /// The goal is worth a memory of this size.
    pub fn approve(granularity: Granularity, rationale: &str) -> (r: Self)
        ensures
            r@ == approval(granularity, rationale@),
    {
        JudgeVerdict { decision: Decision::Approve, rationale: rationale.to_owned(), granularity }
    }

    /// The goal is not worth a memory.
    pub fn decline(rationale: &str) -> (r: Self)
        ensures
            r@ == refusal(rationale@),
    {
        JudgeVerdict {
            decision: Decision::Decline,
            rationale: rationale.to_owned(),
            granularity: Granularity::Fragment,
        }
    }
}

/// Decides whether goals are worth a memory.
///
/// An implementation says which verdicts it can give and what giving one leaves
/// of the judge. One that says nothing may give any. A judge that was not asked is
/// left as it was.
pub trait Judge: Sized {
    /// Whether the judge `before` can say this of the node and become `after`.
    open spec fn may_judge(
        before: Self,
        node: DistilledView,
        verdict: VerdictView,
        after: Self,
    ) -> bool {
        true
    }

    /// The verdict on a node.
    fn evaluate(&mut self, ctx: &CleanContext) -> (r: JudgeVerdict)
        ensures
            Self::may_judge(*old(self), ctx@, r@, *final(self)),
    ;
}

/// Why no memory was written.
#[derive(Debug, PartialEq, Eq)]
pub struct AuthorError(pub String);

impl View for AuthorError {
    type V = Seq<char>;

    open spec fn view(&self) -> Seq<char> {
        self.0@
    }
}

impl Clone for AuthorError {
    fn clone(&self) -> (r: Self)
        ensures
            r == *self,
    {
        AuthorError(self.0.clone())
    }
}

impl AuthorError {
    /// An error with this reason.
    pub fn new(reason: &str) -> (r: Self)
        ensures
            r@ == reason@,
    {
        AuthorError(reason.to_owned())
    }

    /// The message shown for the error.
    pub fn to_string(&self) -> (r: String)
        ensures
            r@ == "author failure: "@ + self@,
    {
        let mut r = "author failure: ".to_owned();
        r.append(self.0.as_str());
        r
    }
}

/// The view of what an author wrote.
pub open spec fn written_view(r: Result<Memory, AuthorError>) -> Result<MemoryView, Seq<char>> {
    match r {
        Ok(mem) => Ok(mem@),
        Err(e) => Err(e@),
    }
}

/// Writes memories.
///
/// An implementation says what it can write and what writing leaves of the
/// author. One that says nothing may write anything. An author that was not asked
/// is left as it was.
pub trait Author: Sized {
    /// Whether the author `before` can write this for the node and become
    /// `after`.
    open spec fn may_write(
        before: Self,
        granularity: Granularity,
        node: DistilledView,
        written: Result<MemoryView, Seq<char>>,
        after: Self,
    ) -> bool {
        true
    }

    /// Writes a memory of this size.
    fn write(&mut self, granularity: Granularity, ctx: &CleanContext) -> (r: Result<
        Memory,
        AuthorError,
    >)
        ensures
            Self::may_write(*old(self), granularity, ctx@, written_view(r), *final(self)),
    ;
}

/// A goal that was found not worth a memory.
#[derive(Debug, PartialEq, Eq)]
pub struct DeclineRecord {
    /// The intent of the goal.
    pub intent: IntentSignature,
    /// The subtree of the goal.
    pub key: (GoalNodeId, SubtreeHash),
    /// Why.
    pub rationale: String,
}

/// The content of a record.
#[verifier::ext_equal]
pub struct NoteView {
    pub intent: IntentView,
    pub key: (Seq<char>, Seq<char>),
    pub reason: Seq<char>,
}

impl View for DeclineRecord {
    type V = NoteView;

    open spec fn view(&self) -> NoteView {
        NoteView {
            intent: self.intent@,
            key: (self.key.0@, self.key.1@),
            reason: self.rationale@,
        }
    }
}

impl Clone for DeclineRecord {
    fn clone(&self) -> (r: Self)
        ensures
            r == *self,
    {
        DeclineRecord {
            intent: self.intent.clone(),
            key: (self.key.0.clone(), self.key.1.clone()),
            rationale: self.rationale.clone(),
        }
    }
}

/// A goal for which no memory could be written.
#[derive(Debug, PartialEq, Eq)]
pub struct FailureRecord {
    /// The intent of the goal.
    pub intent: IntentSignature,
    /// The subtree of the goal.
    pub key: (GoalNodeId, SubtreeHash),
    /// Why.
    pub reason: String,
}

impl View for FailureRecord {
    type V = NoteView;

    open spec fn view(&self) -> NoteView {
        NoteView {
            intent: self.intent@,
            key: (self.key.0@, self.key.1@),
            reason: self.reason@,
        }
    }
}

impl Clone for FailureRecord {
    fn clone(&self) -> (r: Self)
        ensures
            r == *self,
    {
        FailureRecord {
            intent: self.intent.clone(),
            key: (self.key.0.clone(), self.key.1.clone()),
            reason: self.reason.clone(),
        }
    }
}

/// The goals that no memory was learned from.
#[derive(Debug)]
pub struct InductionLog {
    declines: Vec<DeclineRecord>,
    failures: Vec<FailureRecord>,
}

/// The content of a log.
#[verifier::ext_equal]
pub struct LogView {
    pub declines: Seq<NoteView>,
    pub failures: Seq<NoteView>,
}

impl LogView {
    /// The log with one more goal found not worth a memory.
    pub open spec fn declined(self, note: NoteView) -> LogView {
        LogView { declines: self.declines.push(note), ..self }
    }

    /// The log with one more goal for which no memory could be written.
    pub open spec fn failed(self, note: NoteView) -> LogView {
        LogView { failures: self.failures.push(note), ..self }
    }
}

impl View for InductionLog {
    type V = LogView;

    closed spec fn view(&self) -> LogView {
        LogView {
            declines: views::of_seq(self.declines@),
            failures: views::of_seq(self.failures@),
        }
    }
}

impl Default for InductionLog {
    fn default() -> (r: Self)
        ensures
            r@ == (LogView { declines: Seq::empty(), failures: Seq::empty() }),
    {
        let r = InductionLog { declines: Vec::new(), failures: Vec::new() };
        assert(r@ =~= LogView { declines: Seq::empty(), failures: Seq::empty() });
        r
    }
}

impl InductionLog {
    /// An empty log.
    pub fn new() -> (r: Self)
        ensures
            r@ == (LogView { declines: Seq::empty(), failures: Seq::empty() }),
    {
        InductionLog::default()
    }

    /// Notes a goal found not worth a memory.
    pub(crate) fn record_decline(&mut self, record: DeclineRecord)
        ensures
            final(self)@ == old(self)@.declined(record@),
    {
        self.declines.push(record);
        assert(self@ =~= old(self)@.declined(record@));
    }

    /// Notes a goal for which no memory could be written.
    pub(crate) fn record_failure(&mut self, record: FailureRecord)
        ensures
            final(self)@ == old(self)@.failed(record@),
    {
        self.failures.push(record);
        assert(self@ =~= old(self)@.failed(record@));
    }

    /// The goals found not worth a memory, in order.
    pub fn declines(&self) -> (r: Vec<DeclineRecord>)
        ensures
            views::of_seq(r@) == self@.declines,
    {
        let r = self.declines.clone();
        assert(views::of_seq(r@) =~= self@.declines);
        r
    }

    /// The goals for which no memory could be written, in order.
    pub fn failures(&self) -> (r: Vec<FailureRecord>)
        ensures
            views::of_seq(r@) == self@.failures,
    {
        let r = self.failures.clone();
        assert(views::of_seq(r@) =~= self@.failures);
        r
    }
}

/// What came of a run.
#[derive(Debug, PartialEq, Eq)]
pub enum InductionOutcome {
    /// Nothing was tried, for this reason.
    Skipped(String),
    /// The judge declined, for this reason.
    Rejected(String),
    /// This memory was reinforced.
    Reinforced(MemoryId),
    /// This memory was kept.
    Inserted(MemoryId),
    /// No memory could be written or kept, for this reason.
    AuthorFailed(String),
}

/// The content of an outcome.
#[verifier::ext_equal]
pub enum OutcomeView {
    Skipped(Seq<char>),
    Rejected(Seq<char>),
    Reinforced(Seq<char>),
    Inserted(Seq<char>),
    AuthorFailed(Seq<char>),
}

impl View for InductionOutcome {
    type V = OutcomeView;

    open spec fn view(&self) -> OutcomeView {
        match *self {
            InductionOutcome::Skipped(s) => OutcomeView::Skipped(s@),
            InductionOutcome::Rejected(s) => OutcomeView::Rejected(s@),
            InductionOutcome::Reinforced(id) => OutcomeView::Reinforced(id@),
            InductionOutcome::Inserted(id) => OutcomeView::Inserted(id@),
            InductionOutcome::AuthorFailed(s) => OutcomeView::AuthorFailed(s@),
        }
    }
}

impl Clone for InductionOutcome {
    fn clone(&self) -> (r: Self)
        ensures
            r == *self,
    {
        match self {
            InductionOutcome::Skipped(s) => InductionOutcome::Skipped(s.clone()),
            InductionOutcome::Rejected(s) => InductionOutcome::Rejected(s.clone()),
            InductionOutcome::Reinforced(id) => InductionOutcome::Reinforced(id.clone()),
            InductionOutcome::Inserted(id) => InductionOutcome::Inserted(id.clone()),
            InductionOutcome::AuthorFailed(s) => InductionOutcome::AuthorFailed(s.clone()),
        }
    }
}

} // verus!
