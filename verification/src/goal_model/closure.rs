//! The closure signal and the queue that receives it.

use vstd::prelude::*;

use crate::types::{GoalNodeId, SessionId, SubtreeHash};
use crate::views;

verus! {

/// A subtree closed: the trigger for induction.
#[derive(Debug, PartialEq, Eq, Hash)]
pub struct ClosureSignal {
    /// The session the node belongs to.
    pub session: SessionId,
    /// The node whose subtree closed.
    pub node_id: GoalNodeId,
    /// The hash of the subtree at closure.
    pub subtree_hash: SubtreeHash,
}

/// The content of a closure signal.
#[verifier::ext_equal]
pub struct ClosureSignalView {
    pub session: Seq<char>,
    pub node_id: Seq<char>,
    pub subtree_hash: Seq<char>,
}

impl ClosureSignalView {
    /// The idempotency key of the closure.
    pub open spec fn key(self) -> (Seq<char>, Seq<char>) {
        (self.node_id, self.subtree_hash)
    }
}

impl View for ClosureSignal {
    type V = ClosureSignalView;

    open spec fn view(&self) -> ClosureSignalView {
        ClosureSignalView {
            session: self.session@,
            node_id: self.node_id@,
            subtree_hash: self.subtree_hash@,
        }
    }
}

impl Clone for ClosureSignal {
    fn clone(&self) -> (r: Self)
        ensures
            r == *self,
    {
        ClosureSignal {
            session: self.session.clone(),
            node_id: self.node_id.clone(),
            subtree_hash: self.subtree_hash.clone(),
        }
    }
}

impl ClosureSignal {
    /// A signal for one closure.
    pub fn new(session: SessionId, node_id: GoalNodeId, subtree_hash: SubtreeHash) -> (r: Self)
        ensures
            r@ == (ClosureSignalView {
                session: session@,
                node_id: node_id@,
                subtree_hash: subtree_hash@,
            }),
    {
        ClosureSignal { session, node_id, subtree_hash }
    }

    /// The idempotency key: the node and the hash of its subtree.
    pub fn key(&self) -> (r: (GoalNodeId, SubtreeHash))
        ensures
            (r.0@, r.1@) == self@.key(),
    {
        (self.node_id.clone(), self.subtree_hash.clone())
    }
}

/// Receives closure signals.
///
/// An implementation says with `took` how taking a signal changes it. One that
/// says nothing may change in any way.
pub trait InductionQueue: Sized {
    /// Whether `after` is the queue `before` after it took `signal`.
    open spec fn took(before: Self, signal: ClosureSignalView, after: Self) -> bool {
        true
    }

    /// Hands a signal over.
    fn enqueue(&mut self, signal: ClosureSignal)
        ensures
            Self::took(*old(self), signal@, *final(self)),
    ;
}

/// A queue that drops every signal.
#[derive(Debug, Clone, Copy)]
pub struct NoopInductionQueue;

impl Default for NoopInductionQueue {
    fn default() -> (r: Self) {
        NoopInductionQueue
    }
}

impl InductionQueue for NoopInductionQueue {
    open spec fn took(before: Self, signal: ClosureSignalView, after: Self) -> bool {
        after == before
    }

    fn enqueue(&mut self, signal: ClosureSignal) {
    }
}

/// A queue that keeps every signal, in order of arrival.
///
/// There is one record and no copy of it: those who are to share it share the
/// queue.
#[derive(Debug)]
pub struct RecordingInductionQueue {
    jobs: Vec<ClosureSignal>,
}

impl View for RecordingInductionQueue {
    type V = Seq<ClosureSignalView>;

    closed spec fn view(&self) -> Seq<ClosureSignalView> {
        views::of_seq(self.jobs@)
    }
}

impl Default for RecordingInductionQueue {
    fn default() -> (r: Self)
        ensures
            r@ == Seq::<ClosureSignalView>::empty(),
    {
        RecordingInductionQueue::new()
    }
}

impl InductionQueue for RecordingInductionQueue {
    open spec fn took(before: Self, signal: ClosureSignalView, after: Self) -> bool {
        after@ == before@.push(signal)
    }

    fn enqueue(&mut self, signal: ClosureSignal) {
        self.jobs.push(signal);
        assert(self@ =~= old(self)@.push(signal@));
    }
}

/// How many signals carry the key.
pub open spec fn count_of(jobs: Seq<ClosureSignalView>, key: (Seq<char>, Seq<char>)) -> nat
    decreases jobs.len(),
{
    if jobs.len() == 0 {
        0
    } else {
        count_of(jobs.drop_last(), key) + if jobs.last().key() == key {
            1nat
        } else {
            0nat
        }
    }
}

impl RecordingInductionQueue {
    /// A queue without signals.
    pub fn new() -> (r: Self)
        ensures
            r@ == Seq::<ClosureSignalView>::empty(),
    {
        let r = RecordingInductionQueue { jobs: Vec::new() };
        assert(r@ =~= Seq::<ClosureSignalView>::empty());
        r
    }

    /// The signals, in order of arrival.
    pub fn jobs(&self) -> (r: Vec<ClosureSignal>)
        ensures
            views::of_seq(r@) == self@,
    {
        let r = self.jobs.clone();
        assert(views::of_seq(r@) =~= self@);
        r
    }

    /// The number of signals.
    pub fn len(&self) -> (r: usize)
        ensures
            r == self@.len(),
    {
        self.jobs.len()
    }

    /// Whether no signal arrived.
    pub fn is_empty(&self) -> (r: bool)
        ensures
            r == (self@.len() == 0),
    {
        self.len() == 0
    }

    /// How many signals arrived for one closure.
    pub fn count_for(&self, node_id: &GoalNodeId, subtree_hash: &SubtreeHash) -> (r: usize)
        ensures
            r == count_of(self@, (node_id@, subtree_hash@)),
    {
        let ghost key = (node_id@, subtree_hash@);
        let mut n: usize = 0;
        let mut i: usize = 0;
        while i < self.jobs.len()
            invariant
                i <= self.jobs@.len(),
                n <= i,
                key == (node_id@, subtree_hash@),
                n == count_of(self@.take(i as int), key),
            decreases self.jobs@.len() - i,
        {
            proof {
                assert(self@.take(i + 1).drop_last() =~= self@.take(i as int));
                assert(self@.take(i + 1).last() == self.jobs@[i as int]@);
            }
            if self.jobs[i].node_id.0 == node_id.0 && self.jobs[i].subtree_hash.0.0
                == subtree_hash.0.0 {
                n += 1;
            }
            i += 1;
        }
        assert(self@.take(i as int) =~= self@);
        n
    }

    /// The keys that arrived, each once.
    pub fn distinct_keys(&self) -> (r: Vec<(GoalNodeId, SubtreeHash)>)
        ensures
            pair_views(r@).no_duplicates(),
            forall|key: (Seq<char>, Seq<char>)| #[trigger]
                pair_views(r@).contains(key) <==> count_of(self@, key) > 0,
    {
        let mut r: Vec<(GoalNodeId, SubtreeHash)> = Vec::new();
        let mut i: usize = 0;
        while i < self.jobs.len()
            invariant
                i <= self.jobs@.len(),
                pair_views(r@).no_duplicates(),
                forall|key: (Seq<char>, Seq<char>)| #[trigger]
                    pair_views(r@).contains(key) <==> count_of(self@.take(i as int), key) > 0,
            decreases self.jobs@.len() - i,
        {
            let ghost before = pair_views(r@);
            let ghost job = self.jobs@[i as int]@;
            proof {
                assert(self@.take(i + 1).drop_last() =~= self@.take(i as int));
                assert(self@.take(i + 1).last() == job);
            }
            let mut known: bool = false;
            let mut j: usize = 0;
            while j < r.len()
                invariant
                    i < self.jobs@.len(),
                    job == self.jobs@[i as int]@,
                    j <= r@.len(),
                    before == pair_views(r@),
                    known == before.take(j as int).contains(job.key()),
                decreases r@.len() - j,
            {
                let same: bool = r[j].0.0 == self.jobs[i].node_id.0 && r[j].1.0.0
                    == self.jobs[i].subtree_hash.0.0;
                proof {
                    assert(before.take(j + 1) =~= before.take(j as int).push(before[j as int]));
                    assert(same == (before[j as int] == job.key()));
                    lemma_contains_push(before.take(j as int), before[j as int], job.key());
                }
                known = known || same;
                j += 1;
            }
            assert(before.take(j as int) =~= before);
            if !known {
                r.push(self.jobs[i].key());
                assert(pair_views(r@) =~= before.push(job.key()));
            }
            proof {
                assert forall|key: (Seq<char>, Seq<char>)| #[trigger]
                    pair_views(r@).contains(key) <==> count_of(self@.take(i + 1), key) > 0 by {
                    lemma_contains_push(before, job.key(), key);
                    assert(before.contains(key) <==> count_of(self@.take(i as int), key) > 0);
                }
            }
            i += 1;
        }
        assert(self@.take(i as int) =~= self@);
        r
    }
}

/// The views of pairs.
pub open spec fn pair_views(s: Seq<(GoalNodeId, SubtreeHash)>) -> Seq<(Seq<char>, Seq<char>)> {
    s.map_values(|p: (GoalNodeId, SubtreeHash)| (p.0@, p.1@))
}

/// A copy of the pairs.
pub fn clone_pairs(pairs: &Vec<(GoalNodeId, SubtreeHash)>) -> (r: Vec<(GoalNodeId, SubtreeHash)>)
    ensures
        r@ == pairs@,
{
    let mut r: Vec<(GoalNodeId, SubtreeHash)> = Vec::new();
    let mut i: usize = 0;
    while i < pairs.len()
        invariant
            i <= pairs@.len(),
            r@ == pairs@.take(i as int),
        decreases pairs@.len() - i,
    {
        r.push((pairs[i].0.clone(), pairs[i].1.clone()));
        assert(r@ =~= pairs@.take(i + 1));
        i += 1;
    }
    assert(pairs@.take(i as int) =~= pairs@);
    r
}

proof fn lemma_contains_push<A>(s: Seq<A>, x: A, y: A)
    ensures
        s.push(x).contains(y) <==> s.contains(y) || x == y,
{
    assert(s.push(x)[s.len() as int] == x);
    if s.contains(y) {
        let i = choose|i: int| 0 <= i < s.len() && s[i] == y;
        assert(s.push(x)[i] == y);
    }
    if s.push(x).contains(y) {
        let i = choose|i: int| 0 <= i < s.len() + 1 && s.push(x)[i] == y;
        if i < s.len() {
            assert(s[i] == y);
        }
    }
}

/// The count for a closure is the number of signals with its node and its hash; it
/// is above zero if and only if there is one.
pub proof fn law_count_is_of_equal_signals(
    jobs: Seq<ClosureSignalView>,
    node_id: Seq<char>,
    subtree_hash: Seq<char>,
)
    ensures
        count_of(jobs, (node_id, subtree_hash)) == jobs.filter(
            |s: ClosureSignalView| s.node_id == node_id && s.subtree_hash == subtree_hash,
        ).len(),
        count_of(jobs, (node_id, subtree_hash)) > 0 <==> exists|i: int|
            0 <= i < jobs.len() && (#[trigger] jobs[i]).node_id == node_id && jobs[i].subtree_hash
                == subtree_hash,
    decreases jobs.len(),
{
    reveal(Seq::filter);
    if jobs.len() > 0 {
        let init = jobs.drop_last();
        law_count_is_of_equal_signals(init, node_id, subtree_hash);
        let key = (node_id, subtree_hash);
        if count_of(init, key) > 0 {
            let i = choose|i: int|
                0 <= i < init.len() && (#[trigger] init[i]).node_id == node_id
                    && init[i].subtree_hash == subtree_hash;
            assert(jobs[i] == init[i]);
        } else if jobs.last().key() == key {
            assert(jobs[jobs.len() - 1].node_id == node_id);
        } else {
            assert forall|i: int| 0 <= i < jobs.len() implies !((
            #[trigger] jobs[i]).node_id == node_id && jobs[i].subtree_hash == subtree_hash) by {
                if i < init.len() {
                    assert(init[i] == jobs[i]);
                }
            }
        }
    }
}

/// A recording queue keeps every signal it takes, behind those before it; one that
/// drops signals stays as it is.
pub proof fn law_recorded_signals_are_kept_in_order(
    before: RecordingInductionQueue,
    signal: ClosureSignalView,
    after: RecordingInductionQueue,
    dropping: NoopInductionQueue,
    dropped: NoopInductionQueue,
)
    requires
        RecordingInductionQueue::took(before, signal, after),
        NoopInductionQueue::took(dropping, signal, dropped),
    ensures
        after@.len() == before@.len() + 1,
        after@.last() == signal,
        after@.drop_last() == before@,
        dropped == dropping,
{
    assert(after@.drop_last() =~= before@);
}

} // verus!
