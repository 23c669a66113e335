//! The append-only goal event log, one sequence of events per session.

use vstd::prelude::*;
use vstd::string::*;

use crate::goal_model::intent;
use crate::goal_model::intent::{IntentDerivationError, IntentField};
use crate::goal_model::model::{GoalEvent, GoalEventView};
use crate::text;
use crate::types::{GoalNodeId, SessionId};
use crate::views;

verus! {

/// Why an operation of the goal store was refused.
#[derive(Debug, PartialEq, Eq)]
pub enum GoalStoreError {
    /// The named parent is not in the tree.
    ParentNotFound(GoalNodeId),
    /// A node needs a hypothesis that is not blank.
    EmptyHypothesis,
    /// The named node is not in the tree.
    NodeNotFound(GoalNodeId),
    /// Closing needs a resolution other than open.
    OpenResolution,
    /// The log moved on since its head was read.
    Conflict {
        /// The head the write was based on.
        expected: u64,
        /// The head the log is at.
        actual: u64,
    },
    /// The intent signature could not be derived.
    IntentDerivation(IntentDerivationError),
    /// The log backend failed.
    Log(String),
}

/// The content of a refusal.
#[verifier::ext_equal]
pub enum GoalStoreErrorView {
    ParentNotFound(Seq<char>),
    EmptyHypothesis,
    NodeNotFound(Seq<char>),
    OpenResolution,
    Conflict { expected: u64, actual: u64 },
    IntentDerivation(Seq<IntentField>),
    Log(Seq<char>),
}

impl View for GoalStoreError {
    type V = GoalStoreErrorView;

    open spec fn view(&self) -> GoalStoreErrorView {
        match *self {
            GoalStoreError::ParentNotFound(id) => GoalStoreErrorView::ParentNotFound(id@),
            GoalStoreError::EmptyHypothesis => GoalStoreErrorView::EmptyHypothesis,
            GoalStoreError::NodeNotFound(id) => GoalStoreErrorView::NodeNotFound(id@),
            GoalStoreError::OpenResolution => GoalStoreErrorView::OpenResolution,
            GoalStoreError::Conflict { expected, actual } => GoalStoreErrorView::Conflict {
                expected,
                actual,
            },
            GoalStoreError::IntentDerivation(e) => GoalStoreErrorView::IntentDerivation(e@),
            GoalStoreError::Log(reason) => GoalStoreErrorView::Log(reason@),
        }
    }
}

impl From<IntentDerivationError> for GoalStoreError {
    fn from(value: IntentDerivationError) -> (r: Self) {
        GoalStoreError::IntentDerivation(value)
    }
}

impl vstd::std_specs::convert::FromSpecImpl<IntentDerivationError> for GoalStoreError {
    open spec fn obeys_from_spec() -> bool {
        true
    }

    open spec fn from_spec(value: IntentDerivationError) -> Self {
        GoalStoreError::IntentDerivation(value)
    }
}

impl GoalStoreErrorView {
    /// The text that reports the refusal.
    pub open spec fn message(self) -> Seq<char> {
        match self {
            GoalStoreErrorView::ParentNotFound(id) => "parent node not found: "@ + id,
            GoalStoreErrorView::EmptyHypothesis => {
                "hypothesis is required and must be non-empty"@
            },
            GoalStoreErrorView::NodeNotFound(id) => "goal node not found: "@ + id,
            GoalStoreErrorView::OpenResolution => "closure requires a non-Open resolution"@,
            GoalStoreErrorView::Conflict { expected, actual } => {
                "goal event log advanced concurrently (expected head "@ + text::decimal(
                    expected as nat,
                ) + ", found "@ + text::decimal(actual as nat) + ")"@
            },
            GoalStoreErrorView::IntentDerivation(fields) => {
                "cannot derive intent signature: "@ + intent::derivation_message(fields)
            },
            GoalStoreErrorView::Log(reason) => "goal event log backend error: "@ + reason,
        }
    }
}

impl GoalStoreError {
    /// The message that reports the refusal.
    pub fn to_string(&self) -> (r: String)
        ensures
            r@ == self@.message(),
    {
        match self {
            GoalStoreError::ParentNotFound(id) => {
                let mut out = "parent node not found: ".to_owned();
                out.append(id.0.as_str());
                out
            },
            GoalStoreError::EmptyHypothesis => {
                "hypothesis is required and must be non-empty".to_owned()
            },
            GoalStoreError::NodeNotFound(id) => {
                let mut out = "goal node not found: ".to_owned();
                out.append(id.0.as_str());
                out
            },
            GoalStoreError::OpenResolution => "closure requires a non-Open resolution".to_owned(),
            GoalStoreError::Conflict { expected, actual } => {
                let mut out = "goal event log advanced concurrently (expected head ".to_owned();
                text::push_decimal(&mut out, *expected);
                out.append(", found ");
                text::push_decimal(&mut out, *actual);
                out.append(")");
                out
            },
            GoalStoreError::IntentDerivation(e) => {
                let mut out = "cannot derive intent signature: ".to_owned();
                out.append(e.to_string().as_str());
                out
            },
            GoalStoreError::Log(reason) => {
                let mut out = "goal event log backend error: ".to_owned();
                out.append(reason.as_str());
                out
            },
        }
    }
}

/// An event with its position in the session's log.
pub type SequencedGoalEvent = (u64, GoalEvent);

/// Whether `assigned` are `events` at the positions right after `head`, without
/// a gap.
pub open spec fn sequenced(
    assigned: Seq<SequencedGoalEvent>,
    head: int,
    events: Seq<GoalEventView>,
) -> bool {
    &&& assigned.len() == events.len()
    &&& forall|i: int|
        0 <= i < assigned.len() ==> (#[trigger] assigned[i]).0 == head + 1 + i && assigned[i].1@
            == events[i]
}

/// An append-only log of goal events, one sequence per session.
///
/// An implementation names the events that it holds and says whether it answers.
pub trait GoalEventLog: Sized {
    /// The events of a session, in sequence order.
    spec fn events(&self, session: Seq<char>) -> Seq<GoalEventView>;

    /// Whether the backend answers. A backend that does not may refuse any call.
    spec fn available(&self) -> bool;

    /// Appends events at the head of the session's log and returns them with
    /// their positions. Where a head is expected and the log is not at it,
    /// nothing is appended.
    fn append(
        &mut self,
        session: &SessionId,
        events: Vec<GoalEvent>,
        expected_head_sequence: Option<u64>,
    ) -> (r: Result<Vec<SequencedGoalEvent>, GoalStoreError>)
        ensures
            final(self).available() == old(self).available(),
            forall|s: Seq<char>|
                s != session@ ==> #[trigger] final(self).events(s) == old(self).events(s),
            r is Ok ==> final(self).events(session@) == old(self).events(session@)
                + views::of_seq(events@),
            r matches Ok(assigned) ==> sequenced(
                assigned@,
                old(self).events(session@).len() as int,
                views::of_seq(events@),
            ),
            r is Err ==> final(self).events(session@) == old(self).events(session@),
            expected_head_sequence is Some && expected_head_sequence->0 != old(self).events(
                session@,
            ).len() ==> r is Err,
            old(self).available() ==> {
                if expected_head_sequence is Some && expected_head_sequence->0 != old(
                    self,
                ).events(session@).len() {
                    r is Err && r->Err_0@ == GoalStoreErrorView::Conflict {
                        expected: expected_head_sequence->0,
                        actual: old(self).events(session@).len() as u64,
                    }
                } else {
                    r is Ok
                }
            },
    ;

    /// The session's events with their positions, in sequence order.
    fn replay(&self, session: &SessionId) -> (r: Result<Vec<SequencedGoalEvent>, GoalStoreError>)
        ensures
            r matches Ok(all) ==> sequenced(all@, 0, self.events(session@)),
            self.available() ==> r is Ok,
    ;

    /// The position of the session's latest event, zero when there is none.
    fn head_sequence(&self, session: &SessionId) -> (r: Result<u64, GoalStoreError>)
        ensures
            r matches Ok(head) ==> head == self.events(session@).len(),
            self.available() ==> r is Ok,
    ;
}

/// A goal event log in memory.
#[derive(Debug)]
pub struct InMemoryGoalEventLog {
    sessions: Vec<(SessionId, Vec<GoalEvent>)>,
}

impl InMemoryGoalEventLog {
    spec fn index_of(self, session: Seq<char>) -> int {
        choose|i: int|
            0 <= i < self.sessions@.len() && (#[trigger] self.sessions@[i]).0@ == session
                && forall|j: int| 0 <= j < i ==> (#[trigger] self.sessions@[j]).0@ != session
    }

    spec fn known(self, session: Seq<char>) -> bool {
        exists|i: int| 0 <= i < self.sessions@.len() && (#[trigger] self.sessions@[i]).0@ == session
    }

    /// The events of a session, in sequence order.
    pub closed spec fn log_of(self, session: Seq<char>) -> Seq<GoalEventView> {
        if self.known(session) {
            views::of_seq(self.sessions@[self.index_of(session)].1@)
        } else {
            Seq::empty()
        }
    }

    proof fn lemma_first(self, session: Seq<char>, i: int)
        requires
            0 <= i < self.sessions@.len(),
            self.sessions@[i].0@ == session,
            forall|j: int| 0 <= j < i ==> (#[trigger] self.sessions@[j]).0@ != session,
        ensures
            self.known(session),
            self.index_of(session) == i,
            self.log_of(session) == views::of_seq(self.sessions@[i].1@),
    {
        let k = self.index_of(session);
        assert(0 <= k < self.sessions@.len() && self.sessions@[k].0@ == session);
    }

    fn find(&self, session: &SessionId) -> (r: Option<usize>)
        ensures
            match r {
                Some(i) => i < self.sessions@.len() && self.known(session@) && i == self.index_of(
                    session@,
                ) && self.sessions@[i as int].0@ == session@ && self.log_of(session@)
                    == views::of_seq(self.sessions@[i as int].1@) && (forall|j: int|
                    0 <= j < i ==> (#[trigger] self.sessions@[j]).0@ != session@),
                None => !self.known(session@) && self.log_of(session@) == Seq::<
                    GoalEventView,
                >::empty(),
            },
    {
        let mut i: usize = 0;
        while i < self.sessions.len()
            invariant
                i <= self.sessions@.len(),
                forall|j: int| 0 <= j < i ==> (#[trigger] self.sessions@[j]).0@ != session@,
            decreases self.sessions@.len() - i,
        {
            if self.sessions[i].0.0 == session.0 {
                proof {
                    self.lemma_first(session@, i as int);
                }
                return Some(i);
            }
            i += 1;
        }
        None
    }

    /// A log without events.
    pub fn new() -> (r: Self)
        ensures
            forall|s: Seq<char>| #[trigger] r.events(s) == Seq::<GoalEventView>::empty(),
    {
        InMemoryGoalEventLog { sessions: Vec::new() }
    }
}

impl Default for InMemoryGoalEventLog {
    fn default() -> (r: Self)
        ensures
            forall|s: Seq<char>| #[trigger] r.events(s) == Seq::<GoalEventView>::empty(),
    {
        InMemoryGoalEventLog::new()
    }
}

impl GoalEventLog for InMemoryGoalEventLog {
    open spec fn events(&self, session: Seq<char>) -> Seq<GoalEventView> {
        self.log_of(session)
    }

    open spec fn available(&self) -> bool {
        true
    }

    fn append(
        &mut self,
        session: &SessionId,
        events: Vec<GoalEvent>,
        expected_head_sequence: Option<u64>,
    ) -> (r: Result<Vec<SequencedGoalEvent>, GoalStoreError>) {
        let at: usize = match self.find(session) {
            Some(i) => i,
            None => {
                let ghost before = *self;
                let i: usize = self.sessions.len();
                self.sessions.push((session.clone(), Vec::new()));
                proof {
                    lemma_session_added(before, *self, session@);
                    self.lemma_first(session@, i as int);
                    assert(self.log_of(session@) =~= Seq::<GoalEventView>::empty());
                }
                i
            },
        };
        let ghost start = *self;
        let ghost base = self.log_of(session@);
        let head: u64 = self.sessions[at].1.len() as u64;
        match expected_head_sequence {
            Some(expected) => {
                if expected != head {
                    return Err(GoalStoreError::Conflict { expected, actual: head });
                }
            },
            None => {},
        }
        let ghost new = views::of_seq(events@);
        let mut assigned: Vec<SequencedGoalEvent> = Vec::new();
        let mut i: usize = 0;
        assert(base + new.take(0) =~= base);
        while i < events.len()
            invariant
                i <= events@.len(),
                new == views::of_seq(events@),
                at < self.sessions@.len(),
                self.sessions@.len() == start.sessions@.len(),
                forall|j: int|
                    0 <= j < self.sessions@.len() && j != at ==> (#[trigger] self.sessions@[j])
                        == start.sessions@[j],
                self.sessions@[at as int].0 == start.sessions@[at as int].0,
                views::of_seq(self.sessions@[at as int].1@) =~= base + new.take(i as int),
                sequenced(assigned@, base.len() as int, new.take(i as int)),
            decreases events@.len() - i,
        {
            let ghost before = self.sessions@[at as int].1@;
            self.sessions[at].1.push(events[i].clone());
            let position: u64 = self.sessions[at].1.len() as u64;
            assigned.push((position, events[i].clone()));
            proof {
                assert(views::of_seq(self.sessions@[at as int].1@) =~= views::of_seq(before).push(
                    new[i as int],
                ));
                assert(new.take(i + 1) =~= new.take(i as int).push(new[i as int]));
            }
            i += 1;
        }
        proof {
            assert(new.take(i as int) =~= new);
            lemma_session_changed(start, *self, session@, at as int);
        }
        Ok(assigned)
    }

    fn replay(&self, session: &SessionId) -> (r: Result<
        Vec<SequencedGoalEvent>,
        GoalStoreError,
    >) {
        let mut all: Vec<SequencedGoalEvent> = Vec::new();
        match self.find(session) {
            Some(at) => {
                let ghost log = self.log_of(session@);
                let mut i: usize = 0;
                while i < self.sessions[at].1.len()
                    invariant
                        at < self.sessions@.len(),
                        i <= self.sessions@[at as int].1@.len(),
                        log == views::of_seq(self.sessions@[at as int].1@),
                        sequenced(all@, 0, log.take(i as int)),
                    decreases self.sessions@[at as int].1@.len() - i,
                {
                    let event = self.sessions[at].1[i].clone();
                    assert(event@ == log[i as int]);
                    i += 1;
                    all.push((i as u64, event));
                }
                assert(log.take(i as int) =~= log);
            },
            None => {},
        }
        Ok(all)
    }

    fn head_sequence(&self, session: &SessionId) -> (r: Result<u64, GoalStoreError>) {
        match self.find(session) {
            Some(at) => Ok(self.sessions[at].1.len() as u64),
            None => Ok(0),
        }
    }
}

proof fn lemma_session_added(
    before: InMemoryGoalEventLog,
    after: InMemoryGoalEventLog,
    session: Seq<char>,
)
    requires
        !before.known(session),
        after.sessions@.len() == before.sessions@.len() + 1,
        forall|j: int|
            0 <= j < before.sessions@.len() ==> #[trigger] after.sessions@[j]
                == before.sessions@[j],
        after.sessions@.last().0@ == session,
    ensures
        forall|j: int| 0 <= j < before.sessions@.len() ==> (#[trigger] after.sessions@[j]).0@
            != session,
        forall|s: Seq<char>|
            s != session ==> #[trigger] after.log_of(s) == before.log_of(s),
{
    assert forall|j: int| 0 <= j < before.sessions@.len() implies (#[trigger] after.sessions@[j]).0@
        != session by {
        assert(before.sessions@[j].0@ != session);
    }
    assert forall|s: Seq<char>| s != session implies #[trigger] after.log_of(s) == before.log_of(
        s,
    ) by {
        if before.known(s) {
            lemma_first_exists(before, s);
            let i = before.index_of(s);
            assert forall|j: int| 0 <= j < i implies (#[trigger] after.sessions@[j]).0@ != s by {
                assert(before.sessions@[j].0@ != s);
            }
            after.lemma_first(s, i);
        } else if after.known(s) {
            let i = choose|i: int|
                0 <= i < after.sessions@.len() && (#[trigger] after.sessions@[i]).0@ == s;
            if i < before.sessions@.len() {
                assert(before.sessions@[i].0@ == s);
            }
        }
    }
}

proof fn lemma_first_exists(log: InMemoryGoalEventLog, s: Seq<char>)
    requires
        log.known(s),
    ensures
        0 <= log.index_of(s) < log.sessions@.len(),
        log.sessions@[log.index_of(s)].0@ == s,
        forall|j: int| 0 <= j < log.index_of(s) ==> (#[trigger] log.sessions@[j]).0@ != s,
{
    let i = choose|i: int| 0 <= i < log.sessions@.len() && (#[trigger] log.sessions@[i]).0@ == s;
    lemma_least(log, s, i);
}

proof fn lemma_least(log: InMemoryGoalEventLog, s: Seq<char>, i: int)
    requires
        0 <= i < log.sessions@.len(),
        log.sessions@[i].0@ == s,
    ensures
        exists|k: int|
            0 <= k < log.sessions@.len() && (#[trigger] log.sessions@[k]).0@ == s && forall|j: int|
                0 <= j < k ==> (#[trigger] log.sessions@[j]).0@ != s,
    decreases i,
{
    if exists|j: int| 0 <= j < i && (#[trigger] log.sessions@[j]).0@ == s {
        let j = choose|j: int| 0 <= j < i && (#[trigger] log.sessions@[j]).0@ == s;
        lemma_least(log, s, j);
    }
}

proof fn lemma_session_changed(
    before: InMemoryGoalEventLog,
    after: InMemoryGoalEventLog,
    session: Seq<char>,
    at: int,
)
    requires
        0 <= at < before.sessions@.len(),
        before.sessions@[at].0@ == session,
        forall|j: int| 0 <= j < at ==> (#[trigger] before.sessions@[j]).0@ != session,
        after.sessions@.len() == before.sessions@.len(),
        after.sessions@[at].0 == before.sessions@[at].0,
        forall|j: int|
            0 <= j < before.sessions@.len() && j != at ==> #[trigger] after.sessions@[j]
                == before.sessions@[j],
    ensures
        after.log_of(session) == views::of_seq(after.sessions@[at].1@),
        forall|s: Seq<char>|
            s != session ==> #[trigger] after.log_of(s) == before.log_of(s),
{
    assert forall|j: int| 0 <= j < at implies (#[trigger] after.sessions@[j]).0@ != session by {
        assert(before.sessions@[j].0@ != session);
    }
    after.lemma_first(session, at);
    assert forall|s: Seq<char>| s != session implies #[trigger] after.log_of(s) == before.log_of(
        s,
    ) by {
        if before.known(s) {
            lemma_first_exists(before, s);
            let i = before.index_of(s);
            assert forall|j: int| 0 <= j < i implies (#[trigger] after.sessions@[j]).0@ != s by {
                assert(before.sessions@[j].0@ != s);
            }
            after.lemma_first(s, i);
        } else if after.known(s) {
            let i = choose|i: int|
                0 <= i < after.sessions@.len() && (#[trigger] after.sessions@[i]).0@ == s;
            assert(before.sessions@[i].0@ == s);
        }
    }
}

/// Appended events are numbered without a gap, the first by one more than the head
/// of the log, and kept in order; the last number is the new head.
pub proof fn law_appended_events_are_numbered_on(
    assigned: Seq<SequencedGoalEvent>,
    head: int,
    events: Seq<GoalEventView>,
)
    requires
        sequenced(assigned, head, events),
    ensures
        assigned.len() == events.len(),
        assigned.len() > 0 ==> assigned[0].0 == head + 1 && assigned.last().0 == head
            + events.len(),
        forall|i: int, j: int|
            0 <= i && j == i + 1 && j < assigned.len() ==> (#[trigger] assigned[j]).0 == (
            #[trigger] assigned[i]).0 + 1,
        forall|i: int| 0 <= i < events.len() ==> (#[trigger] assigned[i]).1@ == events[i],
{
}

} // verus!
