//! What holds after any run of goal store operations.

use vstd::prelude::*;

use crate::goal_model::closure::{ClosureSignalView, RecordingInductionQueue};
use crate::goal_model::event_log::GoalEventLog;
use crate::goal_model::model::{GoalEventView, Resolution, RevisionView};
use crate::goal_model::store;
use crate::goal_model::store::{EventLogGoalStore, GoalStore};
use crate::types::IntentView;

verus! {

/// One operation on a session, as it turned out.
pub enum Operation {
    /// A node was created.
    Create {
        session: Seq<char>,
        id: Seq<char>,
        parent: Option<Seq<char>>,
        hypothesis: Seq<char>,
        intent: IntentView,
    },
    /// A node was revised.
    Revise { session: Seq<char>, id: Seq<char>, revision: RevisionView },
    /// A node was closed.
    Close { session: Seq<char>, id: Seq<char>, resolution: Resolution },
    /// A closing failed once the resolution was recorded.
    CutShort { session: Seq<char>, id: Seq<char>, resolution: Resolution },
    /// An operation failed and changed nothing.
    Fail { session: Seq<char> },
}

impl Operation {
    /// The session it works on.
    pub open spec fn session(self) -> Seq<char> {
        match self {
            Operation::Create { session, .. } => session,
            Operation::Revise { session, .. } => session,
            Operation::Close { session, .. } => session,
            Operation::CutShort { session, .. } => session,
            Operation::Fail { session } => session,
        }
    }
}

/// Whether an operation led from one store to the other.
pub open spec fn performed<S: GoalStore>(before: S, operation: Operation, after: S) -> bool {
    let session = operation.session();
    let events = before.events(session);
    &&& forall|s: Seq<char>| s != session ==> #[trigger] after.events(s) == before.events(s)
    &&& match operation {
        Operation::Create { id, parent, hypothesis, intent, .. } => {
            &&& S::silent(before, after)
            &&& after.events(session) == events.push(
                store::creation(id, parent, hypothesis, intent),
            )
        },
        Operation::Revise { id, revision, .. } => {
            &&& S::silent(before, after)
            &&& after.events(session) == events.push(GoalEventView::Revised { id, revision })
        },
        Operation::Close { id, resolution, .. } => {
            let effect = store::close_effect(events, id, resolution);
            &&& after.events(session) == events + effect.appended
            &&& effect.fires ==> S::signalled(
                before,
                ClosureSignalView { session, node_id: id, subtree_hash: effect.hash->0 },
                after,
            )
            &&& !effect.fires ==> S::silent(before, after)
        },
        Operation::CutShort { id, resolution, .. } => {
            &&& S::silent(before, after)
            &&& after.events(session) == store::with_resolution(events, id, resolution)
        },
        Operation::Fail { .. } => {
            &&& S::silent(before, after)
            &&& after.events(session) == events
        },
    }
}

/// Whether the operations led through the stores, one after the other.
pub open spec fn ran<S: GoalStore>(stores: Seq<S>, operations: Seq<Operation>) -> bool {
    &&& stores.len() == operations.len() + 1
    &&& forall|i: int|
        0 <= i < operations.len() ==> performed(
            stores[i],
            #[trigger] operations[i],
            stores[i + 1],
        )
}

/// Whether the operation found the node's subtree closed under the hash.
pub open spec fn found_closed<S: GoalStore>(
    before: S,
    operation: Operation,
    key: ClosureSignalView,
) -> bool {
    operation matches Operation::Close { session, id, resolution } && {
        &&& session == key.session
        &&& id == key.node_id
        &&& store::close_effect(before.events(session), id, resolution).hash == Some(
            key.subtree_hash,
        )
    }
}

/// Whether some operation found the node's subtree closed under the hash.
pub open spec fn ever_closed<S: GoalStore>(
    stores: Seq<S>,
    operations: Seq<Operation>,
    key: ClosureSignalView,
) -> bool {
    exists|i: int|
        0 <= i < operations.len() && found_closed(stores[i], #[trigger] operations[i], key)
}

/// How often the closure is recorded.
pub open spec fn closures(events: Seq<GoalEventView>, key: ClosureSignalView) -> nat {
    events.to_multiset().count(
        GoalEventView::Closed { id: key.node_id, subtree_hash: key.subtree_hash },
    )
}

proof fn lemma_count_push<A>(s: Seq<A>, a: A, x: A)
    ensures
        s.push(a).to_multiset().count(x) == s.to_multiset().count(x) + if a == x {
            1nat
        } else {
            0nat
        },
        s.to_multiset().count(x) > 0 <==> s.contains(x),
{
    broadcast use vstd::seq_lib::group_to_multiset_ensures;

    s.to_multiset_ensures();
}

proof fn lemma_close_counts(
    events: Seq<GoalEventView>,
    id: Seq<char>,
    resolution: Resolution,
    key: ClosureSignalView,
)
    ensures
        ({
            let effect = store::close_effect(events, id, resolution);
            let after = events + effect.appended;
            let found = id == key.node_id && effect.hash == Some(key.subtree_hash);
            &&& !found ==> closures(after, key) == closures(events, key)
            &&& found && effect.fires ==> closures(events, key) == 0 && closures(after, key) == 1
            &&& found && !effect.fires ==> closures(events, key) > 0 && closures(after, key)
                == closures(events, key)
        }),
{
    let effect = store::close_effect(events, id, resolution);
    let after = events + effect.appended;
    let resolved = store::with_resolution(events, id, resolution);
    let resolution_event = GoalEventView::Resolved { id, resolution };
    let x = GoalEventView::Closed { id: key.node_id, subtree_hash: key.subtree_hash };
    lemma_count_push(events, resolution_event, x);
    if effect.fires {
        let closing = GoalEventView::Closed { id, subtree_hash: effect.hash->0 };
        assert(after =~= resolved.push(closing));
        lemma_count_push(resolved, closing, x);
    } else {
        assert(after =~= resolved);
        lemma_count_push(resolved, resolution_event, x);
    }
}

proof fn lemma_ever_closed_step<S: GoalStore>(
    stores: Seq<S>,
    operations: Seq<Operation>,
    key: ClosureSignalView,
)
    requires
        stores.len() == operations.len() + 1,
        operations.len() > 0,
    ensures
        ever_closed(stores, operations, key) <==> {
            ||| ever_closed(stores.drop_last(), operations.drop_last(), key)
            ||| found_closed(stores[operations.len() - 1], operations.last(), key)
        },
{
    let (s, o) = (stores.drop_last(), operations.drop_last());
    if ever_closed(s, o, key) {
        let i = choose|i: int| 0 <= i < o.len() && found_closed(s[i], #[trigger] o[i], key);
        assert(found_closed(stores[i], operations[i], key));
    }
    if ever_closed(stores, operations, key) {
        let i = choose|i: int|
            0 <= i < operations.len() && found_closed(stores[i], #[trigger] operations[i], key);
        if i < o.len() {
            assert(found_closed(s[i], o[i], key));
        }
    }
}

proof fn lemma_operation_counts<L: GoalEventLog>(
    before: EventLogGoalStore<L, RecordingInductionQueue>,
    operation: Operation,
    after: EventLogGoalStore<L, RecordingInductionQueue>,
    key: ClosureSignalView,
)
    requires
        performed(before, operation, after),
    ensures
        ({
            let (was, now) = (
                closures(before.events(key.session), key),
                closures(after.events(key.session), key),
            );
            let (had, got) = (
                before.queue()@.to_multiset().count(key),
                after.queue()@.to_multiset().count(key),
            );
            if found_closed(before, operation, key) && was == 0 {
                now == 1 && got == had + 1
            } else {
                now == was && got == had
            }
        }),
{
    let session = operation.session();
    let events = before.events(session);
    let x = GoalEventView::Closed { id: key.node_id, subtree_hash: key.subtree_hash };
    match operation {
        Operation::Create { id, parent, hypothesis, intent, .. } => {
            lemma_count_push(events, store::creation(id, parent, hypothesis, intent), x);
        },
        Operation::Revise { id, revision, .. } => {
            lemma_count_push(events, GoalEventView::Revised { id, revision }, x);
        },
        Operation::Close { id, resolution, .. } => {
            let effect = store::close_effect(events, id, resolution);
            lemma_close_counts(events, id, resolution, key);
            if effect.fires {
                let signal = ClosureSignalView {
                    session,
                    node_id: id,
                    subtree_hash: effect.hash->0,
                };
                lemma_count_push(before.queue()@, signal, key);
            }
        },
        Operation::CutShort { id, resolution, .. } => {
            lemma_count_push(events, GoalEventView::Resolved { id, resolution }, x);
        },
        Operation::Fail { .. } => {},
    }
}

/// After any run of creations, revisions and closings, over any sessions and
/// with any failures between, a node's subtree that some closing found closed
/// under a hash has exactly one closure recorded and exactly one signal sent for
/// it, and whatever none found closed has neither.
pub proof fn law_one_closure_and_one_signal<L: GoalEventLog>(
    stores: Seq<EventLogGoalStore<L, RecordingInductionQueue>>,
    operations: Seq<Operation>,
    key: ClosureSignalView,
)
    requires
        ran(stores, operations),
        stores[0].events(key.session) == Seq::<GoalEventView>::empty(),
        stores[0].queue()@ == Seq::<ClosureSignalView>::empty(),
    ensures
        ({
            let expected = if ever_closed(stores, operations, key) {
                1nat
            } else {
                0nat
            };
            &&& closures(stores.last().events(key.session), key) == expected
            &&& stores.last().queue()@.to_multiset().count(key) == expected
        }),
    decreases operations.len(),
{
    let n = operations.len() as int;
    if n == 0 {
        let x = GoalEventView::Closed { id: key.node_id, subtree_hash: key.subtree_hash };
        lemma_count_push(stores[0].events(key.session), x, x);
        lemma_count_push(stores[0].queue()@, key, key);
    } else {
        let (s, o) = (stores.drop_last(), operations.drop_last());
        assert forall|i: int| 0 <= i < o.len() implies performed(
            s[i],
            #[trigger] o[i],
            s[i + 1],
        ) by {
            assert(o[i] == operations[i]);
        }
        law_one_closure_and_one_signal(s, o, key);
        lemma_ever_closed_step(stores, operations, key);
        lemma_operation_counts(stores[n - 1], operations[n - 1], stores[n], key);
    }
}

} // verus!
