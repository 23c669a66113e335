//! What holds of every sequence of goal store operations.

use vstd::prelude::*;

use crate::goal_model::closure::{ClosureSignalView, InductionQueue};
use crate::goal_model::event_log::{GoalEventLog, InMemoryGoalEventLog};
use crate::goal_model::fold;
use crate::goal_model::fold_laws;
use crate::goal_model::model::{GoalEventView, GoalNodeView, Resolution};
use crate::goal_model::store;
use crate::goal_model::store::{EventLogGoalStore, GoalStore};
use crate::goal_model::subtree_hash;
use crate::goal_model::tree::GoalTreeView;

verus! {

proof fn lemma_same_contract_closed(
    a: Map<Seq<char>, GoalNodeView>,
    b: Map<Seq<char>, GoalNodeView>,
    id: Seq<char>,
    depth: nat,
)
    requires
        subtree_hash::same_contracts(a, b),
    ensures
        store::closed_within(a, id, depth) == store::closed_within(b, id, depth),
    decreases depth, 0nat,
{
    if a.dom().contains(id) && !a[id].is_open() && depth > 0 {
        lemma_same_contract_all_closed(a, b, a[id].children, (depth - 1) as nat);
    }
}

proof fn lemma_same_contract_all_closed(
    a: Map<Seq<char>, GoalNodeView>,
    b: Map<Seq<char>, GoalNodeView>,
    ids: Seq<Seq<char>>,
    depth: nat,
)
    requires
        subtree_hash::same_contracts(a, b),
    ensures
        store::all_closed_within(a, ids, depth) == store::all_closed_within(b, ids, depth),
    decreases depth, ids.len() + 1,
{
    if ids.len() > 0 {
        lemma_same_contract_closed(a, b, ids[0], depth);
        lemma_same_contract_all_closed(a, b, ids.drop_first(), depth);
    }
}

proof fn lemma_same_contract_fully_closed(
    a: Map<Seq<char>, GoalNodeView>,
    b: Map<Seq<char>, GoalNodeView>,
    id: Seq<char>,
)
    requires
        subtree_hash::same_contracts(a, b),
        store::closure_decided(a, id),
    ensures
        store::closure_decided(b, id),
        store::fully_closed(a, id) == store::fully_closed(b, id),
{
    let d = store::closure_depth(a, id);
    lemma_same_contract_closed(a, b, id, d);
    assert(store::closed_within(b, id, d) is Some);
    store::lemma_fully_closed(b, id, d);
}

proof fn lemma_resolve_again(tree: GoalTreeView, id: Seq<char>, resolution: Resolution)
    requires
        tree.has(id),
        tree.nodes[id].resolution == resolution,
        fold::grounded(tree.nodes, Some(id)),
    ensures
        ({
            let event = GoalEventView::Resolved { id, resolution };
            &&& fold::applicable(tree, event)
            &&& subtree_hash::same_contracts(tree.nodes, fold::applied(tree, event).nodes)
        }),
{
    let event = GoalEventView::Resolved { id, resolution };
    let after = fold::changed(tree, event);
    assert(after.nodes =~= tree.nodes);
    assert(fold::applied(tree, event).nodes.dom() =~= tree.nodes.dom());
}

/// Closing again is idempotent: closing a closed subtree once more under the
/// same resolution records the resolution, finds the same hash, appends no
/// second closure and sends no second signal.
pub proof fn law_closing_again_is_idempotent(
    events: Seq<GoalEventView>,
    id: Seq<char>,
    resolution: Resolution,
)
    requires
        store::tree_of(events).has(id),
        store::sound(events),
        store::closable(events, id, resolution),
        store::close_effect(events, id, resolution).hash is Some,
    ensures
        ({
            let first = store::close_effect(events, id, resolution);
            let after = events + first.appended;
            let second = store::close_effect(after, id, resolution);
            &&& store::sound(after)
            &&& store::closable(after, id, resolution)
            &&& second.hash == first.hash
            &&& second.appended == seq![GoalEventView::Resolved { id, resolution }]
            &&& !second.fires
        }),
{
    let resolution_event = GoalEventView::Resolved { id, resolution };
    let t0 = store::tree_of(events);
    let resolved = store::with_resolution(events, id, resolution);
    let t1 = store::tree_of(resolved);
    assert(resolved.drop_last() =~= events);
    assert(t1 == fold::applied(t0, resolution_event));
    assert(fold::applicable(t0, resolution_event));
    let first = store::close_effect(events, id, resolution);
    let hash = first.hash->0;
    let closing = GoalEventView::Closed { id, subtree_hash: hash };
    let after = events + first.appended;
    store::lemma_closed_is_hashable(t1.nodes, id);
    assert(t1.nodes[id].resolution == resolution);

    // The way up from the node still ends.
    let mid = fold::changed(t0, resolution_event);
    let n = fold::chain_length(mid.nodes, Some(id));
    assert(fold::chain_within(mid.nodes, Some(id), n) is Some);
    assert(fold_laws::same_parents(mid.nodes, t1.nodes)) by {
        assert(mid.nodes.dom() =~= t1.nodes.dom());
    }
    fold_laws::lemma_same_parents_chain(mid.nodes, t1.nodes, Some(id), n);
    assert(fold::chain_within(t1.nodes, Some(id), n) is Some);

    let t2 = store::tree_of(after);
    if first.fires {
        assert(after =~= resolved.push(closing));
        assert(after.drop_last() =~= resolved);
        assert(t2 == fold::applied(t1, closing));
        assert(fold::applicable(t1, closing));
        assert(after[after.len() - 1] == closing);
    } else {
        assert(after =~= resolved);
    }
    assert(after.contains(closing));
    assert(store::sound(after));
    assert(fold_laws::same_parents(t1.nodes, t2.nodes)) by {
        assert(t1.nodes.dom() =~= t2.nodes.dom());
    }
    fold_laws::lemma_same_parents_chain(t1.nodes, t2.nodes, Some(id), n);
    assert(fold::chain_within(t2.nodes, Some(id), n) is Some);
    assert(subtree_hash::same_contracts(t1.nodes, t2.nodes)) by {
        assert(t1.nodes.dom() =~= t2.nodes.dom());
    }
    lemma_resolve_again(t2, id, resolution);

    let again = store::with_resolution(after, id, resolution);
    let t3 = store::tree_of(again);
    assert(again.drop_last() =~= after);
    assert(t3 == fold::applied(t2, resolution_event));
    assert(store::sound(again));
    assert(subtree_hash::same_contracts(t1.nodes, t3.nodes)) by {
        assert forall|k: Seq<char>| #[trigger] t1.nodes.dom().contains(
            k,
        ) implies subtree_hash::same_contract(t1.nodes[k], t3.nodes[k]) by {
            assert(t2.nodes.dom().contains(k));
        }
    }
    lemma_same_contract_fully_closed(t1.nodes, t3.nodes, id);
    subtree_hash::law_hash_covers_contract_only(t1.nodes, t1.nodes[id], t3.nodes, t3.nodes[id]);
    let j = choose|j: int| 0 <= j < after.len() && after[j] == closing;
    assert(again[j] == closing);
    assert(again.contains(closing));
}

/// Whether no closure is recorded twice.
pub open spec fn closures_distinct(events: Seq<GoalEventView>) -> bool {
    forall|i: int, j: int|
        0 <= i < j < events.len() && (#[trigger] events[i]) is Closed ==> events[i]
            != #[trigger] events[j]
}

/// A node and a hash are closed, and signalled, at most once: closing keeps
/// every recorded closure unique, and it sends a signal exactly when it records
/// one.
pub proof fn law_each_closure_is_recorded_once(
    events: Seq<GoalEventView>,
    id: Seq<char>,
    resolution: Resolution,
)
    requires
        closures_distinct(events),
    ensures
        ({
            let effect = store::close_effect(events, id, resolution);
            &&& closures_distinct(events + effect.appended)
            &&& effect.fires <==> exists|i: int|
                0 <= i < effect.appended.len() && (#[trigger] effect.appended[i]) is Closed
            &&& effect.fires ==> effect.hash is Some && !events.contains(
                GoalEventView::Closed { id, subtree_hash: effect.hash->0 },
            ) && (events + effect.appended).contains(
                GoalEventView::Closed { id, subtree_hash: effect.hash->0 },
            )
        }),
{
    let effect = store::close_effect(events, id, resolution);
    let resolved = store::with_resolution(events, id, resolution);
    let all = events + effect.appended;
    assert(all.len() >= resolved.len());
    assert(forall|i: int| 0 <= i < resolved.len() ==> resolved[i] == all[i]);
    assert(all[events.len() as int] is Resolved);
    assert forall|i: int, j: int|
        0 <= i < j < all.len() && (#[trigger] all[i]) is Closed implies all[i]
        != #[trigger] all[j] by {
        if j < events.len() {
            assert(all[i] == events[i]);
            assert(all[j] == events[j]);
        } else if j == events.len() {
        } else {
            assert(effect.fires);
            assert(i < events.len());
            assert(resolved[i] == all[i]);
            assert(resolved.contains(resolved[i]));
        }
    }
    if effect.fires {
        assert(effect.appended[1] is Closed);
        assert(all[events.len() as int + 1] == effect.appended[1]);
        let closing = GoalEventView::Closed { id, subtree_hash: effect.hash->0 };
        if events.contains(closing) {
            let i = choose|i: int| 0 <= i < events.len() && events[i] == closing;
            assert(resolved[i] == closing);
        }
    }
}

/// A log as the store keeps it while no revision miscounts children: it can be
/// folded, its tree is finite and well rooted, a parent lists a child exactly
/// when the child names it, once, and every stored hash is the one that the tree
/// gives.
pub open spec fn tended(events: Seq<GoalEventView>) -> bool {
    &&& store::sound(events)
    &&& store::tree_of(events).nodes.dom().finite()
    &&& fold_laws::well_rooted(store::tree_of(events).nodes)
    &&& fold_laws::mirrored(store::tree_of(events).nodes)
    &&& fold_laws::hashes_current(store::tree_of(events).nodes)
}

/// An empty log is tended.
pub proof fn law_empty_log_is_tended()
    ensures
        tended(Seq::<GoalEventView>::empty()),
{
}

proof fn lemma_tended_push(events: Seq<GoalEventView>, event: GoalEventView)
    requires
        tended(events),
        fold_laws::issued(store::tree_of(events), event),
        fold_laws::lists_all(store::tree_of(events), event),
    ensures
        tended(events.push(event)),
{
    let tree = store::tree_of(events);
    assert(events.push(event).drop_last() =~= events);
    fold_laws::law_issued_events_keep_well_rooted(tree, event);
    fold_laws::law_issued_events_keep_mirrored(tree, event);
    fold_laws::law_nodes_are_never_removed(tree, event);
    if event is Closed && tree.has(event->Closed_id) {
        fold_laws::law_linked_tree_is_hashable(tree.nodes, event->Closed_id);
    }
    fold_laws::law_stored_hashes_stay_current(tree, event);
}

/// Creating a node under a fresh id keeps a log tended.
pub proof fn law_creation_keeps_tended(
    events: Seq<GoalEventView>,
    id: Seq<char>,
    parent: Option<Seq<char>>,
    hypothesis: Seq<char>,
    intent: crate::types::IntentView,
)
    requires
        tended(events),
        !store::tree_of(events).has(id),
        store::creation_refused(store::tree_of(events), parent, hypothesis) is None,
    ensures
        tended(events.push(store::creation(id, parent, hypothesis, intent))),
{
    lemma_tended_push(events, store::creation(id, parent, hypothesis, intent));
}

/// A revision keeps a log tended unless it gives a child list that is not the
/// node's own.
pub proof fn law_revision_keeps_tended(
    events: Seq<GoalEventView>,
    id: Seq<char>,
    revision: crate::goal_model::model::RevisionView,
)
    requires
        tended(events),
        fold_laws::lists_all(store::tree_of(events), GoalEventView::Revised { id, revision }),
    ensures
        tended(events.push(GoalEventView::Revised { id, revision })),
{
    lemma_tended_push(events, GoalEventView::Revised { id, revision });
}

proof fn lemma_linked_decided(nodes: Map<Seq<char>, GoalNodeView>, id: Seq<char>, depth: nat)
    requires
        nodes.dom().finite(),
        fold_laws::well_rooted(nodes),
        fold_laws::linked(nodes),
        nodes.dom().contains(id),
        depth == nodes.dom().len() - fold::chain_of(nodes, Some(id)).len() + 1,
    ensures
        store::closed_within(nodes, id, depth) is Some,
    decreases depth,
{
    fold_laws::lemma_chain_bounded(nodes, id);
    let n = fold::chain_length(nodes, Some(id));
    assert(fold::chain_within(nodes, Some(id), n) is Some);
    let ids = nodes[id].children;
    assert forall|i: int| 0 <= i < ids.len() implies store::closed_within(
        nodes,
        #[trigger] ids[i],
        (depth - 1) as nat,
    ) is Some by {
        let c = nodes[id].children[i];
        assert(nodes[c].parent == Some(id));
        assert(fold::chain_within(nodes, Some(c), n + 1) == Some(
            seq![c] + fold::chain_within(nodes, Some(id), n)->0,
        ));
        fold::lemma_chain_of(nodes, Some(c), n + 1);
        fold_laws::lemma_chain_bounded(nodes, c);
        lemma_linked_decided(nodes, c, (depth - 1) as nat);
    }
    lemma_all_decided(nodes, ids, (depth - 1) as nat);
}

/// Where each of some children has an answer, all of them together have one.
pub proof fn lemma_all_decided(
    nodes: Map<Seq<char>, GoalNodeView>,
    ids: Seq<Seq<char>>,
    depth: nat,
)
    requires
        forall|i: int|
            0 <= i < ids.len() ==> store::closed_within(nodes, #[trigger] ids[i], depth) is Some,
    ensures
        store::all_closed_within(nodes, ids, depth) is Some,
    decreases ids.len(),
{
    if ids.len() > 0 {
        assert forall|i: int| 0 <= i < ids.drop_first().len() implies store::closed_within(
            nodes,
            #[trigger] ids.drop_first()[i],
            depth,
        ) is Some by {
            assert(ids.drop_first()[i] == ids[i + 1]);
        }
        lemma_all_decided(nodes, ids.drop_first(), depth);
        assert(ids[0] == ids.first());
    }
}

/// Any node of a tended log can be closed, and closing keeps the log tended.
pub proof fn law_closing_keeps_tended(
    events: Seq<GoalEventView>,
    id: Seq<char>,
    resolution: Resolution,
)
    requires
        tended(events),
        store::tree_of(events).has(id),
    ensures
        store::closable(events, id, resolution),
        tended(events + store::close_effect(events, id, resolution).appended),
{
    let effect = store::close_effect(events, id, resolution);
    let resolved = store::with_resolution(events, id, resolution);
    lemma_tended_push(events, GoalEventView::Resolved { id, resolution });
    let tree = store::tree_of(resolved);
    assert(resolved.drop_last() =~= events);
    fold_laws::law_nodes_are_never_removed(
        store::tree_of(events),
        GoalEventView::Resolved { id, resolution },
    );
    assert(tree.has(id));
    fold_laws::lemma_chain_bounded(tree.nodes, id);
    let depth = (tree.nodes.dom().len() - fold::chain_of(tree.nodes, Some(id)).len() + 1) as nat;
    lemma_linked_decided(tree.nodes, id, depth);
    assert(store::closure_decided(tree.nodes, id));
    if effect.fires {
        let closing = effect.appended[1];
        lemma_tended_push(resolved, closing);
        assert(events + effect.appended =~= resolved.push(closing));
    } else {
        assert(events + effect.appended =~= resolved);
    }
}

/// A log in memory always answers, and a goal store answers whenever its log does,
/// with the log's own events. A signal is handed to the queue as it is, and a store
/// that is silent hands none over.
pub proof fn law_goal_store_answers_with_its_log<L: GoalEventLog, Q: InductionQueue>(
    log: InMemoryGoalEventLog,
    before: EventLogGoalStore<L, Q>,
    after: EventLogGoalStore<L, Q>,
    signal: ClosureSignalView,
    session: Seq<char>,
)
    ensures
        log.available(),
        before.available() <==> before.event_log().available(),
        before.events(session) == before.event_log().events(session),
        EventLogGoalStore::<L, Q>::signalled(before, signal, after) <==> Q::took(
            before.queue(),
            signal,
            after.queue(),
        ),
        EventLogGoalStore::<L, Q>::silent(before, after) <==> after.queue() == before.queue(),
{
}

} // verus!
