//! What closing a goal means, in terms of the nodes below it.

use vstd::prelude::*;

use crate::goal_model::fold;
use crate::goal_model::model::{GoalEventView, GoalNodeView, Resolution};
use crate::goal_model::store;
use crate::goal_model::store_laws;
use crate::goal_model::subtree_hash;

verus! {

/// Whether each node of the path is there and lists the next.
pub open spec fn child_path(nodes: Map<Seq<char>, GoalNodeView>, path: Seq<Seq<char>>) -> bool {
    &&& path.len() > 0
    &&& forall|i: int|
        0 <= i < path.len() - 1 ==> nodes.dom().contains(#[trigger] path[i])
            && nodes[path[i]].children.contains(path[i + 1])
}

/// Whether one id is reached from another through child lists, in any number of
/// steps.
pub open spec fn reaches(
    nodes: Map<Seq<char>, GoalNodeView>,
    from: Seq<char>,
    to: Seq<char>,
) -> bool {
    exists|path: Seq<Seq<char>>| #[trigger]
        child_path(nodes, path) && path[0] == from && path.last() == to
}

/// Whether everything that is reached from a node, itself too, is there and has a
/// resolution other than open.
pub open spec fn all_resolved(nodes: Map<Seq<char>, GoalNodeView>, id: Seq<char>) -> bool {
    forall|k: Seq<char>| #[trigger]
        reaches(nodes, id, k) ==> nodes.dom().contains(k) && nodes[k].resolution
            != Resolution::Open
}

proof fn lemma_member_closed(
    nodes: Map<Seq<char>, GoalNodeView>,
    ids: Seq<Seq<char>>,
    id: Seq<char>,
    depth: nat,
)
    requires
        store::all_closed_within(nodes, ids, depth) == Some(true),
        ids.contains(id),
    ensures
        store::closed_within(nodes, id, depth) == Some(true),
    decreases ids.len(),
{
    if ids[0] != id {
        let i = choose|i: int| 0 <= i < ids.len() && ids[i] == id;
        assert(ids.drop_first()[i - 1] == id);
        lemma_member_closed(nodes, ids.drop_first(), id, depth);
    }
}

proof fn lemma_closed_along(
    nodes: Map<Seq<char>, GoalNodeView>,
    path: Seq<Seq<char>>,
    depth: nat,
)
    requires
        child_path(nodes, path),
        store::closed_within(nodes, path[0], depth) == Some(true),
    ensures
        nodes.dom().contains(path.last()),
        nodes[path.last()].resolution != Resolution::Open,
    decreases path.len(),
{
    if path.len() > 1 {
        let rest = path.drop_first();
        assert(nodes[path[0]].children.contains(path[1]));
        lemma_member_closed(nodes, nodes[path[0]].children, path[1], (depth - 1) as nat);
        assert forall|i: int| 0 <= i < rest.len() - 1 implies nodes.dom().contains(
            #[trigger] rest[i],
        ) && nodes[rest[i]].children.contains(rest[i + 1]) by {
            assert(rest[i] == path[i + 1]);
        }
        lemma_closed_along(nodes, rest, (depth - 1) as nat);
    }
}

proof fn lemma_first_unclosed(
    nodes: Map<Seq<char>, GoalNodeView>,
    ids: Seq<Seq<char>>,
    depth: nat,
) -> (i: int)
    requires
        store::all_closed_within(nodes, ids, depth) == Some(false),
    ensures
        0 <= i < ids.len(),
        store::closed_within(nodes, ids[i], depth) == Some(false),
    decreases ids.len(),
{
    if store::closed_within(nodes, ids[0], depth) == Some(false) {
        0
    } else {
        1 + lemma_first_unclosed(nodes, ids.drop_first(), depth)
    }
}

proof fn lemma_unclosed_reached(
    nodes: Map<Seq<char>, GoalNodeView>,
    id: Seq<char>,
    depth: nat,
) -> (path: Seq<Seq<char>>)
    requires
        store::closed_within(nodes, id, depth) == Some(false),
    ensures
        child_path(nodes, path),
        path[0] == id,
        !nodes.dom().contains(path.last()) || nodes[path.last()].resolution == Resolution::Open,
    decreases depth,
{
    if !nodes.dom().contains(id) || nodes[id].resolution == Resolution::Open {
        seq![id]
    } else {
        let i = lemma_first_unclosed(nodes, nodes[id].children, (depth - 1) as nat);
        let rest = lemma_unclosed_reached(nodes, nodes[id].children[i], (depth - 1) as nat);
        let path = seq![id] + rest;
        assert forall|j: int| 0 <= j < path.len() - 1 implies nodes.dom().contains(
            #[trigger] path[j],
        ) && nodes[path[j]].children.contains(path[j + 1]) by {
            if j > 0 {
                assert(path[j] == rest[j - 1]);
                assert(path[j + 1] == rest[j]);
            }
        }
        assert(path.last() == rest.last());
        path
    }
}

/// A subtree is closed exactly when the node and everything that is reached from
/// it through child lists is there and resolved, whichever way.
pub proof fn law_closed_means_all_resolved(nodes: Map<Seq<char>, GoalNodeView>, id: Seq<char>)
    requires
        store::closure_decided(nodes, id),
    ensures
        store::fully_closed(nodes, id) <==> all_resolved(nodes, id),
{
    let d = store::closure_depth(nodes, id);
    if store::closed_within(nodes, id, d) == Some(true) {
        assert forall|k: Seq<char>| #[trigger] reaches(nodes, id, k) implies nodes.dom().contains(k)
            && nodes[k].resolution != Resolution::Open by {
            let path = choose|path: Seq<Seq<char>>| #[trigger]
                child_path(nodes, path) && path[0] == id && path.last() == k;
            lemma_closed_along(nodes, path, d);
        }
    } else {
        let answer = store::closed_within(nodes, id, d)->0;
        assert(store::closed_within(nodes, id, d) == Some(answer));
        assert(!answer);
        let path = lemma_unclosed_reached(nodes, id, d);
        assert(reaches(nodes, id, path.last()));
    }
}

/// A node without children is closed, and found to be, exactly when it is there
/// and resolved.
pub proof fn law_leaf_is_closed_when_resolved(nodes: Map<Seq<char>, GoalNodeView>, id: Seq<char>)
    requires
        nodes.dom().contains(id) ==> nodes[id].children.len() == 0,
    ensures
        store::closure_decided(nodes, id),
        store::fully_closed(nodes, id) <==> nodes.dom().contains(id) && nodes[id].resolution
            != Resolution::Open,
{
    assert(store::closed_within(nodes, id, 1) is Some);
    store::lemma_fully_closed(nodes, id, 1);
}

/// Closing a goal records the resolution first. Where that leaves everything below
/// the goal resolved, the goal is reported closed under the hash of its subtree,
/// and the closure is recorded and signalled unless it was recorded before; where
/// it does not, nothing more happens.
pub proof fn law_close_stamps_resolved_subtrees(
    events: Seq<GoalEventView>,
    id: Seq<char>,
    resolution: Resolution,
)
    requires
        store::tree_of(events).has(id),
        store::closable(events, id, resolution),
        resolution != Resolution::Open,
    ensures
        ({
            let recorded = events.push(GoalEventView::Resolved { id, resolution });
            let nodes = fold::folded(
                crate::goal_model::tree::GoalTreeView::empty(),
                recorded,
            ).nodes;
            let effect = store::close_effect(events, id, resolution);
            let after = events + effect.appended;
            &&& nodes[id].resolution == resolution
            &&& effect.hash is Some <==> all_resolved(nodes, id)
            &&& nodes[id].children.len() == 0 ==> effect.hash is Some
            &&& effect.hash matches Some(hash) ==> {
                let closing = GoalEventView::Closed { id, subtree_hash: hash };
                &&& hash == subtree_hash::hash_of(nodes, nodes[id])
                &&& events.contains(closing) ==> after == recorded && !effect.fires
                &&& !events.contains(closing) ==> after == recorded.push(closing) && effect.fires
                &&& !events.contains(closing) ==> fold::folded(
                    crate::goal_model::tree::GoalTreeView::empty(),
                    after,
                ).nodes[id].subtree_hash == Some(hash)
            }
            &&& effect.hash is None ==> after == recorded && !effect.fires
        }),
{
    let recorded = events.push(GoalEventView::Resolved { id, resolution });
    let before = store::tree_of(events);
    let tree = store::tree_of(recorded);
    let effect = store::close_effect(events, id, resolution);
    let after = events + effect.appended;
    assert(recorded.drop_last() =~= events);
    assert(tree == fold::applied(before, GoalEventView::Resolved { id, resolution }));
    assert(tree.nodes[id].resolution == resolution);
    law_closed_means_all_resolved(tree.nodes, id);
    if tree.nodes[id].children.len() == 0 {
        law_leaf_is_closed_when_resolved(tree.nodes, id);
    }
    if effect.hash is Some {
        let closing = GoalEventView::Closed { id, subtree_hash: effect.hash->0 };
        if events.contains(closing) {
            let i = choose|i: int| 0 <= i < events.len() && events[i] == closing;
            assert(recorded[i] == closing);
            assert(after =~= recorded);
        } else {
            if recorded.contains(closing) {
                let i = choose|i: int| 0 <= i < recorded.len() && recorded[i] == closing;
                assert(events[i] == closing);
            }
            assert(after =~= recorded.push(closing));
            assert(after.drop_last() =~= recorded);
        }
    } else {
        assert(after =~= recorded);
    }
}

/// Whether every child of a node has a lower rank than the node: child lists never
/// lead back.
pub open spec fn descending(
    nodes: Map<Seq<char>, GoalNodeView>,
    rank: spec_fn(Seq<char>) -> nat,
) -> bool {
    forall|id: Seq<char>, i: int|
        nodes.dom().contains(id) && 0 <= i < nodes[id].children.len() ==> rank(
            #[trigger] nodes[id].children[i],
        ) < rank(id)
}

proof fn lemma_descending_decided(
    nodes: Map<Seq<char>, GoalNodeView>,
    rank: spec_fn(Seq<char>) -> nat,
    id: Seq<char>,
    depth: nat,
)
    requires
        descending(nodes, rank),
        depth > rank(id),
    ensures
        store::closed_within(nodes, id, depth) is Some,
    decreases depth,
{
    if nodes.dom().contains(id) {
        let ids = nodes[id].children;
        assert forall|i: int| 0 <= i < ids.len() implies store::closed_within(
            nodes,
            #[trigger] ids[i],
            (depth - 1) as nat,
        ) is Some by {
            assert(rank(nodes[id].children[i]) < rank(id));
            lemma_descending_decided(nodes, rank, ids[i], (depth - 1) as nat);
        }
        store_laws::lemma_all_decided(nodes, ids, (depth - 1) as nat);
    }
}

/// Where child lists never lead back, it is always found whether a subtree is
/// closed: it is exactly where everything reached from the node is there and
/// resolved.
pub proof fn law_trees_without_circles_are_decided(
    nodes: Map<Seq<char>, GoalNodeView>,
    rank: spec_fn(Seq<char>) -> nat,
    id: Seq<char>,
)
    requires
        descending(nodes, rank),
    ensures
        store::closure_decided(nodes, id),
        store::fully_closed(nodes, id) <==> all_resolved(nodes, id),
{
    let depth = (rank(id) + 1) as nat;
    lemma_descending_decided(nodes, rank, id, depth);
    assert(store::closed_within(nodes, id, depth) is Some);
    law_closed_means_all_resolved(nodes, id);
}

} // verus!
