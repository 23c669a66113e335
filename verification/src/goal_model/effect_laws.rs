//! What each event does to the tree, field by field.

use vstd::prelude::*;

use crate::goal_model::event_log::GoalStoreErrorView;
use crate::goal_model::fold;
use crate::goal_model::fold_laws;
use crate::goal_model::model::{GoalEventView, GoalNodeView, Resolution, RevisionView};
use crate::goal_model::store;
use crate::goal_model::subtree_hash;
use crate::goal_model::tree::GoalTreeView;
use crate::text_laws;
use crate::types::{IntentView, ToolCallView};

verus! {

/// Folding starts at the tree that is given and takes each event in turn.
pub proof fn law_fold_takes_events_in_turn(
    tree: GoalTreeView,
    events: Seq<GoalEventView>,
    event: GoalEventView,
)
    ensures
        fold::folded(tree, Seq::empty()) == tree,
        fold::folded(tree, events.push(event)) == fold::applied(
            fold::folded(tree, events),
            event,
        ),
{
    assert(events.push(event).drop_last() =~= events);
}

/// Whether two nodes agree on everything but the stored hash.
pub open spec fn same_but_hash(a: GoalNodeView, b: GoalNodeView) -> bool {
    same_but_children_and_hash(a, b) && a.children == b.children
}

/// Whether two nodes agree on everything but the child list and the stored hash.
pub open spec fn same_but_children_and_hash(a: GoalNodeView, b: GoalNodeView) -> bool {
    &&& a.id == b.id
    &&& a.parent == b.parent
    &&& a.hypothesis == b.hypothesis
    &&& a.resolution_conditions == b.resolution_conditions
    &&& a.resolution == b.resolution
    &&& a.intent == b.intent
    &&& a.tool_calls == b.tool_calls
}

/// A creation under a fresh id adds an open node with the given parent, hypothesis
/// and intent and nothing else in it, lists it last under its parent, and leaves
/// everything else but stored hashes as it was. The first node without a parent
/// becomes the root.
pub proof fn law_creation_adds_an_open_node(
    tree: GoalTreeView,
    id: Seq<char>,
    parent: Option<Seq<char>>,
    hypothesis: Seq<char>,
    intent: IntentView,
    other: Seq<char>,
)
    requires
        !tree.has(id),
        parent is Some ==> tree.has(parent->0),
    ensures
        ({
            let after = fold::applied(
                tree,
                GoalEventView::Created { id, parent, hypothesis, intent },
            );
            &&& after.nodes.dom() == tree.nodes.dom().insert(id)
            &&& after.nodes[id].id == id
            &&& after.nodes[id].parent == parent
            &&& after.nodes[id].hypothesis == hypothesis
            &&& after.nodes[id].intent == intent
            &&& after.nodes[id].resolution == Resolution::Open
            &&& after.nodes[id].children == Seq::<Seq<char>>::empty()
            &&& after.nodes[id].resolution_conditions == Seq::<Seq<char>>::empty()
            &&& after.nodes[id].tool_calls == Seq::<ToolCallView>::empty()
            &&& after.nodes[id].subtree_hash is None
            &&& tree.has(other) ==> {
                &&& same_but_children_and_hash(after.nodes[other], tree.nodes[other])
                &&& parent != Some(other) || tree.nodes[other].children.contains(id)
                    ==> after.nodes[other].children == tree.nodes[other].children
                &&& parent == Some(other) && !tree.nodes[other].children.contains(id)
                    ==> after.nodes[other].children == tree.nodes[other].children.push(id)
            }
            &&& after.root == if tree.root is None && parent is None {
                Some(id)
            } else {
                tree.root
            }
        }),
{
    fold_laws::law_nodes_are_never_removed(
        tree,
        GoalEventView::Created { id, parent, hypothesis, intent },
    );
}

/// A creation starts its node afresh, whatever was there under the same id, and
/// links it under its parent where that is in the tree, once. Nothing else changes
/// but stored hashes.
pub proof fn law_creation_starts_afresh(
    tree: GoalTreeView,
    id: Seq<char>,
    parent: Option<Seq<char>>,
    hypothesis: Seq<char>,
    intent: IntentView,
    other: Seq<char>,
)
    requires
        other != id,
    ensures
        ({
            let after = fold::applied(
                tree,
                GoalEventView::Created { id, parent, hypothesis, intent },
            );
            let node = after.nodes[id];
            &&& after.nodes.dom() == tree.nodes.dom().insert(id)
            &&& node.id == id
            &&& node.parent == parent
            &&& node.hypothesis == hypothesis
            &&& node.intent == intent
            &&& node.resolution == Resolution::Open
            &&& node.resolution_conditions == Seq::<Seq<char>>::empty()
            &&& node.tool_calls == Seq::<ToolCallView>::empty()
            &&& node.subtree_hash is None
            &&& parent != Some(id) ==> node.children == Seq::<Seq<char>>::empty()
            &&& parent == Some(id) ==> node.children == seq![id]
            &&& tree.has(other) ==> {
                &&& same_but_children_and_hash(after.nodes[other], tree.nodes[other])
                &&& parent != Some(other) || tree.nodes[other].children.contains(id)
                    ==> after.nodes[other].children == tree.nodes[other].children
                &&& parent == Some(other) && !tree.nodes[other].children.contains(id)
                    ==> after.nodes[other].children == tree.nodes[other].children.push(id)
            }
            &&& after.root == if tree.root is None && parent is None {
                Some(id)
            } else {
                tree.root
            }
        }),
{
    let after = fold::applied(tree, GoalEventView::Created { id, parent, hypothesis, intent });
    assert(after.nodes.dom() =~= tree.nodes.dom().insert(id));
    if parent == Some(id) {
        assert(after.nodes[id].children =~= seq![id]);
    }
}

/// A revision of a node replaces exactly the fields that it names, and changes
/// nothing else but stored hashes.
pub proof fn law_revision_replaces_what_it_names(
    tree: GoalTreeView,
    id: Seq<char>,
    revision: RevisionView,
    other: Seq<char>,
)
    requires
        tree.has(id),
        tree.has(other),
        other != id,
    ensures
        ({
            let after = fold::applied(tree, GoalEventView::Revised { id, revision });
            let (was, now) = (tree.nodes[id], after.nodes[id]);
            &&& now.resolution_conditions == (match revision.resolution_conditions {
                Some(conditions) => conditions,
                None => was.resolution_conditions,
            })
            &&& now.tool_calls == (match revision.tool_calls {
                Some(calls) => calls,
                None => was.tool_calls,
            })
            &&& now.children == (match revision.children {
                Some(children) => children,
                None => was.children,
            })
            &&& now.id == was.id
            &&& now.parent == was.parent
            &&& now.hypothesis == was.hypothesis
            &&& now.resolution == was.resolution
            &&& now.intent == was.intent
            &&& same_but_hash(after.nodes[other], tree.nodes[other])
            &&& after.nodes.dom() == tree.nodes.dom()
            &&& after.root == tree.root
        }),
{
    fold_laws::law_nodes_are_never_removed(tree, GoalEventView::Revised { id, revision });
}

/// A resolution gives a node that resolution, and changes nothing else but stored
/// hashes.
pub proof fn law_resolution_resolves_one_node(
    tree: GoalTreeView,
    id: Seq<char>,
    resolution: Resolution,
    other: Seq<char>,
)
    requires
        tree.has(id),
        tree.has(other),
        other != id,
    ensures
        ({
            let after = fold::applied(tree, GoalEventView::Resolved { id, resolution });
            &&& after.nodes[id].resolution == resolution
            &&& after.nodes[id].id == tree.nodes[id].id
            &&& after.nodes[id].parent == tree.nodes[id].parent
            &&& after.nodes[id].children == tree.nodes[id].children
            &&& after.nodes[id].hypothesis == tree.nodes[id].hypothesis
            &&& after.nodes[id].resolution_conditions == tree.nodes[id].resolution_conditions
            &&& after.nodes[id].intent == tree.nodes[id].intent
            &&& after.nodes[id].tool_calls == tree.nodes[id].tool_calls
            &&& same_but_hash(after.nodes[other], tree.nodes[other])
            &&& after.nodes.dom() == tree.nodes.dom()
            &&& after.root == tree.root
        }),
{
    fold_laws::law_nodes_are_never_removed(tree, GoalEventView::Resolved { id, resolution });
}

/// A closing event stores the hash of the node's subtree with the node, and changes
/// nothing else.
pub proof fn law_closing_stores_one_hash(
    tree: GoalTreeView,
    id: Seq<char>,
    claimed: Seq<char>,
    other: Seq<char>,
)
    requires
        tree.has(id),
        tree.has(other),
        other != id,
    ensures
        ({
            let after = fold::applied(tree, GoalEventView::Closed { id, subtree_hash: claimed });
            &&& after.nodes[id].subtree_hash == Some(
                subtree_hash::hash_of(tree.nodes, tree.nodes[id]),
            )
            &&& same_but_hash(after.nodes[id], tree.nodes[id])
            &&& same_but_hash(after.nodes[other], tree.nodes[other])
            &&& after.nodes[other].subtree_hash == tree.nodes[other].subtree_hash
            &&& after.nodes.dom() == tree.nodes.dom()
            &&& after.root == tree.root
        }),
{
    fold_laws::law_nodes_are_never_removed(
        tree,
        GoalEventView::Closed { id, subtree_hash: claimed },
    );
}

/// Whether each node of the path is there and has the next as its parent.
pub open spec fn parent_path(nodes: Map<Seq<char>, GoalNodeView>, path: Seq<Seq<char>>) -> bool {
    &&& path.len() > 0
    &&& forall|i: int| 0 <= i < path.len() ==> nodes.dom().contains(#[trigger] path[i])
    &&& forall|i: int|
        0 <= i < path.len() - 1 ==> nodes[#[trigger] path[i]].parent == Some(path[i + 1])
}

/// Whether a node is another or above it.
pub open spec fn at_or_above(
    nodes: Map<Seq<char>, GoalNodeView>,
    start: Seq<char>,
    id: Seq<char>,
) -> bool {
    exists|path: Seq<Seq<char>>| #[trigger]
        parent_path(nodes, path) && path[0] == start && path.last() == id
}

proof fn lemma_on_chain_is_above(
    nodes: Map<Seq<char>, GoalNodeView>,
    start: Seq<char>,
    n: nat,
    i: int,
)
    requires
        fold::chain_within(nodes, Some(start), n) is Some,
        0 <= i < fold::chain_within(nodes, Some(start), n)->0.len(),
    ensures
        at_or_above(nodes, start, fold::chain_within(nodes, Some(start), n)->0[i]),
    decreases n,
{
    let chain = fold::chain_within(nodes, Some(start), n)->0;
    let up = nodes[start].parent;
    let above = fold::chain_within(nodes, up, (n - 1) as nat)->0;
    assert(chain == seq![start] + above);
    if i == 0 {
        assert(parent_path(nodes, seq![start]));
        assert(seq![start].last() == chain[0]);
    } else {
        assert(chain[i] == above[i - 1]);
        lemma_on_chain_is_above(nodes, up->0, (n - 1) as nat, i - 1);
        let rest = choose|path: Seq<Seq<char>>| #[trigger]
            parent_path(nodes, path) && path[0] == up->0 && path.last() == chain[i];
        let path = seq![start] + rest;
        assert forall|j: int| 0 <= j < path.len() implies nodes.dom().contains(
            #[trigger] path[j],
        ) by {
            if j > 0 {
                assert(path[j] == rest[j - 1]);
            }
        }
        assert forall|j: int| 0 <= j < path.len() - 1 implies nodes[#[trigger] path[j]].parent
            == Some(path[j + 1]) by {
            if j > 0 {
                assert(path[j] == rest[j - 1]);
                assert(path[j + 1] == rest[j]);
            }
        }
        assert(path.last() == rest.last());
        assert(parent_path(nodes, path));
    }
}

proof fn lemma_above_is_on_chain(
    nodes: Map<Seq<char>, GoalNodeView>,
    start: Seq<char>,
    path: Seq<Seq<char>>,
)
    requires
        fold::grounded(nodes, Some(start)),
        parent_path(nodes, path),
        path[0] == start,
    ensures
        fold::chain_of(nodes, Some(start)).contains(path.last()),
    decreases path.len(),
{
    if path.len() == 1 {
        let n = fold::chain_length(nodes, Some(start));
        assert(fold::chain_within(nodes, Some(start), n) is Some);
        assert(nodes.dom().contains(path[0]));
        assert(fold::chain_of(nodes, Some(start))[0] == start);
    } else {
        let init = path.drop_last();
        assert forall|i: int| 0 <= i < init.len() - 1 implies nodes[#[trigger] init[i]].parent
            == Some(init[i + 1]) by {
            assert(init[i] == path[i]);
        }
        assert forall|i: int| 0 <= i < init.len() implies nodes.dom().contains(
            #[trigger] init[i],
        ) by {
            assert(init[i] == path[i]);
        }
        lemma_above_is_on_chain(nodes, start, init);
        let k = path.len() - 2;
        assert(nodes.dom().contains(path[k]));
        assert(nodes.dom().contains(path[k + 1]));
        assert(nodes[path[k]].parent == Some(path[k + 1]));
        assert(init.last() == path[k]);
        fold_laws::lemma_chain_goes_up(nodes, start, path[k], path[k + 1]);
    }
}

/// A change takes the stored hash off the node it touches and off every node above
/// it, and off no other. A creation touches the parent.
pub proof fn law_change_reopens_exactly_the_way_up(
    tree: GoalTreeView,
    event: GoalEventView,
    start: Seq<char>,
    id: Seq<char>,
)
    requires
        fold::applicable(tree, event),
        tree.has(start),
        tree.has(id),
        match event {
            GoalEventView::Created { id: created, parent, .. } => parent == Some(start) && created
                != id && created != start,
            GoalEventView::Revised { id: revised, .. } => revised == start,
            GoalEventView::Resolved { id: resolved, .. } => resolved == start,
            GoalEventView::Closed { .. } => false,
        },
    ensures
        ({
            let after = fold::applied(tree, event);
            &&& at_or_above(after.nodes, start, id) ==> after.nodes[id].subtree_hash is None
            &&& !at_or_above(after.nodes, start, id) ==> after.nodes[id].subtree_hash
                == tree.nodes[id].subtree_hash
        }),
{
    let middle = fold::changed(tree, event).nodes;
    let after = fold::applied(tree, event).nodes;
    assert(fold::reopens_at(tree, event) == Some(start));
    assert(fold_laws::same_parents(middle, after)) by {
        assert(middle.dom() =~= after.dom());
    }
    let n = fold::chain_length(middle, Some(start));
    assert(fold::chain_within(middle, Some(start), n) is Some);
    fold_laws::lemma_same_parents_chain(middle, after, Some(start), n);
    fold::lemma_chain_of(after, Some(start), n);
    let chain = fold::chain_of(middle, Some(start));
    assert(chain == fold::chain_of(after, Some(start)));
    if chain.contains(id) {
        let i = choose|i: int| 0 <= i < chain.len() && chain[i] == id;
        lemma_on_chain_is_above(after, start, n, i);
    } else if at_or_above(after, start, id) {
        let path = choose|path: Seq<Seq<char>>| #[trigger]
            parent_path(after, path) && path[0] == start && path.last() == id;
        lemma_above_is_on_chain(after, start, path);
    }
}

/// A creation at the top takes no hash off.
pub proof fn law_creation_at_the_top_reopens_nothing(
    tree: GoalTreeView,
    event: GoalEventView,
    id: Seq<char>,
)
    requires
        event is Created,
        event->Created_parent is None,
        event->Created_id != id,
        tree.has(id),
    ensures
        fold::applied(tree, event).nodes[id] == tree.nodes[id],
{
}

/// A creation is refused exactly where the hypothesis has nothing but white
/// characters, or else where a parent is named that is not in the tree.
pub proof fn law_creation_needs_a_hypothesis_and_a_known_parent(
    tree: GoalTreeView,
    parent: Option<Seq<char>>,
    hypothesis: Seq<char>,
)
    ensures
        ({
            let refused = store::creation_refused(tree, parent, hypothesis);
            let blank = forall|i: int|
                0 <= i < hypothesis.len() ==> text_laws::white_points().contains(
                    (#[trigger] hypothesis[i]) as int,
                );
            let unknown = parent is Some && !tree.nodes.dom().contains(parent->0);
            &&& blank ==> refused == Some(GoalStoreErrorView::EmptyHypothesis)
            &&& !blank && unknown ==> refused == Some(
                GoalStoreErrorView::ParentNotFound(parent->0),
            )
            &&& !blank && !unknown ==> refused is None
        }),
{
    text_laws::law_blank_is_all_white(hypothesis);
}

/// Closing is refused exactly where it would leave the goal open, or else where the
/// goal is not in the tree.
pub proof fn law_closing_needs_a_resolution_and_a_known_goal(
    tree: GoalTreeView,
    id: Seq<char>,
    resolution: Resolution,
)
    ensures
        resolution == Resolution::Open ==> store::closing_refused(tree, id, resolution) == Some(
            GoalStoreErrorView::OpenResolution,
        ),
        resolution != Resolution::Open && !tree.nodes.dom().contains(id) ==> store::closing_refused(
            tree,
            id,
            resolution,
        ) == Some(GoalStoreErrorView::NodeNotFound(id)),
        resolution != Resolution::Open && tree.nodes.dom().contains(id) ==> store::closing_refused(
            tree,
            id,
            resolution,
        ) is None,
{
}

/// A tree starts empty. A node taken into it is found under its own name, beside
/// every other node, and becomes the root where it is the first without a parent.
pub proof fn law_insertion_adds_one_node(tree: GoalTreeView, node: GoalNodeView)
    ensures
        GoalTreeView::empty().nodes.dom() == Set::<Seq<char>>::empty(),
        GoalTreeView::empty().root is None,
        tree.insert(node).nodes.dom() == tree.nodes.dom().insert(node.id),
        tree.insert(node).nodes[node.id] == node,
        forall|id: Seq<char>|
            id != node.id && tree.nodes.dom().contains(id) ==> #[trigger] tree.insert(
                node,
            ).nodes[id] == tree.nodes[id],
        tree.root is Some ==> tree.insert(node).root == tree.root,
        tree.root is None && node.parent is None ==> tree.insert(node).root == Some(node.id),
        tree.root is None && node.parent is Some ==> tree.insert(node).root is None,
{
}

} // verus!
