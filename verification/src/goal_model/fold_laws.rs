//! What the goal fold keeps, whatever the events are.

use vstd::prelude::*;

use crate::goal_model::fold;
use crate::goal_model::model::{GoalEventView, GoalNodeView};
use crate::goal_model::subtree_hash;
use crate::goal_model::tree::GoalTreeView;

verus! {

/// Folding is deterministic and can be resumed: folding one stretch of events
/// after another gives the tree of the two stretches together.
pub proof fn law_fold_composes(
    tree: GoalTreeView,
    first: Seq<GoalEventView>,
    second: Seq<GoalEventView>,
)
    ensures
        fold::folded(tree, first + second) == fold::folded(fold::folded(tree, first), second),
        fold::foldable(tree, first + second) <==> fold::foldable(tree, first) && fold::foldable(
            fold::folded(tree, first),
            second,
        ),
    decreases second.len(),
{
    if second.len() == 0 {
        assert(first + second =~= first);
    } else {
        law_fold_composes(tree, first, second.drop_last());
        assert((first + second).drop_last() =~= first + second.drop_last());
        assert((first + second).last() == second.last());
    }
}

/// An event about a node that is not in the tree changes nothing.
pub proof fn law_unknown_node_is_noop(tree: GoalTreeView, event: GoalEventView)
    requires
        match event {
            GoalEventView::Created { .. } => false,
            GoalEventView::Revised { id, .. } => !tree.has(id),
            GoalEventView::Resolved { id, .. } => !tree.has(id),
            GoalEventView::Closed { id, .. } => !tree.has(id),
        },
    ensures
        fold::applicable(tree, event),
        fold::applied(tree, event) == tree,
{
}

/// No event removes a node, and only a creation adds one.
pub proof fn law_nodes_are_never_removed(tree: GoalTreeView, event: GoalEventView)
    ensures
        fold::applied(tree, event).nodes.dom() == (match event {
            GoalEventView::Created { id, .. } => tree.nodes.dom().insert(id),
            _ => tree.nodes.dom(),
        }),
{
    let after = fold::changed(tree, event);
    assert(fold::applied(tree, event).nodes.dom() =~= after.nodes.dom());
    assert(after.nodes.dom() =~= (match event {
        GoalEventView::Created { id, .. } => tree.nodes.dom().insert(id),
        _ => tree.nodes.dom(),
    }));
}

/// Tool calls are recorded by revision only: under any event that is not a
/// revision naming tool calls of this very node, a node keeps its tool calls,
/// unless it is created anew, and then it has none.
pub proof fn law_tool_calls_come_from_revision_only(
    tree: GoalTreeView,
    event: GoalEventView,
    id: Seq<char>,
)
    requires
        fold::applied(tree, event).has(id),
        event matches GoalEventView::Revised { id: revised, revision } ==> revised != id
            || revision.tool_calls is None,
    ensures
        event matches GoalEventView::Created { id: created, .. } && created == id
            ==> fold::applied(tree, event).nodes[id].tool_calls == Seq::<
            crate::types::ToolCallView,
        >::empty(),
        !(event matches GoalEventView::Created { id: created, .. } && created == id) ==> tree.has(
            id,
        ) && fold::applied(tree, event).nodes[id].tool_calls == tree.nodes[id].tool_calls,
{
}

/// A change re-opens: after a creation, revision or resolution that touches a
/// node of the tree, neither that node nor any of its ancestors carries a
/// hash, and every other node carries the hash it had.
pub proof fn law_change_reopens_ancestors(
    tree: GoalTreeView,
    event: GoalEventView,
    start: Seq<char>,
    id: Seq<char>,
)
    requires
        fold::applicable(tree, event),
        fold::reopens_at(tree, event) == Some(start),
        tree.has(id),
        event matches GoalEventView::Created { id: created, .. } ==> created != id,
    ensures
        fold::chain_of(fold::changed(tree, event).nodes, Some(start)).contains(id)
            ==> fold::applied(tree, event).nodes[id].subtree_hash is None,
        !fold::chain_of(fold::changed(tree, event).nodes, Some(start)).contains(id)
            ==> fold::applied(tree, event).nodes[id].subtree_hash == tree.nodes[id].subtree_hash,
{
}

/// The node that a change touches comes first on its own way up.
pub proof fn law_change_reopens_node(tree: GoalTreeView, event: GoalEventView, start: Seq<char>)
    requires
        fold::applicable(tree, event),
        fold::reopens_at(tree, event) == Some(start),
    ensures
        fold::applied(tree, event).has(start),
        fold::applied(tree, event).nodes[start].subtree_hash is None,
{
    let nodes = fold::changed(tree, event).nodes;
    let chain = fold::chain_of(nodes, Some(start));
    let n = fold::chain_length(nodes, Some(start));
    assert(fold::chain_within(nodes, Some(start), n) is Some);
    assert(chain[0] == start);
    assert(chain.contains(start));
}

/// A closing event stamps the hash of the folded state, whatever hash it
/// carries, and touches no other node.
pub proof fn law_closing_stamps_folded_hash(
    tree: GoalTreeView,
    id: Seq<char>,
    claimed: Seq<char>,
    other: Seq<char>,
)
    requires
        tree.has(id),
        tree.has(other),
        other != id,
    ensures
        fold::applied(
            tree,
            GoalEventView::Closed { id, subtree_hash: claimed },
        ).nodes[id].subtree_hash == Some(subtree_hash::hash_of(tree.nodes, tree.nodes[id])),
        fold::applied(tree, GoalEventView::Closed { id, subtree_hash: claimed }).nodes[other]
            == tree.nodes[other],
{
}

/// A creation seen twice links the node under its parent once.
pub proof fn law_creation_links_parent_once(tree: GoalTreeView, event: GoalEventView)
    requires
        event is Created,
        event->Created_parent is Some,
        event->Created_parent != Some(event->Created_id),
    ensures
        ({
            let once = fold::applied(tree, event);
            let twice = fold::applied(once, event);
            let parent = event->Created_parent->0;
            once.has(parent) ==> {
                &&& twice.nodes[parent].children == once.nodes[parent].children
                &&& once.nodes[parent].children.contains(event->Created_id)
            }
        }),
{
    let once = fold::applied(tree, event);
    let parent = event->Created_parent->0;
    let id = event->Created_id;
    if once.has(parent) {
        let node = tree.nodes[parent];
        assert(node.children.push(id)[node.children.len() as int] == id);
    }
}

/// Whether every parent is in the tree and the way up from every node ends.
pub open spec fn well_rooted(nodes: Map<Seq<char>, GoalNodeView>) -> bool {
    forall|id: Seq<char>| #[trigger]
        nodes.dom().contains(id) ==> fold::grounded(nodes, Some(id)) && (nodes[id].parent is Some
            ==> nodes.dom().contains(nodes[id].parent->0))
}

/// Whether an event creates a node as the goal store does: under a fresh id, at
/// the top or below a node of the tree. Other events are not restricted.
pub open spec fn issued(tree: GoalTreeView, event: GoalEventView) -> bool {
    match event {
        GoalEventView::Created { id, parent, .. } => !tree.has(id) && (parent is Some ==> tree.has(
            parent->0,
        )),
        _ => true,
    }
}

/// Whether two trees have the same nodes under the same parents.
pub open spec fn same_parents(
    a: Map<Seq<char>, GoalNodeView>,
    b: Map<Seq<char>, GoalNodeView>,
) -> bool {
    &&& a.dom() == b.dom()
    &&& forall|id: Seq<char>| #[trigger] a.dom().contains(id) ==> a[id].parent == b[id].parent
}

pub proof fn lemma_same_parents_chain(
    a: Map<Seq<char>, GoalNodeView>,
    b: Map<Seq<char>, GoalNodeView>,
    start: Option<Seq<char>>,
    n: nat,
)
    requires
        same_parents(a, b),
    ensures
        fold::chain_within(a, start, n) == fold::chain_within(b, start, n),
    decreases n,
{
    if start is Some && a.dom().contains(start->0) && n > 0 {
        lemma_same_parents_chain(a, b, a[start->0].parent, (n - 1) as nat);
    }
}

proof fn lemma_same_parents_well_rooted(
    a: Map<Seq<char>, GoalNodeView>,
    b: Map<Seq<char>, GoalNodeView>,
)
    requires
        same_parents(a, b),
        well_rooted(a),
    ensures
        well_rooted(b),
{
    assert forall|id: Seq<char>| #[trigger] b.dom().contains(id) implies fold::grounded(b, Some(id))
        && (b[id].parent is Some ==> b.dom().contains(b[id].parent->0)) by {
        assert(a.dom().contains(id));
        let n = fold::chain_length(a, Some(id));
        lemma_same_parents_chain(a, b, Some(id), n);
        assert(fold::chain_within(b, Some(id), n) is Some);
    }
}

proof fn lemma_chain_in_larger(
    a: Map<Seq<char>, GoalNodeView>,
    b: Map<Seq<char>, GoalNodeView>,
    id: Seq<char>,
    n: nat,
)
    requires
        well_rooted(a),
        a.dom().contains(id),
        a.dom().subset_of(b.dom()),
        forall|k: Seq<char>| #[trigger] a.dom().contains(k) ==> b[k].parent == a[k].parent,
    ensures
        fold::chain_within(b, Some(id), n) == fold::chain_within(a, Some(id), n),
    decreases n,
{
    assert(b.dom().contains(id));
    if n > 0 {
        let m = (n - 1) as nat;
        match a[id].parent {
            Some(p) => {
                lemma_chain_in_larger(a, b, p, m);
            },
            None => {
                assert(fold::chain_within(a, None, m) == fold::chain_within(b, None, m));
            },
        }
    }
}

/// A tree that grows as the goal store grows it stays well rooted, and every
/// event but a closing one can be applied to it.
pub proof fn law_issued_events_keep_well_rooted(tree: GoalTreeView, event: GoalEventView)
    requires
        well_rooted(tree.nodes),
        issued(tree, event),
    ensures
        well_rooted(fold::applied(tree, event).nodes),
        event !is Closed ==> fold::applicable(tree, event),
{
    let after = fold::changed(tree, event);
    if event is Created {
        let id = event->Created_id;
        let parent = event->Created_parent;
        let a = tree.nodes;
        let b = after.nodes;
        assert forall|k: Seq<char>| #[trigger] b.dom().contains(k) implies fold::grounded(
            b,
            Some(k),
        ) && (b[k].parent is Some ==> b.dom().contains(b[k].parent->0)) by {
            if k == id {
                match parent {
                    Some(p) => {
                        assert(a.dom().contains(p));
                        let n = fold::chain_length(a, Some(p));
                        assert(fold::chain_within(a, Some(p), n) is Some);
                        lemma_chain_in_larger(a, b, p, n);
                        assert(fold::chain_within(b, Some(id), n + 1) is Some);
                    },
                    None => {
                        assert(fold::chain_within(b, None, 0) is Some);
                        assert(fold::chain_within(b, Some(id), 1) is Some);
                    },
                }
            } else {
                assert(a.dom().contains(k));
                let n = fold::chain_length(a, Some(k));
                assert(fold::chain_within(a, Some(k), n) is Some);
                lemma_chain_in_larger(a, b, k, n);
                assert(fold::chain_within(b, Some(k), n) is Some);
            }
        }
    } else {
        assert(same_parents(tree.nodes, after.nodes)) by {
            assert(tree.nodes.dom() =~= after.nodes.dom());
        }
        lemma_same_parents_well_rooted(tree.nodes, after.nodes);
    }
    assert(well_rooted(after.nodes));
    assert(same_parents(after.nodes, fold::applied(tree, event).nodes)) by {
        assert(after.nodes.dom() =~= fold::applied(tree, event).nodes.dom());
    }
    lemma_same_parents_well_rooted(after.nodes, fold::applied(tree, event).nodes);
    if fold::reopens_at(tree, event) is Some {
        let start = fold::reopens_at(tree, event)->0;
        assert(after.nodes.dom().contains(start));
    }
}

/// Whether children and parents mirror each other: every listed child is in the
/// tree and names the node as its parent.
pub open spec fn linked(nodes: Map<Seq<char>, GoalNodeView>) -> bool {
    forall|p: Seq<char>, i: int|
        #![trigger nodes[p].children[i]]
        nodes.dom().contains(p) && 0 <= i < nodes[p].children.len() ==> nodes.dom().contains(
            nodes[p].children[i],
        ) && nodes[nodes[p].children[i]].parent == Some(p)
}

/// Whether an event that names the children of a node names none but its own:
/// nodes of the tree that have it as their parent.
pub open spec fn lists_own(tree: GoalTreeView, event: GoalEventView) -> bool {
    match event {
        GoalEventView::Revised { id, revision } => tree.has(id) && revision.children is Some
            ==> forall|i: int|
            0 <= i < revision.children->0.len() ==> tree.has(#[trigger] revision.children->0[i])
                && tree.nodes[revision.children->0[i]].parent == Some(id),
        _ => true,
    }
}

/// Growth as the goal store grows the tree keeps children and parents mirrored,
/// unless a revision lists a child that is not the node's own.
pub proof fn law_issued_events_keep_linked(tree: GoalTreeView, event: GoalEventView)
    requires
        linked(tree.nodes),
        issued(tree, event),
        lists_own(tree, event),
    ensures
        linked(fold::applied(tree, event).nodes),
{
    let a = tree.nodes;
    let b = fold::applied(tree, event).nodes;
    assert forall|p: Seq<char>, i: int|
        #![trigger b[p].children[i]]
        b.dom().contains(p) && 0 <= i < b[p].children.len() implies b.dom().contains(
        b[p].children[i],
    ) && b[b[p].children[i]].parent == Some(p) by {
        let c = b[p].children[i];
        if event is Created && p == event->Created_id {
            assert(b[p].children.len() == 0) by {
                assert(event->Created_parent != Some(p));
            }
        } else if event is Revised && p == event->Revised_id && event->Revised_revision.children
            is Some {
            assert(event->Revised_revision.children->0[i] == c);
            assert(a.dom().contains(c));
            assert(a[c].parent == Some(p));
        } else {
            assert(a.dom().contains(p));
            if i < a[p].children.len() {
                assert(a[p].children[i] == c);
                assert(a.dom().contains(c));
                assert(a[c].parent == Some(p));
            } else {
                assert(event is Created);
                assert(event->Created_parent == Some(p));
                assert(c == event->Created_id);
            }
        }
    }
}

/// Whether a parent lists a child exactly when the child names it, and never
/// twice.
pub open spec fn mirrored(nodes: Map<Seq<char>, GoalNodeView>) -> bool {
    &&& linked(nodes)
    &&& forall|p: Seq<char>| #[trigger]
        nodes.dom().contains(p) ==> nodes[p].children.no_duplicates()
    &&& forall|p: Seq<char>, c: Seq<char>|
        #![trigger nodes.dom().contains(p), nodes.dom().contains(c)]
        nodes.dom().contains(p) && nodes.dom().contains(c) && nodes[c].parent == Some(p)
            ==> nodes[p].children.contains(c)
}

/// Whether an event that names the children of a node names each of its own
/// once and no other.
pub open spec fn lists_all(tree: GoalTreeView, event: GoalEventView) -> bool {
    &&& lists_own(tree, event)
    &&& match event {
        GoalEventView::Revised { id, revision } => tree.has(id) && revision.children is Some ==> {
            &&& revision.children->0.no_duplicates()
            &&& forall|c: Seq<char>| #[trigger]
                tree.has(c) && tree.nodes[c].parent == Some(id) ==> revision.children->0.contains(c)
        },
        _ => true,
    }
}

/// Growth as the goal store grows the tree keeps every parent listing exactly
/// the nodes that name it, each once, unless a revision lists something else.
pub proof fn law_issued_events_keep_mirrored(tree: GoalTreeView, event: GoalEventView)
    requires
        well_rooted(tree.nodes),
        mirrored(tree.nodes),
        issued(tree, event),
        lists_all(tree, event),
    ensures
        mirrored(fold::applied(tree, event).nodes),
{
    let a = tree.nodes;
    let b = fold::applied(tree, event).nodes;
    law_issued_events_keep_linked(tree, event);
    law_nodes_are_never_removed(tree, event);
    assert forall|p: Seq<char>| #[trigger]
        b.dom().contains(p) implies b[p].children.no_duplicates() by {
        if event is Created && p == event->Created_id {
            assert(event->Created_parent != Some(p));
        } else {
            assert(a.dom().contains(p));
        }
    }
    assert forall|p: Seq<char>, c: Seq<char>|
        #![trigger b.dom().contains(p), b.dom().contains(c)]
        b.dom().contains(p) && b.dom().contains(c) && b[c].parent == Some(
            p,
        ) implies b[p].children.contains(c) by {
        if event is Created && c == event->Created_id {
            let was = a[p].children;
            assert(a.dom().contains(p));
            assert(was.push(c)[was.len() as int] == c);
        } else {
            assert(a.dom().contains(c));
            assert(a[c].parent == b[c].parent);
            if event is Created && p == event->Created_id {
                assert(tree.has(a[c].parent->0));
            } else {
                assert(a.dom().contains(p));
                assert(a[p].children.contains(c));
                let was = a[p].children;
                let i = choose|i: int| 0 <= i < was.len() && was[i] == c;
                if event is Created && event->Created_parent == Some(p) {
                    assert(was.push(event->Created_id)[i] == c);
                } else if event is Revised && p == event->Revised_id {
                    assert(tree.has(c));
                }
            }
        }
    }
}

proof fn lemma_chain_distinct(nodes: Map<Seq<char>, GoalNodeView>, id: Seq<char>, n: nat)
    requires
        fold::chain_within(nodes, Some(id), n) is Some,
        nodes.dom().contains(id),
    ensures
        fold::chain_within(nodes, Some(id), n)->0.no_duplicates(),
        forall|i: int|
            0 <= i < fold::chain_within(nodes, Some(id), n)->0.len() ==> nodes.dom().contains(
                #[trigger] fold::chain_within(nodes, Some(id), n)->0[i],
            ),
    decreases n,
{
    let chain = fold::chain_within(nodes, Some(id), n)->0;
    let up = nodes[id].parent;
    let above = fold::chain_within(nodes, up, (n - 1) as nat)->0;
    assert(chain == seq![id] + above);
    if up is Some && nodes.dom().contains(up->0) {
        lemma_chain_distinct(nodes, up->0, (n - 1) as nat);
        if above.contains(id) {
            let i = choose|i: int| 0 <= i < above.len() && above[i] == id;
            lemma_chain_suffix(nodes, up, (n - 1) as nat, i);
            let m = (n - 1 - i) as nat;
            assert(fold::chain_within(nodes, Some(id), m) is Some);
            fold::lemma_chain_of(nodes, Some(id), n);
            fold::lemma_chain_of(nodes, Some(id), m);
            assert(above.skip(i).len() == chain.len());
            assert(false);
        }
        assert forall|i: int, j: int| 0 <= i < chain.len() && 0 <= j < chain.len() && i
            != j implies chain[i] != chain[j] by {
            if i > 0 && j > 0 {
                assert(chain[i] == above[i - 1]);
                assert(chain[j] == above[j - 1]);
            } else if i == 0 {
                assert(chain[j] == above[j - 1]);
                assert(above.contains(chain[j]));
            } else {
                assert(chain[i] == above[i - 1]);
                assert(above.contains(chain[i]));
            }
        }
        assert forall|i: int| 0 <= i < chain.len() implies nodes.dom().contains(
            #[trigger] chain[i],
        ) by {
            if i > 0 {
                assert(chain[i] == above[i - 1]);
            }
        }
    }
}

proof fn lemma_chain_suffix(
    nodes: Map<Seq<char>, GoalNodeView>,
    start: Option<Seq<char>>,
    n: nat,
    i: int,
)
    requires
        fold::chain_within(nodes, start, n) is Some,
        0 <= i < fold::chain_within(nodes, start, n)->0.len(),
    ensures
        i < n,
        fold::chain_within(
            nodes,
            Some(fold::chain_within(nodes, start, n)->0[i]),
            (n - i) as nat,
        ) == Some(fold::chain_within(nodes, start, n)->0.skip(i)),
    decreases n,
{
    let chain = fold::chain_within(nodes, start, n)->0;
    if i == 0 {
        assert(chain.skip(0) =~= chain);
        assert(chain[0] == start->0);
    } else {
        let up = nodes[start->0].parent;
        let above = fold::chain_within(nodes, up, (n - 1) as nat)->0;
        assert(chain == seq![start->0] + above);
        lemma_chain_suffix(nodes, up, (n - 1) as nat, i - 1);
        assert(chain[i] == above[i - 1]);
        assert(chain.skip(i) =~= above.skip(i - 1));
    }
}

/// A way up meets no node twice, so it is no longer than the tree is large.
pub proof fn lemma_chain_bounded(nodes: Map<Seq<char>, GoalNodeView>, id: Seq<char>)
    requires
        nodes.dom().finite(),
        nodes.dom().contains(id),
        fold::grounded(nodes, Some(id)),
    ensures
        fold::chain_of(nodes, Some(id)).len() <= nodes.dom().len(),
{
    let n = fold::chain_length(nodes, Some(id));
    assert(fold::chain_within(nodes, Some(id), n) is Some);
    let chain = fold::chain_of(nodes, Some(id));
    lemma_chain_distinct(nodes, id, n);
    chain.unique_seq_to_set();
    assert forall|k: Seq<char>| chain.to_set().contains(k) implies nodes.dom().contains(k) by {
        assert(chain.contains(k));
        let i = choose|i: int| 0 <= i < chain.len() && chain[i] == k;
        assert(nodes.dom().contains(chain[i]));
    }
    vstd::set_lib::lemma_len_subset(chain.to_set(), nodes.dom());
}

proof fn lemma_linked_hashable(nodes: Map<Seq<char>, GoalNodeView>, id: Seq<char>, depth: nat)
    requires
        nodes.dom().finite(),
        well_rooted(nodes),
        linked(nodes),
        nodes.dom().contains(id),
        depth == nodes.dom().len() - fold::chain_of(nodes, Some(id)).len() + 1,
    ensures
        subtree_hash::hash_within(nodes, nodes[id], depth) is Some,
    decreases depth,
{
    lemma_chain_bounded(nodes, id);
    let n = fold::chain_length(nodes, Some(id));
    assert(fold::chain_within(nodes, Some(id), n) is Some);
    assert forall|i: int| 0 <= i < nodes[id].children.len() implies nodes.dom().contains(
        #[trigger] nodes[id].children[i],
    ) && subtree_hash::hash_within(
        nodes,
        nodes[nodes[id].children[i]],
        (depth - 1) as nat,
    ) is Some by {
        let c = nodes[id].children[i];
        assert(nodes[c].parent == Some(id));
        assert(fold::chain_within(nodes, Some(c), n + 1) == Some(
            seq![c] + fold::chain_within(nodes, Some(id), n)->0,
        ));
        fold::lemma_chain_of(nodes, Some(c), n + 1);
        lemma_chain_bounded(nodes, c);
        lemma_linked_hashable(nodes, c, (depth - 1) as nat);
    }
    lemma_children_reached(nodes, nodes[id].children, (depth - 1) as nat);
}

proof fn lemma_children_reached(
    nodes: Map<Seq<char>, GoalNodeView>,
    ids: Seq<Seq<char>>,
    depth: nat,
)
    requires
        forall|i: int|
            0 <= i < ids.len() ==> nodes.dom().contains(#[trigger] ids[i])
                && subtree_hash::hash_within(nodes, nodes[ids[i]], depth) is Some,
    ensures
        subtree_hash::child_hashes_within(nodes, ids, depth) is Some,
    decreases ids.len(),
{
    if ids.len() > 0 {
        assert forall|i: int| 0 <= i < ids.drop_last().len() implies nodes.dom().contains(
            #[trigger] ids.drop_last()[i],
        ) && subtree_hash::hash_within(nodes, nodes[ids.drop_last()[i]], depth) is Some by {
            assert(ids.drop_last()[i] == ids[i]);
        }
        lemma_children_reached(nodes, ids.drop_last(), depth);
        assert(ids[ids.len() - 1] == ids.last());
    }
}

/// In a tree of finitely many nodes whose parents are rooted and whose children
/// mirror them, every node has a hash: closing events can be applied too.
pub proof fn law_linked_tree_is_hashable(nodes: Map<Seq<char>, GoalNodeView>, id: Seq<char>)
    requires
        nodes.dom().finite(),
        well_rooted(nodes),
        linked(nodes),
        nodes.dom().contains(id),
    ensures
        subtree_hash::hashable(nodes, nodes[id]),
{
    lemma_chain_bounded(nodes, id);
    let depth = (nodes.dom().len() - fold::chain_of(nodes, Some(id)).len() + 1) as nat;
    lemma_linked_hashable(nodes, id, depth);
}

/// A way up that meets a node goes on to its parent.
pub proof fn lemma_chain_goes_up(
    nodes: Map<Seq<char>, GoalNodeView>,
    start: Seq<char>,
    c: Seq<char>,
    p: Seq<char>,
)
    requires
        fold::grounded(nodes, Some(start)),
        fold::chain_of(nodes, Some(start)).contains(c),
        nodes.dom().contains(c),
        nodes.dom().contains(p),
        nodes[c].parent == Some(p),
    ensures
        fold::chain_of(nodes, Some(start)).contains(p),
{
    let n = fold::chain_length(nodes, Some(start));
    assert(fold::chain_within(nodes, Some(start), n) is Some);
    let chain = fold::chain_of(nodes, Some(start));
    let i = choose|i: int| 0 <= i < chain.len() && chain[i] == c;
    lemma_chain_suffix(nodes, Some(start), n, i);
    let rest = chain.skip(i);
    let above = fold::chain_within(nodes, Some(p), (n - i - 1) as nat)->0;
    assert(rest == seq![c] + above);
    assert(above[0] == p);
    assert(rest[1] == p);
    assert(chain[i + 1] == p);
}

/// Whether the nodes outside `touched` are the same in both trees, and so are
/// all that they list.
spec fn untouched(
    a: Map<Seq<char>, GoalNodeView>,
    b: Map<Seq<char>, GoalNodeView>,
    touched: Seq<Seq<char>>,
) -> bool {
    &&& forall|k: Seq<char>| #[trigger]
        a.dom().contains(k) && !touched.contains(k) ==> b.dom().contains(k) && b[k] == a[k]
    &&& forall|k: Seq<char>, i: int|
        #![trigger a[k].children[i]]
        a.dom().contains(k) && !touched.contains(k) && 0 <= i < a[k].children.len()
            ==> a.dom().contains(a[k].children[i]) && !touched.contains(a[k].children[i])
}

proof fn lemma_untouched_hash(
    a: Map<Seq<char>, GoalNodeView>,
    b: Map<Seq<char>, GoalNodeView>,
    touched: Seq<Seq<char>>,
    k: Seq<char>,
    depth: nat,
)
    requires
        untouched(a, b, touched),
        a.dom().contains(k),
        !touched.contains(k),
    ensures
        subtree_hash::hash_within(b, b[k], depth) == subtree_hash::hash_within(a, a[k], depth),
    decreases depth, 0nat,
{
    if depth > 0 {
        lemma_untouched_children(a, b, touched, a[k].children, (depth - 1) as nat);
    }
}

proof fn lemma_untouched_children(
    a: Map<Seq<char>, GoalNodeView>,
    b: Map<Seq<char>, GoalNodeView>,
    touched: Seq<Seq<char>>,
    ids: Seq<Seq<char>>,
    depth: nat,
)
    requires
        untouched(a, b, touched),
        forall|i: int|
            0 <= i < ids.len() ==> a.dom().contains(#[trigger] ids[i]) && !touched.contains(ids[i]),
    ensures
        subtree_hash::child_hashes_within(b, ids, depth) == subtree_hash::child_hashes_within(
            a,
            ids,
            depth,
        ),
    decreases depth, ids.len() + 1,
{
    if ids.len() > 0 {
        let id = ids[ids.len() - 1];
        assert(ids.last() == id);
        assert forall|i: int| 0 <= i < ids.drop_last().len() implies a.dom().contains(
            #[trigger] ids.drop_last()[i],
        ) && !touched.contains(ids.drop_last()[i]) by {
            assert(ids.drop_last()[i] == ids[i]);
        }
        lemma_untouched_children(a, b, touched, ids.drop_last(), depth);
        lemma_untouched_hash(a, b, touched, id, depth);
    }
}

/// Whether every hash that is stored is the one that the tree gives.
pub open spec fn hashes_current(nodes: Map<Seq<char>, GoalNodeView>) -> bool {
    forall|id: Seq<char>| #[trigger]
        nodes.dom().contains(id) ==> (nodes[id].subtree_hash matches Some(hash)
            ==> subtree_hash::hashable(nodes, nodes[id]) && hash == subtree_hash::hash_of(
            nodes,
            nodes[id],
        ))
}

proof fn lemma_change_keeps_hashes(
    tree: GoalTreeView,
    event: GoalEventView,
    touched: Seq<Seq<char>>,
)
    requires
        linked(tree.nodes),
        hashes_current(tree.nodes),
        issued(tree, event),
        fold::applicable(tree, event),
        event !is Closed,
        fold::applied(tree, event) != tree,
        touched == (match fold::reopens_at(tree, event) {
            Some(start) => fold::chain_of(fold::changed(tree, event).nodes, Some(start)),
            None => Seq::empty(),
        }),
    ensures
        hashes_current(fold::applied(tree, event).nodes),
{
    let a = tree.nodes;
    let m = fold::changed(tree, event).nodes;
    let b = fold::applied(tree, event).nodes;
    if fold::reopens_at(tree, event) is Some {
        let start = fold::reopens_at(tree, event)->0;
        let n = fold::chain_length(m, Some(start));
        assert(fold::chain_within(m, Some(start), n) is Some);
        assert(touched[0] == start);
        assert(touched.contains(start));
    }
    assert(untouched(a, b, touched)) by {
        assert forall|k: Seq<char>, i: int|
            #![trigger a[k].children[i]]
            a.dom().contains(k) && !touched.contains(k) && 0 <= i
                < a[k].children.len() implies a.dom().contains(a[k].children[i])
            && !touched.contains(a[k].children[i]) by {
            let c = a[k].children[i];
            assert(a[c].parent == Some(k));
            if touched.contains(c) {
                assert(m.dom().contains(c) && m.dom().contains(k));
                assert(m[c].parent == Some(k));
                lemma_chain_goes_up(m, fold::reopens_at(tree, event)->0, c, k);
            }
        }
    }
    assert forall|id: Seq<char>| #[trigger] b.dom().contains(id) implies (
    b[id].subtree_hash matches Some(hash) ==> subtree_hash::hashable(b, b[id]) && hash
        == subtree_hash::hash_of(b, b[id])) by {
        if b[id].subtree_hash is Some {
            assert(!touched.contains(id));
            assert(a.dom().contains(id));
            assert(b[id] == a[id]);
            let d = subtree_hash::hash_depth(a, a[id]);
            assert(subtree_hash::hash_within(a, a[id], d) is Some);
            lemma_untouched_hash(a, b, touched, id, d);
            assert(subtree_hash::hash_within(b, b[id], d) is Some);
            subtree_hash::lemma_hash_of(b, b[id], d);
        }
    }
}

/// Stored hashes stay current: whatever is done to a tree whose children mirror
/// their parents, a hash that is stored afterwards is the one that the tree then
/// gives. A change takes the hash off every node whose subtree it touches.
pub proof fn law_stored_hashes_stay_current(tree: GoalTreeView, event: GoalEventView)
    requires
        linked(tree.nodes),
        hashes_current(tree.nodes),
        issued(tree, event),
        fold::applicable(tree, event),
    ensures
        hashes_current(fold::applied(tree, event).nodes),
{
    let a = tree.nodes;
    let b = fold::applied(tree, event).nodes;
    if event is Closed {
        if tree.has(event->Closed_id) {
            assert(subtree_hash::same_contracts(a, b)) by {
                assert(a.dom() =~= b.dom());
            }
            assert forall|id: Seq<char>| #[trigger] b.dom().contains(id) implies (
            b[id].subtree_hash matches Some(hash) ==> subtree_hash::hashable(b, b[id]) && hash
                == subtree_hash::hash_of(b, b[id])) by {
                assert(a.dom().contains(id));
                subtree_hash::law_hash_covers_contract_only(a, a[id], b, b[id]);
            }
        }
    } else if fold::applied(tree, event) != tree {
        let touched = match fold::reopens_at(tree, event) {
            Some(start) => fold::chain_of(fold::changed(tree, event).nodes, Some(start)),
            None => Seq::empty(),
        };
        lemma_change_keeps_hashes(tree, event, touched);
    }
}

/// Whether every event is one that the goal store appends to the log before it,
/// and every child list that a revision gives is complete.
pub open spec fn orderly(events: Seq<GoalEventView>) -> bool
    decreases events.len(),
{
    events.len() > 0 ==> {
        let tree = fold::folded(GoalTreeView::empty(), events.drop_last());
        &&& orderly(events.drop_last())
        &&& issued(tree, events.last())
        &&& lists_all(tree, events.last())
    }
}

/// The tree of an orderly log is consistent: the log can be folded, every stored
/// hash is the one that the tree gives, and a parent lists a child exactly when
/// the child names it, once.
pub proof fn law_folded_tree_is_consistent(events: Seq<GoalEventView>)
    requires
        orderly(events),
    ensures
        fold::foldable(GoalTreeView::empty(), events),
        ({
            let nodes = fold::folded(GoalTreeView::empty(), events).nodes;
            &&& nodes.dom().finite()
            &&& well_rooted(nodes)
            &&& mirrored(nodes)
            &&& hashes_current(nodes)
        }),
    decreases events.len(),
{
    if events.len() > 0 {
        let before = events.drop_last();
        let event = events.last();
        law_folded_tree_is_consistent(before);
        let tree = fold::folded(GoalTreeView::empty(), before);
        law_issued_events_keep_well_rooted(tree, event);
        law_issued_events_keep_mirrored(tree, event);
        law_nodes_are_never_removed(tree, event);
        if event is Closed && tree.has(event->Closed_id) {
            law_linked_tree_is_hashable(tree.nodes, event->Closed_id);
        }
        law_stored_hashes_stay_current(tree, event);
    }
}

} // verus!
