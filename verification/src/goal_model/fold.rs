//! The goal fold: the projected tree as a function of the event log.

use vstd::prelude::*;

use crate::goal_model::checked;
use crate::goal_model::fold_laws;
use crate::goal_model::model::{
    GoalEvent, GoalEventView, GoalNode, GoalNodeView, Resolution, RevisionView,
};
use crate::goal_model::subtree_hash;
use crate::goal_model::tree::{GoalTree, GoalTreeView};
use crate::types::{GoalNodeId, IntentView, SubtreeHash};
use crate::views;

verus! {

/// The nodes met on the way up from `start` in at most `n` steps: the node
/// itself, its parent, and so on until a node is absent or has no parent.
/// `None` where `n` steps are not enough.
pub open spec fn chain_within(
    nodes: Map<Seq<char>, GoalNodeView>,
    start: Option<Seq<char>>,
    n: nat,
) -> Option<Seq<Seq<char>>>
    decreases n,
{
    match start {
        None => Some(Seq::empty()),
        Some(id) => if !nodes.dom().contains(id) {
            Some(Seq::empty())
        } else if n == 0 {
            None
        } else {
            match chain_within(nodes, nodes[id].parent, (n - 1) as nat) {
                Some(rest) => Some(seq![id] + rest),
                None => None,
            }
        },
    }
}

/// Whether the way up from `start` ends.
pub open spec fn grounded(nodes: Map<Seq<char>, GoalNodeView>, start: Option<Seq<char>>) -> bool {
    exists|n: nat| (#[trigger] chain_within(nodes, start, n)) is Some
}

/// Some number of steps in which the way up from `start` ends.
pub open spec fn chain_length(
    nodes: Map<Seq<char>, GoalNodeView>,
    start: Option<Seq<char>>,
) -> nat {
    choose|n: nat| (#[trigger] chain_within(nodes, start, n)) is Some
}

/// A node and its ancestors.
pub open spec fn chain_of(
    nodes: Map<Seq<char>, GoalNodeView>,
    start: Option<Seq<char>>,
) -> Seq<Seq<char>> {
    chain_within(nodes, start, chain_length(nodes, start))->0
}

/// The nodes with the stored hash taken off those in `ids`.
pub open spec fn cleared(
    nodes: Map<Seq<char>, GoalNodeView>,
    ids: Seq<Seq<char>>,
) -> Map<Seq<char>, GoalNodeView> {
    Map::new(
        |id: Seq<char>| nodes.dom().contains(id),
        |id: Seq<char>|
            if ids.contains(id) {
                nodes[id].with_hash(None)
            } else {
                nodes[id]
            },
    )
}

/// The tree with the stored hash taken off a node and its ancestors.
pub open spec fn reopened(tree: GoalTreeView, id: Seq<char>) -> GoalTreeView {
    GoalTreeView { nodes: cleared(tree.nodes, chain_of(tree.nodes, Some(id))), root: tree.root }
}

/// A node as creation leaves it.
pub open spec fn created_node(
    id: Seq<char>,
    parent: Option<Seq<char>>,
    hypothesis: Seq<char>,
    intent: IntentView,
) -> GoalNodeView {
    GoalNodeView {
        id,
        parent,
        children: Seq::empty(),
        hypothesis,
        resolution_conditions: Seq::empty(),
        resolution: Resolution::Open,
        intent,
        tool_calls: Seq::empty(),
        subtree_hash: None,
    }
}

/// A node with `id` among its children, once.
pub open spec fn with_child(node: GoalNodeView, id: Seq<char>) -> GoalNodeView {
    if node.children.contains(id) {
        node
    } else {
        GoalNodeView { children: node.children.push(id), ..node }
    }
}

/// A node with the present fields of a revision in place of its own.
pub open spec fn revised_node(node: GoalNodeView, revision: RevisionView) -> GoalNodeView {
    GoalNodeView {
        resolution_conditions: match revision.resolution_conditions {
            Some(c) => c,
            None => node.resolution_conditions,
        },
        tool_calls: match revision.tool_calls {
            Some(c) => c,
            None => node.tool_calls,
        },
        children: match revision.children {
            Some(c) => c,
            None => node.children,
        },
        ..node
    }
}

/// The tree after an event, before hashes are taken off above it.
pub open spec fn changed(tree: GoalTreeView, event: GoalEventView) -> GoalTreeView {
    match event {
        GoalEventView::Created { id, parent, hypothesis, intent } => {
            let inserted = tree.insert(created_node(id, parent, hypothesis, intent));
            match parent {
                Some(p) => if inserted.has(p) {
                    inserted.update(p, with_child(inserted.nodes[p], id))
                } else {
                    inserted
                },
                None => inserted,
            }
        },
        GoalEventView::Revised { id, revision } => if tree.has(id) {
            tree.update(id, revised_node(tree.nodes[id], revision))
        } else {
            tree
        },
        GoalEventView::Resolved { id, resolution } => if tree.has(id) {
            tree.update(id, GoalNodeView { resolution, ..tree.nodes[id] })
        } else {
            tree
        },
        GoalEventView::Closed { id, .. } => if tree.has(id) {
            tree.update(
                id,
                tree.nodes[id].with_hash(
                    Some(subtree_hash::hash_of(tree.nodes, tree.nodes[id])),
                ),
            )
        } else {
            tree
        },
    }
}

/// The node from which hashes are taken off upward after an event.
pub open spec fn reopens_at(tree: GoalTreeView, event: GoalEventView) -> Option<Seq<char>> {
    match event {
        GoalEventView::Created { parent, .. } => match parent {
            Some(p) => if changed(tree, event).has(p) {
                Some(p)
            } else {
                None
            },
            None => None,
        },
        GoalEventView::Revised { id, .. } => if tree.has(id) {
            Some(id)
        } else {
            None
        },
        GoalEventView::Resolved { id, .. } => if tree.has(id) {
            Some(id)
        } else {
            None
        },
        GoalEventView::Closed { .. } => None,
    }
}

/// The tree after an event.
pub open spec fn applied(tree: GoalTreeView, event: GoalEventView) -> GoalTreeView {
    match reopens_at(tree, event) {
        Some(id) => reopened(changed(tree, event), id),
        None => changed(tree, event),
    }
}

/// Whether an event can be applied: the way up from the node it touches ends,
/// and the subtree that it closes is finite.
pub open spec fn applicable(tree: GoalTreeView, event: GoalEventView) -> bool {
    &&& reopens_at(tree, event) is Some ==> grounded(
        changed(tree, event).nodes,
        reopens_at(tree, event),
    )
    &&& event matches GoalEventView::Closed { id, .. } ==> tree.has(id) ==> subtree_hash::hashable(
        tree.nodes,
        tree.nodes[id],
    )
}

/// The tree after a sequence of events.
pub open spec fn folded(tree: GoalTreeView, events: Seq<GoalEventView>) -> GoalTreeView
    decreases events.len(),
{
    if events.len() == 0 {
        tree
    } else {
        applied(folded(tree, events.drop_last()), events.last())
    }
}

/// Whether a sequence of events can be applied one after the other.
pub open spec fn foldable(tree: GoalTreeView, events: Seq<GoalEventView>) -> bool
    decreases events.len(),
{
    events.len() > 0 ==> {
        &&& foldable(tree, events.drop_last())
        &&& applicable(folded(tree, events.drop_last()), events.last())
    }
}

proof fn lemma_chain_longer(
    nodes: Map<Seq<char>, GoalNodeView>,
    start: Option<Seq<char>>,
    m: nat,
    n: nat,
)
    requires
        chain_within(nodes, start, m) is Some,
        m <= n,
    ensures
        chain_within(nodes, start, n) == chain_within(nodes, start, m),
    decreases m,
{
    if start is Some && nodes.dom().contains(start->0) {
        lemma_chain_longer(nodes, nodes[start->0].parent, (m - 1) as nat, (n - 1) as nat);
    }
}

/// The number of steps in which a chain ends does not matter.
pub proof fn lemma_chain_of(nodes: Map<Seq<char>, GoalNodeView>, start: Option<Seq<char>>, n: nat)
    requires
        chain_within(nodes, start, n) is Some,
    ensures
        grounded(nodes, start),
        chain_of(nodes, start) == chain_within(nodes, start, n)->0,
{
    let m = chain_length(nodes, start);
    if m <= n {
        lemma_chain_longer(nodes, start, m, n);
    } else {
        lemma_chain_longer(nodes, start, n, m);
    }
}

/// Takes the stored hash off a node and its ancestors.
fn invalidate_closure_upward(tree: &mut GoalTree, id: &GoalNodeId)
    requires
        old(tree).wf(),
        grounded(old(tree)@.nodes, Some(id@)),
    ensures
        final(tree).wf(),
        final(tree)@ == reopened(old(tree)@, id@),
{
    let ghost nodes = tree@.nodes;
    let ghost root = tree@.root;
    let ghost chain = chain_of(nodes, Some(id@));
    let ghost mut steps: nat = chain_length(nodes, Some(id@));
    let ghost mut done: Seq<Seq<char>> = Seq::empty();
    let mut current: Option<GoalNodeId> = Some(id.clone());
    proof {
        assert(cleared(nodes, done) =~= nodes);
        assert(done + chain =~= chain);
    }
    loop
        invariant_except_break
            tree@.nodes == cleared(nodes, done),
            chain_within(nodes, views::of_option(current), steps) is Some,
            chain == done + chain_within(nodes, views::of_option(current), steps)->0,
        invariant
            tree.wf(),
            tree@.root == root,
        ensures
            tree@.nodes == cleared(nodes, chain),
        decreases steps,
    {
        let node_id = match current {
            Some(node_id) => node_id,
            None => {
                assert(chain =~= done);
                break;
            },
        };
        let ghost before = tree@;
        let ghost rest = chain_within(nodes, Some(node_id@), steps)->0;
        let parent: Option<GoalNodeId>;
        match tree.node_mut(&node_id) {
            Some(node) => {
                node.subtree_hash = None;
                parent = node.parent.clone();
            },
            None => {
                assert(done + rest =~= done);
                break;
            },
        }
        proof {
            let up = nodes[node_id@].parent;
            assert(before.nodes[node_id@].parent == up);
            let above = chain_within(nodes, up, (steps - 1) as nat)->0;
            assert(rest == seq![node_id@] + above);
            assert(chain =~= done.push(node_id@) + above);
            assert forall|k: Seq<char>| done.push(node_id@).contains(k) == (done.contains(k) || k
                == node_id@) by {
                assert(done.push(node_id@)[done.len() as int] == node_id@);
                if done.contains(k) {
                    let i = choose|i: int| 0 <= i < done.len() && done[i] == k;
                    assert(done.push(node_id@)[i] == k);
                }
                if done.push(node_id@).contains(k) {
                    let i = choose|i: int|
                        0 <= i < done.len() + 1 && done.push(node_id@)[i] == k;
                    if i < done.len() {
                        assert(done[i] == k);
                    }
                }
            }
            assert(tree@.nodes =~= cleared(nodes, done.push(node_id@)));
            done = done.push(node_id@);
            steps = (steps - 1) as nat;
        }
        current = parent;
    }
    assert(tree@ =~= reopened(old(tree)@, id@));
}

/// Whether an id is among others.
pub fn contains_id(ids: &Vec<GoalNodeId>, id: &GoalNodeId) -> (r: bool)
    ensures
        r == views::of_seq(ids@).contains(id@),
{
    let mut i: usize = 0;
    while i < ids.len()
        invariant
            i <= ids@.len(),
            forall|j: int| 0 <= j < i ==> (#[trigger] ids@[j])@ != id@,
        decreases ids@.len() - i,
    {
        if ids[i].0 == id.0 {
            assert(views::of_seq(ids@)[i as int] == id@);
            return true;
        }
        i += 1;
    }
    proof {
        if views::of_seq(ids@).contains(id@) {
            let j = choose|j: int| 0 <= j < ids@.len() && views::of_seq(ids@)[j] == id@;
            assert(ids@[j]@ == id@);
        }
    }
    false
}

/// Changes the tree as an event other than a closing one does, and names the node
/// from which hashes are to be taken off upward.
fn change(tree: &mut GoalTree, event: &GoalEvent) -> (r: Option<GoalNodeId>)
    requires
        old(tree).wf(),
        event@ !is Closed,
    ensures
        final(tree).wf(),
        final(tree)@ == changed(old(tree)@, event@),
        views::of_option(r) == reopens_at(old(tree)@, event@),
{
    match event {
        GoalEvent::GoalNodeCreated { id, parent, hypothesis, intent } => {
            let node = GoalNode {
                id: id.clone(),
                parent: parent.clone(),
                children: Vec::new(),
                hypothesis: hypothesis.clone(),
                resolution_conditions: Vec::new(),
                resolution: Resolution::Open,
                intent: intent.clone(),
                tool_calls: Vec::new(),
                subtree_hash: None,
            };
            assert(node@ =~= created_node(
                id@,
                views::of_option(*parent),
                hypothesis@,
                intent@,
            ));
            tree.insert(node);
            match parent {
                Some(parent_id) => {
                    let ghost inserted = tree@;
                    let found: bool;
                    match tree.node_mut(parent_id) {
                        Some(parent_node) => {
                            let ghost before = parent_node@;
                            if !contains_id(&parent_node.children, id) {
                                parent_node.children.push(id.clone());
                                assert(views::of_seq(parent_node.children@)
                                    =~= before.children.push(id@));
                            }
                            assert(parent_node@ =~= with_child(before, id@));
                            found = true;
                        },
                        None => {
                            found = false;
                        },
                    }
                    assert(tree@ =~= changed(old(tree)@, event@));
                    if found {
                        Some(parent_id.clone())
                    } else {
                        None
                    }
                },
                None => None,
            }
        },
        GoalEvent::GoalNodeRevised { id, revision } => {
            match tree.node_mut(id) {
                Some(node) => {
                    let ghost before = node@;
                    match &revision.resolution_conditions {
                        Some(conditions) => {
                            node.resolution_conditions = conditions.clone();
                            assert(views::of_seq(node.resolution_conditions@) =~= views::of_seq(
                                conditions@,
                            ));
                        },
                        None => {},
                    }
                    match &revision.tool_calls {
                        Some(tool_calls) => {
                            node.tool_calls = tool_calls.clone();
                            assert(views::of_seq(node.tool_calls@) =~= views::of_seq(tool_calls@));
                        },
                        None => {},
                    }
                    match &revision.children {
                        Some(children) => {
                            node.children = children.clone();
                            assert(views::of_seq(node.children@) =~= views::of_seq(children@));
                        },
                        None => {},
                    }
                    assert(node@ =~= revised_node(before, revision@));
                },
                None => {
                    return None;
                },
            }
            assert(tree@ == changed(old(tree)@, event@));
            Some(id.clone())
        },
        GoalEvent::GoalNodeResolved { id, resolution } => {
            match tree.node_mut(id) {
                Some(node) => {
                    node.resolution = *resolution;
                },
                None => {
                    return None;
                },
            }
            assert(tree@ =~= changed(old(tree)@, event@));
            Some(id.clone())
        },
        GoalEvent::GoalClosed { .. } => None,
    }
}

/// Stores a hash with a node.
fn stamp(tree: &mut GoalTree, id: &GoalNodeId, hash: SubtreeHash)
    requires
        old(tree).wf(),
        old(tree)@.has(id@),
    ensures
        final(tree).wf(),
        final(tree)@ == old(tree)@.update(id@, old(tree)@.nodes[id@].with_hash(Some(hash@))),
{
    match tree.node_mut(id) {
        Some(node) => {
            node.subtree_hash = Some(hash);
        },
        None => {},
    }
}

/// Applies one event to the tree.
///
/// Events about nodes that are not in the tree change nothing.
pub fn apply_goal_event(tree: &mut GoalTree, event: &GoalEvent)
    requires
        old(tree).wf(),
        applicable(old(tree)@, event@),
    ensures
        final(tree).wf(),
        final(tree)@ == applied(old(tree)@, event@),
{
    match event {
        GoalEvent::GoalClosed { id, .. } => {
            let hash = match tree.node(id) {
                Some(node) => subtree_hash::subtree_hash(node, tree),
                None => {
                    return;
                },
            };
            stamp(tree, id, hash);
        },
        _ => {
            match change(tree, event) {
                Some(start) => invalidate_closure_upward(tree, &start),
                None => {},
            }
        },
    }
}

proof fn lemma_chain_shorter(
    nodes: Map<Seq<char>, GoalNodeView>,
    start: Option<Seq<char>>,
    n: nat,
    m: nat,
)
    requires
        chain_within(nodes, start, n) is Some,
        chain_within(nodes, start, n)->0.len() <= m,
    ensures
        chain_within(nodes, start, m) is Some,
    decreases n,
{
    if start is Some && nodes.dom().contains(start->0) {
        let up = nodes[start->0].parent;
        let above = chain_within(nodes, up, (n - 1) as nat)->0;
        assert(chain_within(nodes, start, n)->0 == seq![start->0] + above);
        lemma_chain_shorter(nodes, up, (n - 1) as nat, (m - 1) as nat);
    }
}

/// Whether the way up from a node ends.
pub fn way_up_ends(tree: &GoalTree, id: &GoalNodeId) -> (r: bool)
    requires
        tree.wf(),
    ensures
        r == grounded(tree@.nodes, Some(id@)),
{
    let ghost nodes = tree@.nodes;
    let most = tree.len();
    let mut left: usize = most;
    let mut current: Option<GoalNodeId> = Some(id.clone());
    loop
        invariant
            tree.wf(),
            nodes == tree@.nodes,
            nodes.dom().finite(),
            most == nodes.dom().len(),
            chain_within(nodes, Some(id@), most as nat) is Some <==> chain_within(
                nodes,
                views::of_option(current),
                left as nat,
            ) is Some,
        decreases left,
    {
        let node_id = match current {
            Some(node_id) => node_id,
            None => {
                assert(chain_within(nodes, Some(id@), most as nat) is Some);
                return true;
            },
        };
        let parent = match tree.node(&node_id) {
            Some(node) => node.parent.clone(),
            None => {
                assert(chain_within(nodes, Some(id@), most as nat) is Some);
                return true;
            },
        };
        if left == 0 {
            proof {
                if grounded(nodes, Some(id@)) {
                    if nodes.dom().contains(id@) {
                        fold_laws::lemma_chain_bounded(nodes, id@);
                    }
                    let n = chain_length(nodes, Some(id@));
                    lemma_chain_shorter(nodes, Some(id@), n, most as nat);
                }
            }
            return false;
        }
        left -= 1;
        current = parent;
    }
}

/// Applies one event to the tree if it can be applied, and says whether it could.
fn try_apply(tree: &mut GoalTree, event: &GoalEvent) -> (r: bool)
    requires
        old(tree).wf(),
    ensures
        final(tree).wf(),
        r == applicable(old(tree)@, event@),
        r ==> final(tree)@ == applied(old(tree)@, event@),
{
    match event {
        GoalEvent::GoalClosed { id, .. } => {
            let hash = match tree.node(id) {
                Some(node) => match checked::try_subtree_hash(node, tree) {
                    Some(hash) => hash,
                    None => {
                        return false;
                    },
                },
                None => {
                    return true;
                },
            };
            stamp(tree, id, hash);
            true
        },
        _ => {
            match change(tree, event) {
                Some(start) => {
                    if !way_up_ends(tree, &start) {
                        return false;
                    }
                    invalidate_closure_upward(tree, &start);
                    true
                },
                None => true,
            }
        },
    }
}

/// Applies events one after the other as [`fold_goal_events`] does, or gives
/// nothing where one of them cannot be applied because parents or child lists run
/// in a circle.
pub fn try_fold_goal_events(tree: GoalTree, events: &[GoalEvent]) -> (r: Option<GoalTree>)
    requires
        tree.wf(),
    ensures
        r is Some <==> foldable(tree@, views::of_seq(events@)),
        r matches Some(after) ==> after.wf() && after@ == folded(tree@, views::of_seq(events@)),
{
    let ghost all = views::of_seq(events@);
    let ghost start = tree@;
    let mut grown = tree;
    let mut i: usize = 0;
    while i < events.len()
        invariant
            i <= events@.len(),
            all == views::of_seq(events@),
            start == tree@,
            grown.wf(),
            foldable(start, all.take(i as int)),
            grown@ == folded(start, all.take(i as int)),
        decreases events@.len() - i,
    {
        proof {
            assert(all.take(i + 1).drop_last() =~= all.take(i as int));
            assert(all.take(i + 1).last() == events@[i as int]@);
        }
        let ghost before = grown@;
        if !try_apply(&mut grown, &events[i]) {
            proof {
                let tried = all.take(i + 1);
                assert(before == folded(start, tried.drop_last()));
                assert(!applicable(before, tried.last()));
                assert(!foldable(start, tried));
                if foldable(start, all) {
                    lemma_foldable_prefix(start, all, i + 1);
                }
            }
            return None;
        }
        i += 1;
    }
    assert(all.take(i as int) =~= all);
    Some(grown)
}

/// Applies events one after the other.
pub fn fold_goal_events(tree: GoalTree, events: &[GoalEvent]) -> (r: GoalTree)
    requires
        tree.wf(),
        foldable(tree@, views::of_seq(events@)),
    ensures
        r.wf(),
        r@ == folded(tree@, views::of_seq(events@)),
{
    let ghost all = views::of_seq(events@);
    let ghost start = tree@;
    let mut tree = tree;
    let mut i: usize = 0;
    while i < events.len()
        invariant
            i <= events@.len(),
            all == views::of_seq(events@),
            tree.wf(),
            foldable(start, all),
            tree@ == folded(start, all.take(i as int)),
        decreases events@.len() - i,
    {
        proof {
            lemma_foldable_prefix(start, all, i + 1);
            assert(all.take(i + 1).drop_last() =~= all.take(i as int));
            assert(all.take(i + 1).last() == events@[i as int]@);
        }
        apply_goal_event(&mut tree, &events[i]);
        i += 1;
    }
    assert(all.take(i as int) =~= all);
    tree
}

/// A beginning of a foldable sequence is foldable.
pub proof fn lemma_foldable_prefix(tree: GoalTreeView, events: Seq<GoalEventView>, n: int)
    requires
        foldable(tree, events),
        0 <= n <= events.len(),
    ensures
        foldable(tree, events.take(n)),
    decreases events.len(),
{
    if n == events.len() {
        assert(events.take(n) =~= events);
    } else {
        lemma_foldable_prefix(tree, events.drop_last(), n);
        assert(events.drop_last().take(n) =~= events.take(n));
    }
}

} // verus!
