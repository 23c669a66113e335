//! Questions about trees whose child lists may run in a circle, where some have no
//! answer.

use vstd::prelude::*;

use crate::goal_model::closing_laws;
use crate::goal_model::fold;
use crate::goal_model::model::{GoalEvent, GoalNode, GoalNodeView};
use crate::goal_model::store;
use crate::goal_model::store::ClosurePlan;
use crate::goal_model::subtree_hash;
use crate::goal_model::tree::GoalTree;
use crate::types::{GoalNodeId, SessionId, SubtreeHash};
use crate::views;

verus! {

/// Whether a node is there and resolved.
spec fn resolved(nodes: Map<Seq<char>, GoalNodeView>, id: Seq<char>) -> bool {
    nodes.dom().contains(id) && !nodes[id].is_open()
}

/// Whether the way led through resolved nodes of the tree and met none twice.
spec fn way(nodes: Map<Seq<char>, GoalNodeView>, path: Seq<Seq<char>>) -> bool {
    &&& path.no_duplicates()
    &&& forall|i: int| 0 <= i < path.len() ==> resolved(nodes, #[trigger] path[i])
}

proof fn lemma_way_bounded(nodes: Map<Seq<char>, GoalNodeView>, path: Seq<Seq<char>>)
    requires
        nodes.dom().finite(),
        way(nodes, path),
    ensures
        path.len() <= nodes.dom().len(),
{
    path.unique_seq_to_set();
    assert forall|k: Seq<char>| path.to_set().contains(k) implies nodes.dom().contains(k) by {
        let i = choose|i: int| 0 <= i < path.len() && path[i] == k;
        assert(resolved(nodes, path[i]));
    }
    vstd::set_lib::lemma_len_subset(path.to_set(), nodes.dom());
}

/// Goes one step on, to a resolved node that was not met yet.
proof fn lemma_step_on(
    nodes: Map<Seq<char>, GoalNodeView>,
    path: Seq<Seq<char>>,
    id: Seq<char>,
)
    requires
        nodes.dom().finite(),
        way(nodes, path),
        resolved(nodes, id),
        !path.contains(id),
    ensures
        way(nodes, path.push(id)),
        path.len() + 1 <= nodes.dom().len(),
{
    let longer = path.push(id);
    assert forall|i: int, j: int| 0 <= i < longer.len() && 0 <= j < longer.len() && i
        != j implies longer[i] != longer[j] by {
        if i < path.len() {
            assert(path.contains(path[i]));
        }
        if j < path.len() {
            assert(path.contains(path[j]));
        }
    }
    assert forall|i: int| 0 <= i < longer.len() implies resolved(nodes, #[trigger] longer[i]) by {
        if i < path.len() {
            assert(resolved(nodes, path[i]));
        }
    }
    lemma_way_bounded(nodes, longer);
}

/// Whether each node on the way lists the next.
spec fn listed(nodes: Map<Seq<char>, GoalNodeView>, path: Seq<Seq<char>>) -> bool {
    forall|i: int|
        0 <= i < path.len() - 1 ==> nodes[#[trigger] path[i]].children.contains(path[i + 1])
}

/// Whether the resolved nodes below the listed ones end.
spec fn below_ends(nodes: Map<Seq<char>, GoalNodeView>, ids: Seq<Seq<char>>) -> bool {
    exists|depth: nat| (#[trigger] subtree_hash::child_hashes_within(nodes, ids, depth)) is Some
}

proof fn lemma_listed_hash(
    nodes: Map<Seq<char>, GoalNodeView>,
    ids: Seq<Seq<char>>,
    id: Seq<char>,
    depth: nat,
)
    requires
        subtree_hash::child_hashes_within(nodes, ids, depth) is Some,
        ids.contains(id),
        resolved(nodes, id),
    ensures
        subtree_hash::hash_within(nodes, nodes[id], depth) is Some,
    decreases ids.len(),
{
    if ids.last() != id {
        let i = choose|i: int| 0 <= i < ids.len() && ids[i] == id;
        assert(ids.drop_last()[i] == id);
        lemma_listed_hash(nodes, ids.drop_last(), id, depth);
    }
}

proof fn lemma_hash_descends(
    nodes: Map<Seq<char>, GoalNodeView>,
    path: Seq<Seq<char>>,
    i: int,
    depth: nat,
)
    requires
        way(nodes, path),
        listed(nodes, path),
        0 <= i < path.len(),
        subtree_hash::hash_within(nodes, nodes[path[i]], depth) is Some,
    ensures
        depth >= path.len() - i,
        subtree_hash::hash_within(
            nodes,
            nodes[path.last()],
            (depth - (path.len() - 1 - i)) as nat,
        ) is Some,
    decreases path.len() - i,
{
    if i < path.len() - 1 {
        assert(resolved(nodes, path[i + 1]));
        lemma_listed_hash(nodes, nodes[path[i]].children, path[i + 1], (depth - 1) as nat);
        lemma_hash_descends(nodes, path, i + 1, (depth - 1) as nat);
    }
}

/// A way that comes round to a node it met has no end.
proof fn lemma_hash_circle(
    nodes: Map<Seq<char>, GoalNodeView>,
    path: Seq<Seq<char>>,
    ids: Seq<Seq<char>>,
    i: int,
    depth: nat,
)
    requires
        way(nodes, path),
        listed(nodes, path),
        0 <= i < path.len(),
        ids == nodes[path.last()].children,
        ids.contains(path[i]),
    ensures
        subtree_hash::child_hashes_within(nodes, ids, depth) is None,
    decreases depth,
{
    if subtree_hash::child_hashes_within(nodes, ids, depth) is Some {
        assert(resolved(nodes, path[i]));
        lemma_listed_hash(nodes, ids, path[i], depth);
        lemma_hash_descends(nodes, path, i, depth);
        let left = (depth - (path.len() - 1 - i)) as nat;
        lemma_hash_circle(nodes, path, ids, i, (left - 1) as nat);
    }
}

/// Whether the resolved nodes below the listed ones end, found along one way at a
/// time.
fn resolved_part_ends(
    tree: &GoalTree,
    ids: &Vec<GoalNodeId>,
    path: &mut Vec<GoalNodeId>,
) -> (r: bool)
    requires
        tree.wf(),
        tree@.nodes.dom().finite(),
        way(tree@.nodes, views::of_seq(old(path)@)),
        listed(tree@.nodes, views::of_seq(old(path)@)),
        old(path)@.len() > 0 ==> tree@.nodes[old(path)@.last()@].children == views::of_seq(ids@),
    ensures
        views::of_seq(final(path)@) == views::of_seq(old(path)@),
        r == below_ends(tree@.nodes, views::of_seq(ids@)),
    decreases tree@.nodes.dom().len() - old(path)@.len(),
{
    let ghost nodes = tree@.nodes;
    let ghost all = views::of_seq(ids@);
    let ghost trail = views::of_seq(path@);
    let ghost mut depth: nat = 0;
    let mut i: usize = 0;
    assert(all.take(0) =~= Seq::<Seq<char>>::empty());
    while i < ids.len()
        invariant
            tree.wf(),
            nodes == tree@.nodes,
            nodes.dom().finite(),
            i <= ids@.len(),
            all == views::of_seq(ids@),
            trail == views::of_seq(path@),
            trail == views::of_seq(old(path)@),
            way(nodes, trail),
            listed(nodes, trail),
            trail.len() > 0 ==> nodes[trail.last()].children == all,
            subtree_hash::child_hashes_within(nodes, all.take(i as int), depth) is Some,
        decreases ids@.len() - i,
    {
        let ghost id = ids@[i as int]@;
        proof {
            assert(all[i as int] == id);
            assert(all.contains(id));
            assert(all.take(i + 1).drop_last() =~= all.take(i as int));
            assert(all.take(i + 1).last() == id);
        }
        match tree.node(&ids[i]) {
            Some(child) => {
                if !child.is_open() {
                    if fold::contains_id(path, &ids[i]) {
                        proof {
                            let k = choose|k: int| 0 <= k < trail.len() && trail[k] == id;
                            assert forall|d: nat| (
                            #[trigger] subtree_hash::child_hashes_within(nodes, all, d)) is None by {
                                lemma_hash_circle(nodes, trail, all, k, d);
                            }
                        }
                        return false;
                    }
                    proof {
                        lemma_step_on(nodes, trail, id);
                    }
                    path.push(ids[i].clone());
                    proof {
                        assert(views::of_seq(path@) =~= trail.push(id));
                        lemma_listed_on(nodes, trail, id);
                    }
                    let ends = resolved_part_ends(tree, &child.children, path);
                    let ghost longer = views::of_seq(path@);
                    let _ = path.pop();
                    assert(views::of_seq(path@) =~= trail) by {
                        assert(longer =~= trail.push(id));
                        assert(views::of_seq(path@) =~= longer.drop_last());
                    }
                    if !ends {
                        proof {
                            assert forall|d: nat| (
                            #[trigger] subtree_hash::child_hashes_within(nodes, all, d)) is None by {
                                if subtree_hash::child_hashes_within(nodes, all, d) is Some {
                                    lemma_listed_hash(nodes, all, id, d);
                                    assert(subtree_hash::child_hashes_within(
                                        nodes,
                                        nodes[id].children,
                                        (d - 1) as nat,
                                    ) is Some);
                                }
                            }
                        }
                        return false;
                    }
                    proof {
                        let e = choose|e: nat|
                            (#[trigger] subtree_hash::child_hashes_within(
                                nodes,
                                nodes[id].children,
                                e,
                            )) is Some;
                        assert(subtree_hash::hash_within(nodes, nodes[id], e + 1) is Some);
                        let deeper = if depth > e + 1 {
                            depth
                        } else {
                            e + 1
                        };
                        subtree_hash::lemma_hash_deeper(nodes, nodes[id], e + 1, deeper);
                        subtree_hash::lemma_child_hashes_deeper(
                            nodes,
                            all.take(i as int),
                            depth,
                            deeper,
                        );
                        depth = deeper;
                    }
                }
            },
            None => {},
        }
        i += 1;
    }
    assert(all.take(i as int) =~= all);
    true
}

proof fn lemma_listed_on(
    nodes: Map<Seq<char>, GoalNodeView>,
    path: Seq<Seq<char>>,
    id: Seq<char>,
)
    requires
        listed(nodes, path),
        path.len() > 0 ==> nodes[path.last()].children.contains(id),
    ensures
        listed(nodes, path.push(id)),
{
    let longer = path.push(id);
    assert forall|i: int| 0 <= i < longer.len() - 1 implies nodes[
        #[trigger] longer[i]].children.contains(longer[i + 1]) by {
        assert(longer[i] == path[i]);
    }
}

/// The content hash of a node's resolved subtree, or nothing where the child lists
/// run in a circle.
pub fn try_subtree_hash(node: &GoalNode, tree: &GoalTree) -> (r: Option<SubtreeHash>)
    requires
        tree.wf(),
    ensures
        r is Some <==> subtree_hash::hashable(tree@.nodes, node@),
        r matches Some(hash) ==> hash@ == subtree_hash::hash_of(tree@.nodes, node@),
{
    let _ = tree.len();
    let mut path: Vec<GoalNodeId> = Vec::new();
    assert(views::of_seq(path@) =~= Seq::<Seq<char>>::empty());
    let ends = resolved_part_ends(tree, &node.children, &mut path);
    let ghost nodes = tree@.nodes;
    if ends {
        proof {
            let d = choose|d: nat|
                (#[trigger] subtree_hash::child_hashes_within(nodes, node@.children, d)) is Some;
            assert(subtree_hash::hash_within(nodes, node@, d + 1) is Some);
        }
        Some(subtree_hash::subtree_hash(node, tree))
    } else {
        proof {
            if subtree_hash::hashable(nodes, node@) {
                let d = subtree_hash::hash_depth(nodes, node@);
                assert(subtree_hash::child_hashes_within(
                    nodes,
                    node@.children,
                    (d - 1) as nat,
                ) is Some);
            }
        }
        None
    }
}

/// Whether the subtree below a node is found closed.
spec fn closed(nodes: Map<Seq<char>, GoalNodeView>, id: Seq<char>) -> bool {
    store::closure_decided(nodes, id) && store::fully_closed(nodes, id)
}

/// Whether the listed nodes, asked in order, are asked up to the one at `i`.
spec fn asked_up_to(
    nodes: Map<Seq<char>, GoalNodeView>,
    ids: Seq<Seq<char>>,
    i: int,
) -> bool {
    forall|j: int| 0 <= j < i ==> closed(nodes, #[trigger] ids[j])
}

/// Whether the listed nodes, asked in order, are asked up to this one.
spec fn leads_to(
    nodes: Map<Seq<char>, GoalNodeView>,
    ids: Seq<Seq<char>>,
    id: Seq<char>,
) -> bool {
    exists|i: int|
        0 <= i < ids.len() && (#[trigger] ids[i]) == id && asked_up_to(nodes, ids, i)
}

/// Whether each node on the way asks the next.
spec fn asking(nodes: Map<Seq<char>, GoalNodeView>, path: Seq<Seq<char>>) -> bool {
    forall|i: int|
        0 <= i < path.len() - 1 ==> leads_to(
            nodes,
            nodes[#[trigger] path[i]].children,
            path[i + 1],
        )
}

proof fn lemma_asked_at(
    nodes: Map<Seq<char>, GoalNodeView>,
    ids: Seq<Seq<char>>,
    i: int,
    depth: nat,
)
    requires
        store::all_closed_within(nodes, ids, depth) is Some,
        0 <= i < ids.len(),
        asked_up_to(nodes, ids, i),
    ensures
        store::closed_within(nodes, ids[i], depth) is Some,
    decreases i,
{
    if i > 0 {
        assert(closed(nodes, ids[0]));
        store::lemma_fully_closed(nodes, ids[0], depth);
        let rest = ids.drop_first();
        assert forall|j: int| 0 <= j < i - 1 implies closed(nodes, #[trigger] rest[j]) by {
            assert(rest[j] == ids[j + 1]);
        }
        lemma_asked_at(nodes, rest, i - 1, depth);
    }
}

proof fn lemma_asked(
    nodes: Map<Seq<char>, GoalNodeView>,
    ids: Seq<Seq<char>>,
    id: Seq<char>,
    depth: nat,
)
    requires
        store::all_closed_within(nodes, ids, depth) is Some,
        leads_to(nodes, ids, id),
    ensures
        store::closed_within(nodes, id, depth) is Some,
{
    let i = choose|i: int|
        0 <= i < ids.len() && (#[trigger] ids[i]) == id && asked_up_to(nodes, ids, i);
    lemma_asked_at(nodes, ids, i, depth);
}

proof fn lemma_closed_descends(
    nodes: Map<Seq<char>, GoalNodeView>,
    path: Seq<Seq<char>>,
    i: int,
    depth: nat,
)
    requires
        way(nodes, path),
        asking(nodes, path),
        0 <= i < path.len(),
        store::closed_within(nodes, path[i], depth) is Some,
    ensures
        depth >= path.len() - i,
        store::closed_within(
            nodes,
            path.last(),
            (depth - (path.len() - 1 - i)) as nat,
        ) is Some,
    decreases path.len() - i,
{
    assert(resolved(nodes, path[i]));
    if i < path.len() - 1 {
        lemma_asked(nodes, nodes[path[i]].children, path[i + 1], (depth - 1) as nat);
        lemma_closed_descends(nodes, path, i + 1, (depth - 1) as nat);
    }
}

/// A way that comes round to a node it met finds no answer.
proof fn lemma_closed_circle(
    nodes: Map<Seq<char>, GoalNodeView>,
    path: Seq<Seq<char>>,
    ids: Seq<Seq<char>>,
    i: int,
    depth: nat,
)
    requires
        way(nodes, path),
        asking(nodes, path),
        0 <= i < path.len(),
        ids == nodes[path.last()].children,
        leads_to(nodes, ids, path[i]),
    ensures
        store::all_closed_within(nodes, ids, depth) is None,
    decreases depth,
{
    if store::all_closed_within(nodes, ids, depth) is Some {
        lemma_asked(nodes, ids, path[i], depth);
        lemma_closed_descends(nodes, path, i, depth);
        assert(resolved(nodes, path[path.len() - 1]));
        let left = (depth - (path.len() - 1 - i)) as nat;
        lemma_closed_circle(nodes, path, ids, i, (left - 1) as nat);
    }
}

/// Where every listed node before the one at `i` is closed and that one is not, or
/// there is none at `i`, the answer is reached.
proof fn lemma_answered(
    nodes: Map<Seq<char>, GoalNodeView>,
    ids: Seq<Seq<char>>,
    i: int,
    depth: nat,
) -> (reached: nat)
    requires
        0 <= i <= ids.len(),
        asked_up_to(nodes, ids, i),
        i < ids.len() ==> store::closed_within(nodes, ids[i], depth) == Some(false),
    ensures
        store::all_closed_within(nodes, ids, reached) == Some(i == ids.len()),
    decreases ids.len(),
{
    if ids.len() == 0 || i == 0 {
        depth
    } else {
        let rest = ids.drop_first();
        assert forall|j: int| 0 <= j < i - 1 implies closed(nodes, #[trigger] rest[j]) by {
            assert(rest[j] == ids[j + 1]);
        }
        if i < ids.len() {
            assert(rest[i - 1] == ids[i]);
        }
        let later = lemma_answered(nodes, rest, i - 1, depth);
        assert(closed(nodes, ids[0]));
        let first = store::closure_depth(nodes, ids[0]);
        let deeper = if later > first {
            later
        } else {
            first
        };
        store::lemma_closed_deeper(nodes, ids[0], first, deeper);
        store::lemma_all_closed_deeper(nodes, rest, later, deeper);
        deeper
    }
}

proof fn lemma_asking_on(
    nodes: Map<Seq<char>, GoalNodeView>,
    path: Seq<Seq<char>>,
    id: Seq<char>,
)
    requires
        asking(nodes, path),
        path.len() > 0,
        leads_to(nodes, nodes[path.last()].children, id),
    ensures
        asking(nodes, path.push(id)),
{
    let longer = path.push(id);
    assert forall|i: int| 0 <= i < longer.len() - 1 implies leads_to(
        nodes,
        nodes[#[trigger] longer[i]].children,
        longer[i + 1],
    ) by {
        assert(longer[i] == path[i]);
    }
}

/// Whether all of the listed nodes are closed, found along one way at a time.
fn all_closed_below(
    tree: &GoalTree,
    ids: &Vec<GoalNodeId>,
    path: &mut Vec<GoalNodeId>,
) -> (r: Option<bool>)
    requires
        tree.wf(),
        tree@.nodes.dom().finite(),
        way(tree@.nodes, views::of_seq(old(path)@)),
        asking(tree@.nodes, views::of_seq(old(path)@)),
        old(path)@.len() > 0,
        tree@.nodes[old(path)@.last()@].children == views::of_seq(ids@),
    ensures
        views::of_seq(final(path)@) == views::of_seq(old(path)@),
        r matches Some(answer) ==> exists|depth: nat| #[trigger]
            store::all_closed_within(tree@.nodes, views::of_seq(ids@), depth) == Some(answer),
        r is None ==> forall|depth: nat|
            (#[trigger] store::all_closed_within(
                tree@.nodes,
                views::of_seq(ids@),
                depth,
            )) is None,
    decreases tree@.nodes.dom().len() - old(path)@.len(),
{
    let ghost nodes = tree@.nodes;
    let ghost all = views::of_seq(ids@);
    let ghost trail = views::of_seq(path@);
    let mut i: usize = 0;
    while i < ids.len()
        invariant
            tree.wf(),
            nodes == tree@.nodes,
            nodes.dom().finite(),
            i <= ids@.len(),
            all == views::of_seq(ids@),
            trail == views::of_seq(path@),
            trail == views::of_seq(old(path)@),
            way(nodes, trail),
            asking(nodes, trail),
            trail.len() > 0,
            nodes[trail.last()].children == all,
            asked_up_to(nodes, all, i as int),
        decreases ids@.len() - i,
    {
        let ghost id = ids@[i as int]@;
        assert(all[i as int] == id);
        assert(leads_to(nodes, all, id));
        let open: bool = match tree.node(&ids[i]) {
            Some(child) => child.is_open(),
            None => true,
        };
        if open {
            proof {
                assert(store::closed_within(nodes, id, 0) == Some(false));
                let _ = lemma_answered(nodes, all, i as int, 0);
            }
            return Some(false);
        }
        if fold::contains_id(path, &ids[i]) {
            proof {
                let k = choose|k: int| 0 <= k < trail.len() && trail[k] == id;
                assert forall|d: nat| (
                #[trigger] store::all_closed_within(nodes, all, d)) is None by {
                    lemma_closed_circle(nodes, trail, all, k, d);
                }
            }
            return None;
        }
        let below: Option<bool> = match tree.node(&ids[i]) {
            Some(child) => {
                proof {
                    lemma_step_on(nodes, trail, id);
                }
                path.push(ids[i].clone());
                proof {
                    assert(views::of_seq(path@) =~= trail.push(id));
                    lemma_asking_on(nodes, trail, id);
                }
                let below = all_closed_below(tree, &child.children, path);
                let ghost longer = views::of_seq(path@);
                let _ = path.pop();
                assert(views::of_seq(path@) =~= trail) by {
                    assert(longer =~= trail.push(id));
                    assert(views::of_seq(path@) =~= longer.drop_last());
                }
                below
            },
            None => Some(false),
        };
        match below {
            None => {
                proof {
                    assert forall|d: nat| (
                    #[trigger] store::all_closed_within(nodes, all, d)) is None by {
                        if store::all_closed_within(nodes, all, d) is Some {
                            lemma_asked(nodes, all, id, d);
                            assert(store::all_closed_within(
                                nodes,
                                nodes[id].children,
                                (d - 1) as nat,
                            ) is Some);
                        }
                    }
                }
                return None;
            },
            Some(answer) => {
                proof {
                    let e = choose|e: nat| #[trigger]
                        store::all_closed_within(nodes, nodes[id].children, e) == Some(answer);
                    assert(store::closed_within(nodes, id, e + 1) == Some(answer));
                    store::lemma_fully_closed(nodes, id, e + 1);
                    if !answer {
                        let _ = lemma_answered(nodes, all, i as int, e + 1);
                    }
                }
                if !answer {
                    return Some(false);
                }
            },
        }
        i += 1;
    }
    proof {
        let _ = lemma_answered(nodes, all, i as int, 0);
    }
    Some(true)
}

/// Whether a node and everything below it is resolved, or nothing where the child
/// lists run in a circle before that is found. An absent node is not closed.
pub fn try_subtree_fully_closed(tree: &GoalTree, id: &GoalNodeId) -> (r: Option<bool>)
    requires
        tree.wf(),
    ensures
        r is Some <==> store::closure_decided(tree@.nodes, id@),
        r matches Some(answer) ==> answer == store::fully_closed(tree@.nodes, id@),
        r matches Some(answer) ==> answer == closing_laws::all_resolved(tree@.nodes, id@),
{
    let _ = tree.len();
    let ghost nodes = tree@.nodes;
    let node = match tree.node(id) {
        Some(node) => node,
        None => {
            proof {
                store::lemma_fully_closed(nodes, id@, 0);
                closing_laws::law_closed_means_all_resolved(nodes, id@);
            }
            return Some(false);
        },
    };
    if node.is_open() {
        proof {
            store::lemma_fully_closed(nodes, id@, 0);
            closing_laws::law_closed_means_all_resolved(nodes, id@);
        }
        return Some(false);
    }
    let mut path: Vec<GoalNodeId> = Vec::new();
    path.push(id.clone());
    assert(views::of_seq(path@) =~= seq![id@]);
    let r = all_closed_below(tree, &node.children, &mut path);
    proof {
        match r {
            Some(answer) => {
                let e = choose|e: nat| #[trigger]
                    store::all_closed_within(nodes, node@.children, e) == Some(answer);
                assert(store::closed_within(nodes, id@, e + 1) == Some(answer));
                store::lemma_fully_closed(nodes, id@, e + 1);
                closing_laws::law_closed_means_all_resolved(nodes, id@);
            },
            None => {
                if store::closure_decided(nodes, id@) {
                    let d = store::closure_depth(nodes, id@);
                    assert(store::all_closed_within(
                        nodes,
                        node@.children,
                        (d - 1) as nat,
                    ) is Some);
                }
            },
        }
    }
    r
}

/// Decides what follows a recorded resolution as [`store::plan_closure`] does, or
/// nothing where the child lists run in a circle.
pub fn try_plan_closure(
    tree: &GoalTree,
    events: &Vec<GoalEvent>,
    session: &SessionId,
    id: &GoalNodeId,
) -> (r: Option<ClosurePlan>)
    requires
        tree.wf(),
    ensures
        r is Some <==> store::closure_decided(tree@.nodes, id@),
        r matches Some(plan) ==> store::planned(
            tree@,
            views::of_seq(events@),
            session@,
            id@,
            plan,
        ),
{
    match try_subtree_fully_closed(tree, id) {
        Some(_) => Some(store::plan_closure(tree, events, session, id)),
        None => None,
    }
}

} // verus!
