//! Trees that may run in a circle, and numbered identifiers.

use halter_goals::goal_model::checked::{
    try_plan_closure, try_subtree_fully_closed, try_subtree_hash,
};
use halter_goals::goal_model::fold::{try_fold_goal_events, way_up_ends};
use halter_goals::goal_model::numbered::numbered_node_id;
use halter_goals::goal_model::store::fresh_node_id;
use halter_goals::goal_model::{
    fold_goal_events, subtree_hash, GoalEvent, GoalNode, GoalNodeRevision, GoalTree, Resolution,
};
use halter_goals::types::{
    GoalNodeId, IntentSignature, IntentType, Scope, SessionId, Sha256, SubtreeHash, TargetRef,
    TargetType,
};

fn id(name: &str) -> GoalNodeId {
    GoalNodeId::from(name)
}

fn intent() -> IntentSignature {
    IntentSignature {
        intent_type: IntentType::from("lookup"),
        target_type: TargetType::from("file"),
        target_ref: TargetRef::from("t"),
        scope: Scope::from("repo"),
    }
}

fn node(name: &str, children: &[&str], resolution: Resolution) -> GoalNode {
    GoalNode {
        id: id(name),
        parent: None,
        children: children.iter().map(|c| id(c)).collect(),
        hypothesis: format!("hypothesis {name}"),
        resolution_conditions: Vec::new(),
        resolution,
        intent: intent(),
        tool_calls: Vec::new(),
        subtree_hash: None,
    }
}

fn tree(nodes: Vec<GoalNode>) -> GoalTree {
    let mut tree = GoalTree::new();
    for n in nodes {
        tree.insert(n);
    }
    tree
}

fn created(name: &str, parent: Option<&str>) -> GoalEvent {
    GoalEvent::GoalNodeCreated {
        id: id(name),
        parent: parent.map(id),
        hypothesis: format!("hypothesis {name}"),
        intent: intent(),
    }
}

fn resolved(name: &str) -> GoalEvent {
    GoalEvent::GoalNodeResolved { id: id(name), resolution: Resolution::Accepted }
}

fn closed(name: &str) -> GoalEvent {
    GoalEvent::GoalClosed { id: id(name), subtree_hash: SubtreeHash(Sha256::from("h")) }
}

fn listing(name: &str, children: &[&str]) -> GoalEvent {
    GoalEvent::GoalNodeRevised {
        id: id(name),
        revision: GoalNodeRevision {
            resolution_conditions: None,
            tool_calls: None,
            children: Some(children.iter().map(|c| id(c)).collect()),
        },
    }
}

#[test]
fn a_circle_of_resolved_nodes_has_no_hash() {
    let t = tree(vec![
        node("a", &["b", "b"], Resolution::Accepted),
        node("b", &["c"], Resolution::Accepted),
        node("c", &["gone", "a"], Resolution::Accepted),
        node("d", &["a"], Resolution::Open),
        node("e", &["d", "f", "f"], Resolution::Accepted),
        node("f", &[], Resolution::Rejected),
    ]);
    for name in ["a", "b", "c", "d"] {
        assert_eq!(try_subtree_hash(t.node(&id(name)).unwrap(), &t), None);
    }
    // An open child ends the way, and a node met on two ways is no circle.
    let e = t.node(&id("e")).unwrap();
    assert_eq!(try_subtree_hash(e, &t), Some(subtree_hash(e, &t)));
}

#[test]
fn closedness_is_found_before_a_circle_or_not_at_all() {
    let t = tree(vec![
        node("a", &["b"], Resolution::Accepted),
        node("b", &["a"], Resolution::Accepted),
        node("early", &["open", "a"], Resolution::Accepted),
        node("late", &["a", "open"], Resolution::Accepted),
        node("open", &["a"], Resolution::Open),
        node("done", &["leaf", "leaf"], Resolution::Accepted),
        node("leaf", &[], Resolution::Rejected),
    ]);
    assert_eq!(try_subtree_fully_closed(&t, &id("a")), None);
    assert_eq!(try_subtree_fully_closed(&t, &id("early")), Some(false));
    assert_eq!(try_subtree_fully_closed(&t, &id("late")), None);
    assert_eq!(try_subtree_fully_closed(&t, &id("open")), Some(false));
    assert_eq!(try_subtree_fully_closed(&t, &id("done")), Some(true));
    assert_eq!(try_subtree_fully_closed(&t, &id("gone")), Some(false));

    let session = SessionId::from("s");
    let plan = try_plan_closure(&t, &Vec::new(), &session, &id("done")).unwrap();
    let hash = subtree_hash(t.node(&id("done")).unwrap(), &t);
    assert_eq!(plan.outcome.subtree_hash, Some(hash));
    assert!(plan.closing.is_some());
    assert!(try_plan_closure(&t, &Vec::new(), &session, &id("late")).is_none());
}

#[test]
fn events_that_run_in_a_circle_cannot_be_folded() {
    let straight = vec![
        created("root", None),
        created("child", Some("root")),
        resolved("child"),
        closed("child"),
        closed("gone"),
    ];
    let folded = try_fold_goal_events(GoalTree::new(), &straight).unwrap();
    assert_eq!(folded, fold_goal_events(GoalTree::new(), &straight));
    assert!(way_up_ends(&folded, &id("child")));
    assert!(way_up_ends(&folded, &id("gone")));

    // A parent that becomes the child of its own child.
    let upward = vec![created("a", None), created("b", Some("a")), created("a", Some("b"))];
    assert!(try_fold_goal_events(GoalTree::new(), &upward).is_none());
    assert!(try_fold_goal_events(GoalTree::new(), &[created("a", Some("a"))]).is_none());

    // Child lists that run in a circle matter once the circle is closed.
    let mut downward = vec![
        created("a", None),
        created("b", None),
        listing("a", &["b"]),
        listing("b", &["a"]),
        resolved("a"),
        resolved("b"),
    ];
    assert!(try_fold_goal_events(GoalTree::new(), &downward).is_some());
    downward.push(closed("a"));
    assert!(try_fold_goal_events(GoalTree::new(), &downward).is_none());
}

#[test]
fn numbered_identifiers_have_the_form_of_random_ones() {
    assert_eq!(numbered_node_id(0).to_string(), "00000000-0000-4000-8000-000000000000");
    assert_eq!(
        numbered_node_id(0x0123_4567_89ab_cdef).to_string(),
        "01234567-89ab-4000-8000-00000000cdef"
    );
    let fresh = fresh_node_id(&GoalTree::new()).to_string();
    let bytes = fresh.as_bytes();
    assert_eq!(bytes.len(), 36);
    assert_eq!(bytes[14], b'4');
    assert!(b"89ab".contains(&bytes[19]));
}
