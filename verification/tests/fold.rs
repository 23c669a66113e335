//! Folding events into a tree.

use halter_goals::goal_model::{
    apply_goal_event, fold_goal_events, subtree_hash, GoalEvent, GoalNodeRevision, GoalTree,
    Resolution,
};
use halter_goals::types::{
    CanonicalJson, GoalNodeId, IntentSignature, IntentType, OutcomeRef, Scope, Sha256, SubtreeHash,
    TargetRef, TargetType, ToolCall, ToolName, ValidityToken,
};

fn intent(target: &str) -> IntentSignature {
    IntentSignature {
        intent_type: IntentType::from("lookup"),
        target_type: TargetType::from("file"),
        target_ref: TargetRef::from(target),
        scope: Scope::from("repo"),
    }
}

fn tool_call(path: &str) -> ToolCall {
    ToolCall {
        tool: ToolName::from("read_file"),
        normalized_args: CanonicalJson(format!("{{\"path\":\"{path}\"}}")),
        validity_token: ValidityToken::ContentHash(Sha256::from("abc")),
        outcome: OutcomeRef::from("outcome://1"),
    }
}

fn created(id: &str, parent: Option<&str>) -> GoalEvent {
    GoalEvent::GoalNodeCreated {
        id: GoalNodeId::from(id),
        parent: parent.map(GoalNodeId::from),
        hypothesis: format!("hypothesis {id}"),
        intent: intent(id),
    }
}

fn resolved(id: &str, resolution: Resolution) -> GoalEvent {
    GoalEvent::GoalNodeResolved {
        id: GoalNodeId::from(id),
        resolution,
    }
}

fn closed(id: &str) -> GoalEvent {
    GoalEvent::GoalClosed {
        id: GoalNodeId::from(id),
        subtree_hash: SubtreeHash(Sha256::from("ignored")),
    }
}

#[test]
fn created_inserts_open_node_and_links_parent_once() {
    let events = vec![created("root", None), created("child", Some("root"))];
    let tree = fold_goal_events(GoalTree::new(), &events);

    let root = tree.node(&GoalNodeId::from("root")).expect("root exists");
    assert!(root.is_open());
    assert_eq!(root.children, vec![GoalNodeId::from("child")]);
    assert_eq!(root.hypothesis, "hypothesis root");
    assert!(root.subtree_hash.is_none());

    let child = tree.node(&GoalNodeId::from("child")).expect("child exists");
    assert_eq!(child.parent, Some(GoalNodeId::from("root")));
    assert!(child.children.is_empty());
    assert!(child.resolution_conditions.is_empty());
    assert!(child.tool_calls.is_empty());

    assert_eq!(tree.root(), Some(&GoalNodeId::from("root")));
    assert_eq!(tree.len(), 2);
}

#[test]
fn revision_layers_delta() {
    let events = vec![
        created("n1", None),
        GoalEvent::GoalNodeRevised {
            id: GoalNodeId::from("n1"),
            revision: GoalNodeRevision {
                resolution_conditions: Some(vec!["cond".to_owned()]),
                tool_calls: Some(vec![tool_call("n1")]),
                children: None,
            },
        },
    ];
    let tree = fold_goal_events(GoalTree::new(), &events);
    let node = tree.node(&GoalNodeId::from("n1")).unwrap();
    assert_eq!(node.resolution_conditions, vec!["cond".to_owned()]);
    assert_eq!(node.tool_calls.len(), 1);
}

#[test]
fn goal_closed_stamps_subtree_hash() {
    let events = vec![
        created("n1", None),
        resolved("n1", Resolution::Accepted),
        closed("n1"),
    ];
    let tree = fold_goal_events(GoalTree::new(), &events);
    let node = tree.node(&GoalNodeId::from("n1")).unwrap();
    assert!(node.subtree_hash.is_some(), "GoalClosed must stamp subtree_hash");

    let expected = subtree_hash(node, &tree);
    assert_eq!(node.subtree_hash.as_ref(), Some(&expected));
}

#[test]
fn reopen_clears_subtree_hash() {
    let events = vec![
        created("n1", None),
        resolved("n1", Resolution::Accepted),
        closed("n1"),
    ];
    let mut tree = fold_goal_events(GoalTree::new(), &events);
    assert!(tree.node(&GoalNodeId::from("n1")).unwrap().subtree_hash.is_some());

    apply_goal_event(&mut tree, &resolved("n1", Resolution::Open));
    let node = tree.node(&GoalNodeId::from("n1")).unwrap();
    assert!(node.is_open());
    assert!(node.subtree_hash.is_none(), "re-open must supersede closure");
}

#[test]
fn reopening_descendant_clears_ancestor_closure() {
    let events = vec![
        created("root", None),
        created("child", Some("root")),
        resolved("child", Resolution::Accepted),
        resolved("root", Resolution::Accepted),
        closed("child"),
        closed("root"),
    ];
    let mut tree = fold_goal_events(GoalTree::new(), &events);
    assert!(tree.node(&GoalNodeId::from("root")).unwrap().subtree_hash.is_some());
    assert!(tree.node(&GoalNodeId::from("child")).unwrap().subtree_hash.is_some());

    apply_goal_event(&mut tree, &resolved("child", Resolution::Open));
    assert!(
        tree.node(&GoalNodeId::from("child")).unwrap().subtree_hash.is_none(),
        "re-opened child clears its own closure"
    );
    assert!(
        tree.node(&GoalNodeId::from("root")).unwrap().subtree_hash.is_none(),
        "re-opened descendant supersedes ancestor closure"
    );
}

#[test]
fn unknown_node_events_are_noops() {
    let mut tree = fold_goal_events(GoalTree::new(), &[created("root", None)]);
    let before = tree.clone();
    apply_goal_event(&mut tree, &resolved("ghost", Resolution::Accepted));
    apply_goal_event(&mut tree, &closed("ghost"));
    apply_goal_event(
        &mut tree,
        &GoalEvent::GoalNodeRevised {
            id: GoalNodeId::from("ghost"),
            revision: GoalNodeRevision {
                resolution_conditions: Some(vec!["x".to_owned()]),
                tool_calls: None,
                children: None,
            },
        },
    );
    assert_eq!(tree, before, "events for absent nodes are no-ops");
}

#[test]
fn fold_is_deterministic_across_replays() {
    let events = vec![
        created("root", None),
        created("a", Some("root")),
        created("b", Some("root")),
        resolved("a", Resolution::Accepted),
        resolved("b", Resolution::Rejected),
        closed("a"),
        closed("b"),
        resolved("root", Resolution::Accepted),
        closed("root"),
    ];
    let t1 = fold_goal_events(GoalTree::new(), &events);
    let t2 = fold_goal_events(GoalTree::new(), &events);
    assert_eq!(t1, t2, "folding the same sequence reproduces the same tree");

    for id in ["root", "a", "b"] {
        let h1 = t1.node(&GoalNodeId::from(id)).unwrap().subtree_hash.clone();
        let h2 = t2.node(&GoalNodeId::from(id)).unwrap().subtree_hash.clone();
        assert_eq!(h1, h2);
        assert!(h1.is_some(), "closed node {id} carries a subtree_hash");
    }
}

#[test]
fn tool_calls_are_only_populated_via_revise_never_auto_populated() {
    let events = vec![
        created("root", None),
        created("child", Some("root")),
        resolved("child", Resolution::Accepted),
        resolved("root", Resolution::Accepted),
        closed("child"),
        closed("root"),
    ];
    let tree = fold_goal_events(GoalTree::new(), &events);
    for id in ["root", "child"] {
        let node = tree.node(&GoalNodeId::from(id)).unwrap();
        assert!(
            node.tool_calls.is_empty(),
            "no non-revise event may populate tool_calls for {id}"
        );
    }

    let mut tree = tree;
    apply_goal_event(
        &mut tree,
        &GoalEvent::GoalNodeRevised {
            id: GoalNodeId::from("child"),
            revision: GoalNodeRevision {
                resolution_conditions: None,
                tool_calls: Some(vec![tool_call("child")]),
                children: None,
            },
        },
    );
    assert_eq!(
        tree.node(&GoalNodeId::from("child")).unwrap().tool_calls.len(),
        1,
        "the revise action is the sole tool_calls write path"
    );

    apply_goal_event(
        &mut tree,
        &GoalEvent::GoalNodeRevised {
            id: GoalNodeId::from("child"),
            revision: GoalNodeRevision {
                resolution_conditions: Some(vec!["another condition".to_owned()]),
                tool_calls: None,
                children: None,
            },
        },
    );
    assert_eq!(
        tree.node(&GoalNodeId::from("child")).unwrap().tool_calls.len(),
        1,
        "a revise without tool_calls must not disturb the curated projection"
    );
}

#[test]
fn duplicate_created_does_not_double_link_parent() {
    let mut tree = fold_goal_events(
        GoalTree::new(),
        &[created("root", None), created("child", Some("root"))],
    );
    apply_goal_event(&mut tree, &created("child", Some("root")));
    assert_eq!(
        tree.node(&GoalNodeId::from("root")).unwrap().children,
        vec![GoalNodeId::from("child")]
    );
}

fn assert_consistent(tree: &GoalTree, ids: &[&str]) {
    for id in ids {
        let node = tree.node(&GoalNodeId::from(*id)).unwrap();
        if let Some(stored) = &node.subtree_hash {
            assert_eq!(stored, &subtree_hash(node, tree), "{id} stores its own hash");
        }
        for other in ids {
            let other = tree.node(&GoalNodeId::from(*other)).unwrap();
            let listed = node.children.iter().filter(|c| **c == other.id).count();
            let named = other.parent.as_ref() == Some(&node.id);
            assert_eq!(listed, if named { 1 } else { 0 });
        }
    }
}

#[test]
fn stored_hashes_and_child_lists_stay_consistent() {
    let events = vec![
        created("root", None),
        created("a", Some("root")),
        created("b", Some("root")),
        created("leaf", Some("a")),
        resolved("leaf", Resolution::Accepted),
        closed("leaf"),
        resolved("a", Resolution::Accepted),
        closed("a"),
        resolved("b", Resolution::Rejected),
        closed("b"),
        resolved("root", Resolution::Accepted),
        closed("root"),
        GoalEvent::GoalNodeRevised {
            id: GoalNodeId::from("root"),
            revision: GoalNodeRevision {
                resolution_conditions: None,
                tool_calls: None,
                children: Some(vec![GoalNodeId::from("b"), GoalNodeId::from("a")]),
            },
        },
        closed("root"),
        resolved("leaf", Resolution::Open),
        closed("b"),
    ];
    let ids = ["root", "a", "b", "leaf"];
    for n in 4..=events.len() {
        let tree = fold_goal_events(GoalTree::new(), &events[..n]);
        assert_consistent(&tree, &ids);
    }
    let tree = fold_goal_events(GoalTree::new(), &events);
    assert!(tree.node(&GoalNodeId::from("root")).unwrap().subtree_hash.is_none());
    assert!(tree.node(&GoalNodeId::from("a")).unwrap().subtree_hash.is_none());
    assert!(tree.node(&GoalNodeId::from("b")).unwrap().subtree_hash.is_some());
}
