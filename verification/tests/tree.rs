//! The goal tree.

use halter_goals::goal_model::{GoalNode, GoalTree, Resolution};
use halter_goals::types::{
    CanonicalJson, GoalNodeId, IntentSignature, IntentType, OutcomeRef, Scope, Sha256, TargetRef,
    TargetType, ToolCall, ToolName, ValidityToken,
};

fn sample_intent() -> IntentSignature {
    IntentSignature {
        intent_type: IntentType::from("lookup"),
        target_type: TargetType::from("file"),
        target_ref: TargetRef::from("src/lib.rs"),
        scope: Scope::from("repo"),
    }
}

fn sample_tool_call() -> ToolCall {
    ToolCall {
        tool: ToolName::from("read_file"),
        normalized_args: CanonicalJson("{\"path\":\"src/lib.rs\"}".to_owned()),
        validity_token: ValidityToken::ContentHash(Sha256::from("abc123")),
        outcome: OutcomeRef::from("outcome://1"),
    }
}

fn sample_node(id: &str, parent: Option<&str>) -> GoalNode {
    GoalNode {
        id: GoalNodeId::from(id),
        parent: parent.map(GoalNodeId::from),
        children: Vec::new(),
        hypothesis: "the file exists".to_owned(),
        resolution_conditions: vec!["file readable".to_owned()],
        resolution: Resolution::Open,
        intent: sample_intent(),
        tool_calls: vec![sample_tool_call()],
        subtree_hash: None,
    }
}

#[test]
fn goal_tree_default_is_empty() {
    let tree = GoalTree::new();
    assert!(tree.is_empty());
    assert_eq!(tree.len(), 0);
    assert!(tree.root().is_none());
    assert!(tree.roots().is_empty());
}

#[test]
fn model_goal_tree_insert_sets_root_and_exposes_accessors() {
    let mut tree = GoalTree::new();
    let mut root = sample_node("root", None);
    root.children.push(GoalNodeId::from("child"));
    let child = sample_node("child", Some("root"));

    assert!(tree.insert(root).is_none());
    assert!(tree.insert(child).is_none());

    assert_eq!(tree.len(), 2);
    assert!(!tree.is_empty());
    assert_eq!(tree.root(), Some(&GoalNodeId::from("root")));
    assert!(tree.contains(&GoalNodeId::from("child")));
    assert_eq!(tree.node(&GoalNodeId::from("root")).unwrap().hypothesis, "the file exists");
    assert_eq!(tree.children(&GoalNodeId::from("root")), &[GoalNodeId::from("child")]);
    assert_eq!(tree.children(&GoalNodeId::from("missing")), &[] as &[GoalNodeId]);
    assert_eq!(tree.roots(), vec![&GoalNodeId::from("root")]);
}

#[test]
fn goal_tree_roots_falls_back_to_parentless_nodes() {
    let mut tree = GoalTree::new();
    tree.insert(sample_node("child", Some("ghost")));
    assert!(tree.root().is_none());
    tree.insert(sample_node("orphan", None));
    assert_eq!(tree.roots(), vec![&GoalNodeId::from("orphan")]);
}


#[test]
fn goals_goal_tree_insert_sets_root_and_exposes_accessors() {
    let mut tree = GoalTree::new();
    let mut root = sample_node("root", None);
    root.children.push(GoalNodeId::from("child"));
    let child = sample_node("child", Some("root"));

    assert!(tree.insert(root).is_none());
    assert!(tree.insert(child).is_none());

    assert_eq!(tree.len(), 2);
    assert!(!tree.is_empty());
    assert_eq!(tree.root(), Some(&GoalNodeId::from("root")));
    assert!(tree.contains(&GoalNodeId::from("child")));
    assert_eq!(tree.children(&GoalNodeId::from("root")), &[GoalNodeId::from("child")]);
    assert_eq!(tree.roots(), vec![&GoalNodeId::from("root")]);
}
