//! Deriving intents.

use halter_goals::goal_model::{
    attached_intent, derive_intent, GoalNode, GoalTree, IntentField, IntentInput, Resolution,
};
use halter_goals::types::{
    GoalNodeId, IntentSignature, IntentType, Scope, TargetRef, TargetType,
};

fn full_input() -> IntentInput {
    IntentInput::new("locate", "file", "src/lib.rs", "repo")
}

fn node_with_intent(id: &str, intent: IntentSignature) -> GoalNode {
    GoalNode {
        id: GoalNodeId::from(id),
        parent: None,
        children: Vec::new(),
        hypothesis: "the file exists".to_owned(),
        resolution_conditions: Vec::new(),
        resolution: Resolution::Open,
        intent,
        tool_calls: Vec::new(),
        subtree_hash: None,
    }
}

#[test]
fn derives_all_four_fields_on_success() {
    let sig = derive_intent(&full_input()).expect("all candidates present");
    assert_eq!(sig.intent_type, IntentType::from("locate"));
    assert_eq!(sig.target_type, TargetType::from("file"));
    assert_eq!(sig.target_ref, TargetRef::from("src/lib.rs"));
    assert_eq!(sig.scope, Scope::from("repo"));
}

#[test]
fn trims_surrounding_whitespace_on_resolved_fields() {
    let input = IntentInput::new("  locate  ", "\tfile", "src/lib.rs\n", " repo ");
    let sig = derive_intent(&input).expect("blank-trimmed candidates still resolve");
    assert_eq!(sig.intent_type, IntentType::from("locate"));
    assert_eq!(sig.target_type, TargetType::from("file"));
    assert_eq!(sig.target_ref, TargetRef::from("src/lib.rs"));
    assert_eq!(sig.scope, Scope::from("repo"));
}

#[test]
fn rejects_missing_intent_type_and_names_it() {
    let mut input = full_input();
    input.intent_type = None;
    let err = derive_intent(&input).expect_err("missing field must reject");
    assert_eq!(err.unresolved, vec![IntentField::IntentType]);
    assert!(err.is_unresolved(IntentField::IntentType));
    assert!(!err.is_unresolved(IntentField::Scope));
}

#[test]
fn rejects_blank_target_type_and_names_it() {
    let mut input = full_input();
    input.target_type = Some("   ".to_owned());
    let err = derive_intent(&input).expect_err("blank field must reject");
    assert_eq!(err.unresolved, vec![IntentField::TargetType]);
}

#[test]
fn rejects_missing_target_ref_and_names_it() {
    let mut input = full_input();
    input.target_ref = None;
    let err = derive_intent(&input).expect_err("missing field must reject");
    assert_eq!(err.unresolved, vec![IntentField::TargetRef]);
}

#[test]
fn rejects_missing_scope_and_names_it() {
    let mut input = full_input();
    input.scope = None;
    let err = derive_intent(&input).expect_err("missing field must reject");
    assert_eq!(err.unresolved, vec![IntentField::Scope]);
}

#[test]
fn enumerates_multiple_unresolved_fields_in_canonical_order() {
    let err = derive_intent(&IntentInput::default()).expect_err("empty input must reject");
    assert_eq!(
        err.unresolved,
        vec![
            IntentField::IntentType,
            IntentField::TargetType,
            IntentField::TargetRef,
            IntentField::Scope,
        ]
    );
    let message = err.to_string();
    for field in ["intent_type", "target_type", "target_ref", "scope"] {
        assert!(message.contains(field), "message should mention {field}: {message}");
    }
}

#[test]
fn attached_intent_returns_all_four_fields_for_existing_node() {
    let sig = derive_intent(&full_input()).expect("derive");
    let mut tree = GoalTree::new();
    tree.insert(node_with_intent("n1", sig.clone()));

    let read = attached_intent(&tree, &GoalNodeId::from("n1")).expect("node exists");
    assert_eq!(read, &sig);
    assert_eq!(read.intent_type, IntentType::from("locate"));
    assert_eq!(read.target_type, TargetType::from("file"));
    assert_eq!(read.target_ref, TargetRef::from("src/lib.rs"));
    assert_eq!(read.scope, Scope::from("repo"));
}

#[test]
fn attached_intent_is_none_for_absent_node() {
    let tree = GoalTree::new();
    assert!(attached_intent(&tree, &GoalNodeId::from("missing")).is_none());
}
