//! Hashes of subtrees.

use halter_goals::goal_model::{subtree_hash, GoalNode, GoalTree, Resolution};
use halter_goals::types::{
    CanonicalJson, GoalNodeId, IntentSignature, IntentType, OutcomeRef, Scope, Sha256, SubtreeHash,
    TargetRef, TargetType, ToolCall, ToolName, ValidityToken,
};

fn intent(target: &str) -> IntentSignature {
    IntentSignature {
        intent_type: IntentType::from("lookup"),
        target_type: TargetType::from("file"),
        target_ref: TargetRef::from(target),
        scope: Scope::from("repo"),
    }
}

fn tool_call(path: &str) -> ToolCall {
    ToolCall {
        tool: ToolName::from("read_file"),
        normalized_args: CanonicalJson(format!("{{\"path\":\"{path}\"}}")),
        validity_token: ValidityToken::ContentHash(Sha256::from("abc123")),
        outcome: OutcomeRef::from("outcome://1"),
    }
}

fn node(id: &str, parent: Option<&str>, resolution: Resolution) -> GoalNode {
    GoalNode {
        id: GoalNodeId::from(id),
        parent: parent.map(GoalNodeId::from),
        children: Vec::new(),
        hypothesis: format!("hypothesis for {id}"),
        resolution_conditions: vec![format!("cond-{id}")],
        resolution,
        intent: intent(id),
        tool_calls: vec![tool_call(id)],
        subtree_hash: None,
    }
}

fn tree_with(nodes: Vec<GoalNode>) -> GoalTree {
    let mut tree = GoalTree::new();
    for n in nodes {
        tree.insert(n);
    }
    tree
}

#[test]
fn deterministic_across_recomputation() {
    let n = node("root", None, Resolution::Accepted);
    let tree = tree_with(vec![n.clone()]);
    let root = tree.node(&GoalNodeId::from("root")).unwrap();
    let h1 = subtree_hash(root, &tree);
    let h2 = subtree_hash(root, &tree);
    assert_eq!(h1, h2, "recomputation must be identical");
}

#[test]
fn insensitive_to_child_insertion_order() {
    let mut parent_ab = node("root", None, Resolution::Accepted);
    parent_ab.children = vec![GoalNodeId::from("a"), GoalNodeId::from("b")];
    let child_a = node("a", Some("root"), Resolution::Rejected);
    let child_b = node("b", Some("root"), Resolution::Accepted);
    let tree_ab = tree_with(vec![parent_ab, child_a.clone(), child_b.clone()]);
    let h_ab = subtree_hash(tree_ab.node(&GoalNodeId::from("root")).unwrap(), &tree_ab);

    let mut parent_ba = node("root", None, Resolution::Accepted);
    parent_ba.children = vec![GoalNodeId::from("b"), GoalNodeId::from("a")];
    let tree_ba = tree_with(vec![parent_ba, child_a, child_b]);
    let h_ba = subtree_hash(tree_ba.node(&GoalNodeId::from("root")).unwrap(), &tree_ba);

    assert_eq!(h_ab, h_ba, "reordering children must not change the hash");
}

#[test]
fn unchanged_subtree_same_hash_ignores_stored_option() {
    let mut n1 = node("root", None, Resolution::Accepted);
    let tree1 = tree_with(vec![n1.clone()]);
    let expected = subtree_hash(tree1.node(&GoalNodeId::from("root")).unwrap(), &tree1);

    n1.subtree_hash = Some(SubtreeHash(Sha256::from("stale-value")));
    let tree2 = tree_with(vec![n1]);
    let recomputed = subtree_hash(tree2.node(&GoalNodeId::from("root")).unwrap(), &tree2);

    assert_eq!(expected, recomputed, "stored Option must not affect the hash");
}

#[test]
fn intent_relevant_change_changes_hash() {
    let base = node("root", None, Resolution::Accepted);
    let tree_base = tree_with(vec![base.clone()]);
    let h_base = subtree_hash(tree_base.node(&GoalNodeId::from("root")).unwrap(), &tree_base);

    let mut changed = base.clone();
    changed.hypothesis = "a different hypothesis".to_owned();
    let tree_changed = tree_with(vec![changed]);
    let h_changed =
        subtree_hash(tree_changed.node(&GoalNodeId::from("root")).unwrap(), &tree_changed);
    assert_ne!(h_base, h_changed, "hypothesis change must change the hash");

    let resolved_differently = node("root", None, Resolution::Rejected);
    let tree_res = tree_with(vec![resolved_differently]);
    let h_res = subtree_hash(tree_res.node(&GoalNodeId::from("root")).unwrap(), &tree_res);
    assert_ne!(h_base, h_res, "resolution change must change the hash");
}

#[test]
fn child_hash_change_changes_parent_hash() {
    let mut parent = node("root", None, Resolution::Accepted);
    parent.children = vec![GoalNodeId::from("a")];
    let child = node("a", Some("root"), Resolution::Accepted);
    let tree = tree_with(vec![parent.clone(), child]);
    let h = subtree_hash(tree.node(&GoalNodeId::from("root")).unwrap(), &tree);

    let mut changed_child = node("a", Some("root"), Resolution::Accepted);
    changed_child.hypothesis = "child hypothesis changed".to_owned();
    let tree2 = tree_with(vec![parent, changed_child]);
    let h2 = subtree_hash(tree2.node(&GoalNodeId::from("root")).unwrap(), &tree2);

    assert_ne!(h, h2, "a child subtree_hash change must change the parent hash");
}

#[test]
fn open_children_are_excluded() {
    let mut parent_with_open = node("root", None, Resolution::Accepted);
    parent_with_open.children = vec![GoalNodeId::from("open-child")];
    let open_child = node("open-child", Some("root"), Resolution::Open);
    let tree = tree_with(vec![parent_with_open, open_child]);
    let h_with_open =
        subtree_hash(tree.node(&GoalNodeId::from("root")).unwrap(), &tree);

    let childless = node("root", None, Resolution::Accepted);
    let tree_childless = tree_with(vec![childless]);
    let h_childless =
        subtree_hash(tree_childless.node(&GoalNodeId::from("root")).unwrap(), &tree_childless);

    assert_eq!(h_with_open, h_childless, "Open children must not contribute to the hash");
}

#[test]
fn subtree_hash_is_keyed_only_on_the_semantic_contract() {
    let contract = node("root", None, Resolution::Accepted);

    let a = contract.clone();
    let tree_a = tree_with(vec![a]);
    let h_a = subtree_hash(tree_a.node(&GoalNodeId::from("root")).unwrap(), &tree_a);

    let b = contract.clone();
    let tree_b = tree_with(vec![b]);
    let h_b = subtree_hash(tree_b.node(&GoalNodeId::from("root")).unwrap(), &tree_b);

    assert_eq!(
        h_a, h_b,
        "subtree_hash must depend only on the semantic contract, so tagging \
         incidental transcript to a node never perturbs it"
    );

    let mut curated = contract.clone();
    curated.tool_calls = vec![tool_call("root"), tool_call("root/extra")];
    let tree_c = tree_with(vec![curated]);
    let h_c = subtree_hash(tree_c.node(&GoalNodeId::from("root")).unwrap(), &tree_c);
    assert_ne!(
        h_a, h_c,
        "the curated tool_calls contract is a hash input; only it (not the \
         tagged transcript) can move the hash"
    );
}

#[test]
fn field_boundaries_are_unambiguous() {
    let mut a = node("root", None, Resolution::Accepted);
    a.hypothesis = "ab".to_owned();
    a.resolution_conditions = vec!["c".to_owned()];
    let tree_a = tree_with(vec![a]);
    let h_a = subtree_hash(tree_a.node(&GoalNodeId::from("root")).unwrap(), &tree_a);

    let mut b = node("root", None, Resolution::Accepted);
    b.hypothesis = "a".to_owned();
    b.resolution_conditions = vec!["bc".to_owned()];
    let tree_b = tree_with(vec![b]);
    let h_b = subtree_hash(tree_b.node(&GoalNodeId::from("root")).unwrap(), &tree_b);

    assert_ne!(h_a, h_b, "field boundaries must not alias across fields");
}

#[test]
fn contracts_and_child_hashes_decide_the_hash() {
    let mut a = node("x", None, Resolution::Accepted);
    a.children = vec![GoalNodeId::from("x1"), GoalNodeId::from("x2")];
    let tree_a = tree_with(vec![
        a,
        node("x1", Some("x"), Resolution::Accepted),
        node("x2", Some("x"), Resolution::Rejected),
    ]);
    let h_a = subtree_hash(tree_a.node(&GoalNodeId::from("x")).unwrap(), &tree_a);

    // Other ids and another order of the children, but the same contracts.
    let mut b = node("x", None, Resolution::Accepted);
    b.id = GoalNodeId::from("y");
    b.children = vec![GoalNodeId::from("y2"), GoalNodeId::from("y1")];
    let mut first = node("x1", Some("y"), Resolution::Accepted);
    first.id = GoalNodeId::from("y1");
    let mut second = node("x2", Some("y"), Resolution::Rejected);
    second.id = GoalNodeId::from("y2");
    let tree_b = tree_with(vec![b.clone(), first.clone(), second.clone()]);
    let h_b = subtree_hash(tree_b.node(&GoalNodeId::from("y")).unwrap(), &tree_b);
    assert_eq!(h_a, h_b);

    // A child hash that occurs twice counts twice.
    b.children.push(GoalNodeId::from("y1"));
    let tree_c = tree_with(vec![b, first, second]);
    let h_c = subtree_hash(tree_c.node(&GoalNodeId::from("y")).unwrap(), &tree_c);
    assert_ne!(h_a, h_c);
}
