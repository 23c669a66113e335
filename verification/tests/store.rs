//! The goal store and its event log.

use halter_goals::goal_model::{
    ClosureSignal, EventLogGoalStore, GoalEvent, GoalEventLog, GoalNodeRevision, GoalStore,
    GoalStoreError, InMemoryGoalEventLog, NoopInductionQueue, RecordingInductionQueue, Resolution,
};
use halter_goals::types::{
    GoalNodeId, IntentSignature, IntentType, Scope, SessionId, TargetRef, TargetType,
};

fn session(id: &str) -> SessionId {
    SessionId::from(id)
}

fn intent(target: &str) -> IntentSignature {
    IntentSignature {
        intent_type: IntentType::from("lookup"),
        target_type: TargetType::from("file"),
        target_ref: TargetRef::from(target),
        scope: Scope::from("repo"),
    }
}

fn created(id: &str, parent: Option<&str>) -> GoalEvent {
    GoalEvent::GoalNodeCreated {
        id: GoalNodeId::from(id),
        parent: parent.map(GoalNodeId::from),
        hypothesis: format!("hypothesis {id}"),
        intent: intent(id),
    }
}

#[test]
fn append_assigns_gap_free_monotonic_sequences() {
    let mut log = InMemoryGoalEventLog::new();
    let s = session("s1");

    let first = log
        .append(&s, vec![created("a", None), created("b", Some("a"))], None)
        .expect("first append succeeds");
    assert_eq!(first.iter().map(|(seq, _)| *seq).collect::<Vec<_>>(), vec![1, 2]);

    let second = log
        .append(&s, vec![created("c", Some("a"))], Some(2))
        .expect("second append succeeds");
    assert_eq!(second.iter().map(|(seq, _)| *seq).collect::<Vec<_>>(), vec![3]);

    assert_eq!(log.head_sequence(&s).unwrap(), 3);
}

#[test]
fn replay_returns_events_in_sequence_order() {
    let mut log = InMemoryGoalEventLog::new();
    let s = session("s1");
    log.append(&s, vec![created("a", None)], None).unwrap();
    log.append(&s, vec![created("b", Some("a"))], Some(1)).unwrap();
    log.append(&s, vec![created("c", Some("a"))], Some(2)).unwrap();

    let replayed = log.replay(&s).expect("replay succeeds");
    assert_eq!(
        replayed.iter().map(|(seq, _)| *seq).collect::<Vec<_>>(),
        vec![1, 2, 3]
    );
    let ids: Vec<GoalNodeId> = replayed
        .iter()
        .map(|(_, event)| match event {
            GoalEvent::GoalNodeCreated { id, .. } => id.clone(),
            _ => panic!("unexpected event variant"),
        })
        .collect();
    assert_eq!(
        ids,
        vec![GoalNodeId::from("a"), GoalNodeId::from("b"), GoalNodeId::from("c")]
    );
}

#[test]
fn expected_head_mismatch_rejects_and_leaves_log_unchanged() {
    let mut log = InMemoryGoalEventLog::new();
    let s = session("s1");
    log.append(&s, vec![created("a", None)], None).unwrap();
    log.append(&s, vec![created("b", Some("a"))], Some(1)).unwrap();

    let before = log.replay(&s).unwrap();
    assert_eq!(log.head_sequence(&s).unwrap(), 2);

    let err = log
        .append(&s, vec![created("c", Some("a"))], Some(1))
        .expect_err("stale expected head must reject");
    match err {
        GoalStoreError::Conflict { expected, actual } => {
            assert_eq!(expected, 1);
            assert_eq!(actual, 2);
        }
        other => panic!("expected Conflict, got {other:?}"),
    }

    let after = log.replay(&s).unwrap();
    assert_eq!(before, after, "rejected append must leave the log unchanged");
    assert_eq!(log.head_sequence(&s).unwrap(), 2);
}

#[test]
fn sessions_have_independent_logs() {
    let mut log = InMemoryGoalEventLog::new();
    let s1 = session("s1");
    let s2 = session("s2");
    log.append(&s1, vec![created("a", None)], None).unwrap();

    assert_eq!(log.head_sequence(&s2).unwrap(), 0);
    let appended = log.append(&s2, vec![created("x", None)], Some(0)).unwrap();
    assert_eq!(appended.iter().map(|(seq, _)| *seq).collect::<Vec<_>>(), vec![1]);
    assert_eq!(log.head_sequence(&s1).unwrap(), 1);
}

#[test]
fn append_with_occ_appends_at_current_head() {
    let mut store = EventLogGoalStore::new(InMemoryGoalEventLog::new());
    let s = session("s1");
    store
        .append_with_occ(&s, vec![created("a", None)])
        .expect("first append");
    let sequenced = store
        .append_with_occ(&s, vec![created("b", Some("a"))])
        .expect("second append at current head");
    assert_eq!(sequenced.iter().map(|(seq, _)| *seq).collect::<Vec<_>>(), vec![2]);
}

#[test]
fn load_tree_folds_replayed_events() {
    let mut store = EventLogGoalStore::new(InMemoryGoalEventLog::new());
    let s = session("s1");
    store.append_with_occ(&s, vec![created("root", None)]).unwrap();
    store
        .append_with_occ(&s, vec![created("child", Some("root"))])
        .unwrap();

    let tree = store.load_tree(&s).expect("fold replayed events");
    assert_eq!(tree.len(), 2);
    assert_eq!(tree.root(), Some(&GoalNodeId::from("root")));
    assert_eq!(
        tree.children(&GoalNodeId::from("root")),
        &[GoalNodeId::from("child")]
    );
}

fn store() -> EventLogGoalStore<InMemoryGoalEventLog, NoopInductionQueue> {
    EventLogGoalStore::new(InMemoryGoalEventLog::new())
}

#[test]
fn create_returns_open_node_with_parent_linkage() {
    let mut store = store();
    let s = session("s1");

    let root = store
        .create(&s, None, "root hypothesis".to_owned(), intent("root"))
        .expect("create root");
    let child = store
        .create(&s, Some(root.clone()), "child".to_owned(), intent("child"))
        .expect("create child");

    assert_ne!(root, child, "each create returns a unique id");

    let tree = store.get_tree(&s).unwrap();
    assert!(tree.node(&root).unwrap().is_open());
    assert!(tree.node(&child).unwrap().is_open());
    assert_eq!(tree.children(&root), std::slice::from_ref(&child));
    assert_eq!(tree.node(&child).unwrap().parent, Some(root.clone()));
    assert_eq!(store.log().head_sequence(&s).unwrap(), 2);
}

#[test]
fn create_rejects_empty_hypothesis_without_appending() {
    let mut store = store();
    let s = session("s1");

    for blank in ["", "   ", "\t\n"] {
        let err = store
            .create(&s, None, blank.to_owned(), intent("x"))
            .expect_err("blank hypothesis rejects");
        assert!(matches!(err, GoalStoreError::EmptyHypothesis));
    }

    assert_eq!(store.log().head_sequence(&s).unwrap(), 0);
    assert!(store.get_tree(&s).unwrap().is_empty());
}

#[test]
fn create_rejects_nonexistent_parent_without_appending() {
    let mut store = store();
    let s = session("s1");
    let ghost = GoalNodeId::from("ghost");

    let err = store
        .create(&s, Some(ghost.clone()), "hyp".to_owned(), intent("x"))
        .expect_err("missing parent rejects");
    match err {
        GoalStoreError::ParentNotFound(id) => assert_eq!(id, ghost),
        other => panic!("expected ParentNotFound, got {other:?}"),
    }

    assert_eq!(store.log().head_sequence(&s).unwrap(), 0);
    assert!(store.get_tree(&s).unwrap().is_empty());
}

#[test]
fn revise_appends_and_reflects_delta() {
    let mut store = store();
    let s = session("s1");
    let id = store
        .create(&s, None, "hyp".to_owned(), intent("n"))
        .unwrap();

    store
        .revise(
            &s,
            &id,
            GoalNodeRevision {
                resolution_conditions: Some(vec!["cond".to_owned()]),
                tool_calls: None,
                children: None,
            },
        )
        .expect("revise succeeds");

    assert_eq!(store.log().head_sequence(&s).unwrap(), 2);
    let node = store.get(&s, &id).unwrap().unwrap();
    assert_eq!(node.resolution_conditions, vec!["cond".to_owned()]);
}

#[test]
fn revise_rejects_nonexistent_node_without_appending() {
    let mut store = store();
    let s = session("s1");
    let ghost = GoalNodeId::from("ghost");

    let err = store
        .revise(&s, &ghost, GoalNodeRevision::default())
        .expect_err("missing node rejects");
    match err {
        GoalStoreError::NodeNotFound(id) => assert_eq!(id, ghost),
        other => panic!("expected NodeNotFound, got {other:?}"),
    }
    assert_eq!(store.log().head_sequence(&s).unwrap(), 0);
}

#[test]
fn close_leaf_returns_closed_with_hash_and_stamps_it() {
    let mut store = store();
    let s = session("s1");
    let id = store
        .create(&s, None, "hyp".to_owned(), intent("n"))
        .unwrap();

    let outcome = store
        .close(&s, &id, Resolution::Accepted)
        .expect("close leaf");
    assert!(outcome.closed, "a fully-resolved leaf is closed");
    let hash = outcome.subtree_hash.expect("closed carries a hash");

    let node = store.get(&s, &id).unwrap().unwrap();
    assert_eq!(node.subtree_hash.as_ref(), Some(&hash));
    assert_eq!(store.log().head_sequence(&s).unwrap(), 3);
}

#[test]
fn close_rejects_open_resolution() {
    let mut store = store();
    let s = session("s1");
    let id = store
        .create(&s, None, "hyp".to_owned(), intent("n"))
        .unwrap();

    let err = store
        .close(&s, &id, Resolution::Open)
        .expect_err("Open resolution rejects");
    assert!(matches!(err, GoalStoreError::OpenResolution));
    assert_eq!(store.log().head_sequence(&s).unwrap(), 1);
}

#[test]
fn close_rejects_nonexistent_node() {
    let mut store = store();
    let s = session("s1");
    let ghost = GoalNodeId::from("ghost");

    let err = store
        .close(&s, &ghost, Resolution::Accepted)
        .expect_err("missing node rejects");
    match err {
        GoalStoreError::NodeNotFound(id) => assert_eq!(id, ghost),
        other => panic!("expected NodeNotFound, got {other:?}"),
    }
    assert_eq!(store.log().head_sequence(&s).unwrap(), 0);
}

#[test]
fn close_parent_with_open_child_is_not_closed() {
    let mut store = store();
    let s = session("s1");
    let root = store
        .create(&s, None, "root".to_owned(), intent("root"))
        .unwrap();
    let _child = store
        .create(&s, Some(root.clone()), "child".to_owned(), intent("child"))
        .unwrap();

    let outcome = store
        .close(&s, &root, Resolution::Accepted)
        .expect("close parent");
    assert!(!outcome.closed, "parent with an Open child is not closed");
    assert!(outcome.subtree_hash.is_none());
    assert_eq!(store.log().head_sequence(&s).unwrap(), 3);
}

#[test]
fn reclose_under_same_key_does_not_append_duplicate() {
    let mut store = store();
    let s = session("s1");
    let id = store
        .create(&s, None, "hyp".to_owned(), intent("n"))
        .unwrap();

    let first = store.close(&s, &id, Resolution::Accepted).unwrap();
    assert!(first.closed);
    let head_after_first = store.log().head_sequence(&s).unwrap();
    assert_eq!(head_after_first, 3);

    let second = store.close(&s, &id, Resolution::Accepted).unwrap();
    assert_eq!(second.subtree_hash, first.subtree_hash);
    assert!(second.closed);

    let closed_count = store
        .load_events(&s)
        .unwrap()
        .iter()
        .filter(|e| matches!(e, GoalEvent::GoalClosed { .. }))
        .count();
    assert_eq!(closed_count, 1, "no duplicate GoalClosed for the same (id, hash)");
}

#[test]
fn get_returns_node_and_none_for_absent() {
    let mut store = store();
    let s = session("s1");
    let id = store
        .create(&s, None, "hyp".to_owned(), intent("n"))
        .unwrap();

    let node = store.get(&s, &id).unwrap();
    assert!(node.is_some());
    assert_eq!(node.unwrap().id, id);

    assert!(
        store.get(&s, &GoalNodeId::from("absent")).unwrap().is_none(),
        "get for an absent id returns None"
    );
}

fn store_with_queue() -> EventLogGoalStore<InMemoryGoalEventLog, RecordingInductionQueue> {
    EventLogGoalStore::with_induction_queue(
        InMemoryGoalEventLog::new(),
        RecordingInductionQueue::new(),
    )
}

#[test]
fn close_leaf_enqueues_exactly_one_induction_job() {
    let mut store = store_with_queue();
    let s = session("s1");
    let id = store
        .create(&s, None, "hyp".to_owned(), intent("n"))
        .unwrap();

    let outcome = store.close(&s, &id, Resolution::Accepted).unwrap();
    let hash = outcome.subtree_hash.expect("closed carries a hash");

    assert_eq!(store.induction_queue().len(), 1);
    assert_eq!(store.induction_queue().count_for(&id, &hash), 1);
    assert_eq!(
        store.induction_queue().jobs(),
        vec![ClosureSignal::new(s.clone(), id.clone(), hash)]
    );
}

#[test]
fn reclose_under_same_key_enqueues_no_additional_job() {
    let mut store = store_with_queue();
    let s = session("s1");
    let id = store
        .create(&s, None, "hyp".to_owned(), intent("n"))
        .unwrap();

    let first = store.close(&s, &id, Resolution::Accepted).unwrap();
    let hash = first.subtree_hash.clone().unwrap();
    assert_eq!(store.induction_queue().len(), 1);

    let second = store.close(&s, &id, Resolution::Accepted).unwrap();
    assert_eq!(second.subtree_hash, first.subtree_hash);
    assert_eq!(store.induction_queue().len(), 1, "no additional induction job for the same key");
    assert_eq!(store.induction_queue().count_for(&id, &hash), 1);
}

#[test]
fn reclose_under_distinct_subtree_hash_enqueues_a_new_job() {
    let mut store = store_with_queue();
    let s = session("s1");
    let id = store
        .create(&s, None, "hyp".to_owned(), intent("n"))
        .unwrap();

    let first = store.close(&s, &id, Resolution::Accepted).unwrap();
    let hash1 = first.subtree_hash.clone().unwrap();
    assert_eq!(store.induction_queue().len(), 1);
    assert_eq!(store.induction_queue().count_for(&id, &hash1), 1);

    store
        .revise(
            &s,
            &id,
            GoalNodeRevision {
                resolution_conditions: Some(vec!["a new condition".to_owned()]),
                tool_calls: None,
                children: None,
            },
        )
        .unwrap();

    let second = store.close(&s, &id, Resolution::Accepted).unwrap();
    let hash2 = second.subtree_hash.clone().unwrap();
    assert_ne!(hash1, hash2, "a revised resolved subtree has a distinct hash");

    assert_eq!(store.induction_queue().len(), 2, "the distinct-hash closure is a new trigger");
    assert_eq!(store.induction_queue().count_for(&id, &hash1), 1);
    assert_eq!(store.induction_queue().count_for(&id, &hash2), 1);
    assert_eq!(store.induction_queue().distinct_keys().len(), 2);
}

#[test]
fn enqueue_returns_before_induction_runs() {
    let mut store = store_with_queue();
    let s = session("s1");
    let id = store
        .create(&s, None, "hyp".to_owned(), intent("n"))
        .unwrap();

    let outcome = store.close(&s, &id, Resolution::Accepted).unwrap();
    let hash = outcome.subtree_hash.unwrap();

    let jobs = store.induction_queue().jobs();
    assert_eq!(jobs, vec![ClosureSignal::new(s.clone(), id, hash)]);
}

#[test]
fn not_closed_close_enqueues_no_job() {
    let mut store = store_with_queue();
    let s = session("s1");
    let root = store
        .create(&s, None, "root".to_owned(), intent("root"))
        .unwrap();
    let _child = store
        .create(&s, Some(root.clone()), "child".to_owned(), intent("child"))
        .unwrap();

    let outcome = store.close(&s, &root, Resolution::Accepted).unwrap();
    assert!(!outcome.closed);
    assert!(store.induction_queue().is_empty(), "an unclosed subtree enqueues no induction job");
}

#[test]
fn default_store_keeps_working_without_a_queue() {
    let mut store = store();
    let s = session("s1");
    let id = store
        .create(&s, None, "hyp".to_owned(), intent("n"))
        .unwrap();
    let outcome = store.close(&s, &id, Resolution::Accepted).unwrap();
    assert!(outcome.closed);
    assert_eq!(store.log().head_sequence(&s).unwrap(), 3);
}

#[test]
fn get_tree_returns_whole_tree() {
    let mut store = store();
    let s = session("s1");
    let root = store
        .create(&s, None, "root".to_owned(), intent("root"))
        .unwrap();
    let child = store
        .create(&s, Some(root.clone()), "child".to_owned(), intent("child"))
        .unwrap();

    let tree = store.get_tree(&s).unwrap();
    assert_eq!(tree.len(), 2);
    assert_eq!(tree.root(), Some(&root));
    assert_eq!(tree.children(&root), &[child]);
}

#[test]
fn every_closure_is_recorded_and_signalled_once() {
    let mut store = store_with_queue();
    let s = session("s1");
    let other = session("s2");
    let root = store.create(&s, None, "root".to_owned(), intent("root")).unwrap();
    let child = store
        .create(&s, Some(root.clone()), "child".to_owned(), intent("child"))
        .unwrap();
    let lone = store.create(&other, None, "lone".to_owned(), intent("lone")).unwrap();

    let mut found = Vec::new();
    for _ in 0..2 {
        assert!(!store.close(&s, &root, Resolution::Accepted).unwrap().closed);
        store.close(&s, &child, Resolution::Open).unwrap_err();
        store.close(&other, &child, Resolution::Accepted).unwrap_err();
    }
    for condition in ["first", "second", "first"] {
        store
            .revise(
                &s,
                &child,
                GoalNodeRevision {
                    resolution_conditions: Some(vec![condition.to_owned()]),
                    tool_calls: None,
                    children: None,
                },
            )
            .unwrap();
        for id in [&child, &root] {
            let hash = store.close(&s, id, Resolution::Accepted).unwrap().subtree_hash.unwrap();
            found.push((s.clone(), id.clone(), hash));
        }
    }
    let hash = store.close(&other, &lone, Resolution::Rejected).unwrap().subtree_hash.unwrap();
    found.push((other.clone(), lone.clone(), hash));

    let jobs = store.induction_queue().jobs();
    assert_eq!(jobs.len(), 5);
    for (session, id, hash) in &found {
        let signals = jobs
            .iter()
            .filter(|j| **j == ClosureSignal::new(session.clone(), id.clone(), hash.clone()))
            .count();
        assert_eq!(signals, 1);
        let events = store.load_events(session).unwrap();
        let closures = events
            .iter()
            .filter(|e| {
                matches!(e, GoalEvent::GoalClosed { id: i, subtree_hash: h } if i == id && h == hash)
            })
            .count();
        assert_eq!(closures, 1);
    }
}
