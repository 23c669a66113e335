//! Closure signals and the queues that receive them.

use std::sync::{Arc, Mutex};

use halter_goals::goal_model::{
    ClosureSignal, InductionQueue, NoopInductionQueue, RecordingInductionQueue,
};
use halter_goals::types::{GoalNodeId, SessionId, Sha256, SubtreeHash};

fn hash(seed: &str) -> SubtreeHash {
    SubtreeHash(Sha256::from(seed))
}

fn session() -> SessionId {
    SessionId::from("s1")
}

#[test]
fn recording_queue_records_in_order_and_counts_per_key() {
    let mut queue = RecordingInductionQueue::new();
    assert!(queue.is_empty());

    let a = ClosureSignal::new(session(), GoalNodeId::from("n1"), hash("h1"));
    let b = ClosureSignal::new(session(), GoalNodeId::from("n1"), hash("h2"));

    queue.enqueue(a.clone());
    queue.enqueue(b.clone());

    assert_eq!(queue.len(), 2);
    assert_eq!(queue.jobs(), vec![a.clone(), b.clone()]);
    assert_eq!(queue.count_for(&GoalNodeId::from("n1"), &hash("h1")), 1);
    assert_eq!(queue.count_for(&GoalNodeId::from("n1"), &hash("h2")), 1);
    assert_eq!(queue.distinct_keys().len(), 2);
}

#[test]
fn recording_queue_clone_shares_the_same_record() {
    let queue = Arc::new(Mutex::new(RecordingInductionQueue::new()));
    let handle = Arc::clone(&queue);
    queue
        .lock()
        .unwrap()
        .enqueue(ClosureSignal::new(session(), GoalNodeId::from("n1"), hash("h1")));
    assert_eq!(handle.lock().unwrap().len(), 1);
}

#[test]
fn noop_queue_drops_signals() {
    let mut queue = NoopInductionQueue;
    queue
        .enqueue(ClosureSignal::new(session(), GoalNodeId::from("n1"), hash("h1")));
}

#[test]
fn closure_signal_key_roundtrips() {
    let signal = ClosureSignal::new(session(), GoalNodeId::from("n1"), hash("h1"));
    assert_eq!(signal.key(), (GoalNodeId::from("n1"), hash("h1")));
}
