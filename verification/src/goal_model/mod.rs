//! The event-sourced goal model.

pub mod checked;
pub mod closing_laws;
pub mod closure;
pub mod effect_laws;
pub mod event_log;
pub mod fold;
pub mod fold_laws;
pub mod hash_laws;
pub mod intent;
pub mod intent_laws;
pub mod model;
pub mod numbered;
pub mod run_laws;
pub mod store;
pub mod store_laws;
pub mod subtree_hash;
pub mod tree;

pub use closure::{ClosureSignal, InductionQueue, NoopInductionQueue, RecordingInductionQueue};
pub use event_log::{GoalEventLog, GoalStoreError, InMemoryGoalEventLog, SequencedGoalEvent};
pub use fold::{apply_goal_event, fold_goal_events};
pub use intent::{
    attached_intent, derive_intent, IntentDerivationError, IntentField, IntentInput,
};
pub use model::{GoalEvent, GoalNode, GoalNodeRevision, Resolution};
pub use store::{ClosureOutcome, EventLogGoalStore, GoalStore};
pub use subtree_hash::subtree_hash;
pub use tree::{GoalTree, GoalTreeState};
