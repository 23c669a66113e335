//! Goal tracking with procedural memory.

pub mod content_laws;
pub mod digest;
pub mod encoding;
pub mod goal_model;
pub mod integration;
pub mod json_text;
pub mod keyed;
pub mod message_laws;
pub mod text;
pub mod text_laws;
pub mod tier1;
pub mod tier2;
pub mod types;
pub mod views;

pub use goal_model::{
    ClosureOutcome, ClosureSignal, EventLogGoalStore, GoalEvent, GoalEventLog, GoalNode,
    GoalNodeRevision, GoalStore, GoalStoreError, GoalTree, InMemoryGoalEventLog, InductionQueue,
    NoopInductionQueue, RecordingInductionQueue, Resolution,
};
pub use integration::{
    retrieve_advisory, start_goal, AdvisorySummary, EngineInductionQueue, GoalStart,
};
pub use tier1::{
    holds, issue_token, normalize_args, CacheEntry, CacheLookup, Freshness, InMemoryTier1Cache,
    IssueError, SourceProvider, SourceUnreachable, Tier1Cache,
};
pub use tier2::{
    decide_replay, insert_memory_with_writer, AllowListModeB, Author, CachedOutcome, DenyAllModeB,
    EmbeddingSource, EvidenceContract, EvidenceContractItem, EvidenceValidator,
    GoalResolutionAuthor, GoalResolutionJudge, InMemoryMemoryStore, InMemoryRecurrenceTracker,
    InductionEngine, InductionOutcome, Judge, Memory, MemoryEmbeddingWriter, MemoryRetrieval,
    MemoryStore, ModeBPolicy, NoEmbeddingClient, OpenAiEmbeddingSource, ReplayDecision,
    ResolvedEmbeddingSettings, Retrieval, ScoredMemory, SqliteStoreError, TokensHold,
};
pub use types::{
    CanonicalJson, ContentRef, Duration, EventKey, EventSeq, EvidenceValue, GoalNodeId,
    IntentSignature, IntentType, MemoryId, OutcomeRef, Scope, SessionId, Sha256, SourceDescriptor,
    SubtreeHash, TargetRef, TargetType, Timestamp, ToolCall, ToolName, ValidityToken,
};
