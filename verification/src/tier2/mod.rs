//! Procedural memory: what was learned, when it may be trusted, and how it is
//! found again.

pub mod answer_laws;
pub mod author_laws;
pub mod embedding;
pub mod engine;
pub mod engine_laws;
pub mod induction;
pub mod memory;
pub mod order_laws;
pub mod outcome_laws;
pub mod ranking;
pub mod recall_laws;
pub mod replay;
pub mod resolution;
pub mod retrieval;
pub mod row_laws;
pub mod sqlite_store;
pub mod store;
pub mod store_laws;
pub mod summary;
pub mod summary_laws;

pub use embedding::{
    embedding_input_text, insert_memory_with_writer, EmbeddingCache, EmbeddingCacheKey,
    EmbeddingWriteError, MemoryEmbeddingWriter, NoEmbeddingClient, OpenAiEmbeddingSource,
    ResolvedEmbeddingSettings, WriteEmbedding, DEFAULT_EMBEDDING_BASE_URL,
    EMPTY_FIELD_PLACEHOLDER, FIELD_SEPARATOR, MAX_EMBEDDING_MAX_ATTEMPTS,
    MIN_EMBEDDING_MAX_ATTEMPTS,
};
pub use engine::InductionEngine;
pub use induction::{
    Author, AuthorError, CleanContext, Decision, DeclineRecord, DistilledNode, FailureRecord,
    Granularity, InMemoryRecurrenceTracker, InductionLog, InductionOutcome, Judge, JudgeVerdict,
    RecurrenceTracker,
};
pub use memory::{
    AnswerMode, Applicability, CachedOutcome, Embedding, EvidenceContract, EvidenceContractItem,
    Memory, MemoryKind, MemoryRecord, MemoryVersion, OutcomeShape, OutcomeValue, ParameterDef,
    ParameterSchema, Plan, PlanStep, Provenance, Reinforcement,
};
pub use replay::{
    decide_replay, AllowListModeB, DenyAllModeB, EvidenceValidator, ModeBPolicy, ReplayDecision,
    TokensHold,
};
pub use resolution::{GoalResolutionAuthor, GoalResolutionJudge};
pub use retrieval::{
    cheap_score, EmbeddingSource, MemoryRetrieval, Retrieval, ScoredMemory, HEAD_MIN, TAIL_LIMIT,
};
pub use sqlite_store::SqliteStoreError;
pub use store::{InMemoryMemoryStore, MemoryStore, MemoryStoreError};
pub use summary::{GoalSummary, SummaryConfig, SummaryProvider};
