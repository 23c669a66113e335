//! The evidence cache and its validity tokens.

pub mod cache;
pub mod json;
pub mod json_laws;
pub mod normalize;
pub mod number_laws;
pub mod token_laws;
pub mod tokens;
pub mod value_laws;

pub use cache::{CacheEntry, CacheLookup, Freshness, InMemoryTier1Cache, PutRejected, Tier1Cache};
pub use json::Json;
pub use normalize::{normalize_args, NormalizationError};
pub use tokens::{holds, issue_token, IssueError, SourceProvider, SourceUnreachable};
