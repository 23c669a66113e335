//! The settings that the query path and the write path share.

use vstd::prelude::*;
use vstd::string::*;

use crate::text;
use crate::views;

verus! {

/// Where requests go when nothing else is configured.
pub const DEFAULT_EMBEDDING_BASE_URL: &'static str = "https://api.openai.com";

/// The fewest attempts that can be configured.
pub const MIN_EMBEDDING_MAX_ATTEMPTS: u32 = 1;

/// The most attempts that can be configured.
pub const MAX_EMBEDDING_MAX_ATTEMPTS: u32 = 10;

/// The attempts made when nothing else is configured.
pub const DEFAULT_EMBEDDING_MAX_ATTEMPTS: u32 = 3;

/// The seconds that an attempt may take when nothing else is configured.
pub const DEFAULT_EMBEDDING_TIMEOUT_SECS: u64 = 30;

/// The entries that the cache holds when nothing else is configured.
pub const DEFAULT_EMBEDDING_CACHE_MAX_ENTRIES: usize = 1024;

/// A credential. It has no printed form.
#[derive(PartialEq, Eq)]
pub struct SecretString(String);

impl View for SecretString {
    type V = Seq<char>;

    closed spec fn view(&self) -> Seq<char> {
        self.0@
    }
}

impl Clone for SecretString {
    fn clone(&self) -> (r: Self)
        ensures
            r@ == self@,
    {
        SecretString(self.0.clone())
    }
}

impl From<&str> for SecretString {
    fn from(value: &str) -> (r: Self)
        ensures
            r@ == value@,
    {
        SecretString(value.to_owned())
    }
}

impl vstd::std_specs::convert::FromSpecImpl<&str> for SecretString {
    open spec fn obeys_from_spec() -> bool {
        false
    }

    open spec fn from_spec(value: &str) -> Self {
        arbitrary()
    }
}

impl SecretString {
    /// The credential itself.
    pub fn expose_secret(&self) -> (r: &str)
        ensures
            r@ == self@,
    {
        self.0.as_str()
    }
}

/// What a user configured.
#[derive(Debug, PartialEq, Eq)]
pub struct EmbeddingConfig {
    /// Whether vectors are used at all.
    pub enabled: bool,
    /// The model.
    pub model: String,
    /// The dimension, if not the model's own.
    pub dimension: Option<u32>,
    /// Where requests go.
    pub base_url: Option<String>,
    /// The seconds that an attempt may take.
    pub timeout_secs: Option<u64>,
    /// How many attempts are made.
    pub max_attempts: Option<u32>,
    /// How many entries the cache holds.
    pub cache_max_entries: Option<u64>,
}

/// An OAuth credential.
#[derive(PartialEq, Eq)]
pub struct OpenAiOAuth {
    /// The token that authorises requests.
    pub access_token: String,
}

/// How the provider is authenticated to.
#[derive(PartialEq, Eq)]
pub enum ResolvedProviderAuth {
    /// By a key.
    ApiKey(String),
    /// By OAuth.
    OpenAiOAuth(OpenAiOAuth),
}

/// The credential sent with requests.
pub open spec fn bearer_of(auth: ResolvedProviderAuth) -> Seq<char> {
    match auth {
        ResolvedProviderAuth::ApiKey(key) => key@,
        ResolvedProviderAuth::OpenAiOAuth(oauth) => oauth.access_token@,
    }
}

/// Where requests go: the configured place unless it is blank.
pub open spec fn base_url_of(configured: Option<Seq<char>>) -> Seq<char> {
    if configured is Some && text::trimmed(configured->0).len() > 0 {
        text::trimmed(configured->0)
    } else {
        DEFAULT_EMBEDDING_BASE_URL@
    }
}

/// The seconds that an attempt may take: as configured, if at least one.
pub open spec fn timeout_of(configured: Option<u64>) -> u64 {
    if configured is Some && configured->0 >= 1 {
        configured->0
    } else {
        DEFAULT_EMBEDDING_TIMEOUT_SECS
    }
}

/// The attempts made: as configured, if within bounds.
pub open spec fn attempts_of(configured: Option<u32>) -> u32 {
    if configured is Some && MIN_EMBEDDING_MAX_ATTEMPTS <= configured->0
        <= MAX_EMBEDDING_MAX_ATTEMPTS {
        configured->0
    } else {
        DEFAULT_EMBEDDING_MAX_ATTEMPTS
    }
}

/// The entries that the cache holds: as configured, as far as they can be
/// counted.
pub open spec fn cache_entries_of(configured: Option<u64>) -> usize {
    match configured {
        Some(n) => if n <= usize::MAX {
            n as usize
        } else {
            usize::MAX
        },
        None => DEFAULT_EMBEDDING_CACHE_MAX_ENTRIES,
    }
}

/// The settings in force.
#[derive(PartialEq, Eq)]
pub struct ResolvedEmbeddingSettings {
    /// Whether vectors are used at all.
    pub enabled: bool,
    /// The model.
    pub model: String,
    /// The dimension, if not the model's own.
    pub dimension: Option<u32>,
    /// Where requests go.
    pub base_url: String,
    /// The seconds that an attempt may take.
    pub timeout_secs: u64,
    /// How many attempts are made.
    pub max_attempts: u32,
    /// How many entries the cache holds.
    pub cache_max_entries: usize,
    /// The credential sent with requests.
    pub bearer: SecretString,
}

impl Clone for ResolvedEmbeddingSettings {
    fn clone(&self) -> (r: Self)
        ensures
            r.enabled == self.enabled,
            r.model@ == self.model@,
            r.dimension == self.dimension,
            r.base_url@ == self.base_url@,
            r.timeout_secs == self.timeout_secs,
            r.max_attempts == self.max_attempts,
            r.cache_max_entries == self.cache_max_entries,
            r.bearer@ == self.bearer@,
    {
        ResolvedEmbeddingSettings {
            enabled: self.enabled,
            model: self.model.clone(),
            dimension: self.dimension,
            base_url: self.base_url.clone(),
            timeout_secs: self.timeout_secs,
            max_attempts: self.max_attempts,
            cache_max_entries: self.cache_max_entries,
            bearer: self.bearer.clone(),
        }
    }
}

impl ResolvedEmbeddingSettings {
    /// The settings for what was configured and how the provider is
    /// authenticated to.
    pub fn resolve(config: &EmbeddingConfig, auth: &ResolvedProviderAuth) -> (r: Self)
        ensures
            r.enabled == config.enabled,
            r.model@ == config.model@,
            r.dimension == config.dimension,
            r.base_url@ == base_url_of(views::of_option(config.base_url)),
            r.timeout_secs == timeout_of(config.timeout_secs),
            r.max_attempts == attempts_of(config.max_attempts),
            r.cache_max_entries == cache_entries_of(config.cache_max_entries),
            r.bearer@ == bearer_of(*auth),
    {
        ResolvedEmbeddingSettings {
            enabled: config.enabled,
            model: config.model.clone(),
            dimension: config.dimension,
            base_url: resolve_base_url(&config.base_url),
            timeout_secs: resolve_timeout(config.timeout_secs),
            max_attempts: resolve_max_attempts(config.max_attempts),
            cache_max_entries: resolve_cache_max_entries(config.cache_max_entries),
            bearer: select_bearer(auth),
        }
    }

    /// Settings under which nothing is ever requested.
    pub fn disabled() -> (r: Self)
        ensures
            !r.enabled,
            r.model@.len() == 0,
            r.dimension is None,
            r.base_url@ == DEFAULT_EMBEDDING_BASE_URL@,
            r.timeout_secs == DEFAULT_EMBEDDING_TIMEOUT_SECS,
            r.max_attempts == DEFAULT_EMBEDDING_MAX_ATTEMPTS,
            r.cache_max_entries == DEFAULT_EMBEDDING_CACHE_MAX_ENTRIES,
            r.bearer@.len() == 0,
    {
        proof {
            reveal_strlit("");
        }
        ResolvedEmbeddingSettings {
            enabled: false,
            model: String::new(),
            dimension: None,
            base_url: DEFAULT_EMBEDDING_BASE_URL.to_owned(),
            timeout_secs: resolve_timeout(None),
            max_attempts: resolve_max_attempts(None),
            cache_max_entries: resolve_cache_max_entries(None),
            bearer: SecretString::from(""),
        }
    }
}

fn resolve_base_url(configured: &Option<String>) -> (r: String)
    ensures
        r@ == base_url_of(views::of_option(*configured)),
{
    match configured {
        Some(url) => {
            let trimmed = text::trim(url.as_str());
            if trimmed.as_str().unicode_len() > 0 {
                trimmed
            } else {
                DEFAULT_EMBEDDING_BASE_URL.to_owned()
            }
        },
        None => DEFAULT_EMBEDDING_BASE_URL.to_owned(),
    }
}

fn resolve_timeout(configured_secs: Option<u64>) -> (r: u64)
    ensures
        r == timeout_of(configured_secs),
{
    match configured_secs {
        Some(secs) => if secs >= 1 {
            secs
        } else {
            DEFAULT_EMBEDDING_TIMEOUT_SECS
        },
        None => DEFAULT_EMBEDDING_TIMEOUT_SECS,
    }
}

fn resolve_max_attempts(configured: Option<u32>) -> (r: u32)
    ensures
        r == attempts_of(configured),
{
    match configured {
        Some(attempts) => if MIN_EMBEDDING_MAX_ATTEMPTS <= attempts && attempts
            <= MAX_EMBEDDING_MAX_ATTEMPTS {
            attempts
        } else {
            DEFAULT_EMBEDDING_MAX_ATTEMPTS
        },
        None => DEFAULT_EMBEDDING_MAX_ATTEMPTS,
    }
}

fn resolve_cache_max_entries(configured: Option<u64>) -> (r: usize)
    ensures
        r == cache_entries_of(configured),
{
    match configured {
        Some(entries) => if entries <= usize::MAX as u64 {
            entries as usize
        } else {
            usize::MAX
        },
        None => DEFAULT_EMBEDDING_CACHE_MAX_ENTRIES,
    }
}

fn select_bearer(auth: &ResolvedProviderAuth) -> (r: SecretString)
    ensures
        r@ == bearer_of(*auth),
{
    match auth {
        ResolvedProviderAuth::ApiKey(key) => SecretString::from(key.as_str()),
        ResolvedProviderAuth::OpenAiOAuth(oauth) => SecretString::from(
            oauth.access_token.as_str(),
        ),
    }
}

/// Whatever is configured, one to ten attempts are made, and each may take at
/// least a second.
pub proof fn law_resolved_bounds(attempts: Option<u32>, timeout_secs: Option<u64>)
    ensures
        MIN_EMBEDDING_MAX_ATTEMPTS <= attempts_of(attempts) <= MAX_EMBEDDING_MAX_ATTEMPTS,
        timeout_of(timeout_secs) >= 1,
{
}

} // verus!
