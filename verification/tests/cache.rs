//! The evidence cache.

use std::cell::Cell;
use std::collections::HashMap;

use halter_goals::tier1::{
    CacheLookup, Freshness, InMemoryTier1Cache, PutRejected, SourceProvider, SourceUnreachable,
    Tier1Cache,
};
use halter_goals::types::{
    CanonicalJson, ContentRef, Duration, EventKey, EventSeq, EvidenceValue, Sha256,
    SourceDescriptor, Timestamp, ToolName, ValidityToken,
};

struct FakeProvider {
    content: HashMap<String, Vec<u8>>,
    events: HashMap<String, u64>,
    now: Cell<u64>,
}

impl FakeProvider {
    fn new() -> Self {
        Self {
            content: HashMap::new(),
            events: HashMap::new(),
            now: Cell::new(0),
        }
    }

    fn with_content(mut self, reference: &str, bytes: &[u8]) -> Self {
        self.content.insert(reference.to_owned(), bytes.to_vec());
        self
    }

    fn set_content(&mut self, reference: &str, bytes: &[u8]) {
        self.content.insert(reference.to_owned(), bytes.to_vec());
    }

    fn remove_content(&mut self, reference: &str) {
        self.content.remove(reference);
    }

    fn set_now(&self, now: u64) {
        self.now.set(now);
    }
}

impl SourceProvider for FakeProvider {
    fn read_content(&self, content: &ContentRef) -> Result<Vec<u8>, SourceUnreachable> {
        self.content
            .get(&content.0)
            .cloned()
            .ok_or_else(|| SourceUnreachable::new(&format!("no content at `{}`", content.0)))
    }

    fn now(&self) -> Timestamp {
        Timestamp(self.now.get())
    }

    fn latest_event_seq(
        &self,
        subscription: &EventKey,
    ) -> Result<EventSeq, SourceUnreachable> {
        self.events
            .get(&subscription.0)
            .copied()
            .map(EventSeq)
            .ok_or_else(|| SourceUnreachable::new(&format!("cannot observe `{}`", subscription.0)))
    }
}

fn pinnable(reference: &str) -> SourceDescriptor {
    SourceDescriptor::Pinnable {
        content: ContentRef::from(reference),
    }
}

fn volatile(ttl: u64) -> SourceDescriptor {
    SourceDescriptor::Volatile { ttl: Duration(ttl) }
}

fn tool() -> ToolName {
    ToolName::from("read_file")
}

fn args(canon: &str) -> CanonicalJson {
    CanonicalJson(canon.to_owned())
}

fn value(v: &str) -> EvidenceValue {
    EvidenceValue(CanonicalJson(v.to_owned()))
}

#[test]
fn get_returns_miss_on_absent_key() {
    let provider = FakeProvider::new();
    let cache = InMemoryTier1Cache::new();
    assert_eq!(
        cache.get(&tool(), &args("{}"), &provider),
        CacheLookup::Miss
    );
}

#[test]
fn get_returns_hit_when_token_holds() {
    let provider = FakeProvider::new().with_content("file://a", b"v1");
    let source = pinnable("file://a");
    let mut cache = InMemoryTier1Cache::new();
    let token = cache.issue_token(&source, &provider).expect("issue");

    cache
        .put(
            &tool(),
            &args("{\"p\":1}"),
            &source,
            token,
            value("\"result\""),
            &provider,
        )
        .expect("token holds at write");

    assert_eq!(
        cache.get(&tool(), &args("{\"p\":1}"), &provider),
        CacheLookup::Hit(value("\"result\""))
    );
}

#[test]
fn get_returns_stale_when_token_expired() {
    let mut provider = FakeProvider::new().with_content("file://a", b"v1");
    let source = pinnable("file://a");
    let mut cache = InMemoryTier1Cache::new();
    let token = cache.issue_token(&source, &provider).expect("issue");

    cache
        .put(&tool(), &args("{}"), &source, token, value("\"r\""), &provider)
        .expect("write");

    provider.set_content("file://a", b"v2");
    assert_eq!(cache.get(&tool(), &args("{}"), &provider), CacheLookup::Stale);
}

#[test]
fn get_treats_unreachable_source_as_stale() {
    let mut provider = FakeProvider::new().with_content("file://a", b"v1");
    let source = pinnable("file://a");
    let mut cache = InMemoryTier1Cache::new();
    let token = cache.issue_token(&source, &provider).expect("issue");
    cache
        .put(&tool(), &args("{}"), &source, token, value("\"r\""), &provider)
        .expect("write");

    provider.remove_content("file://a");
    assert_eq!(cache.get(&tool(), &args("{}"), &provider), CacheLookup::Stale);
}

#[test]
fn get_does_not_mutate_stored_evidence() {
    let provider = FakeProvider::new().with_content("file://a", b"v1");
    let source = pinnable("file://a");
    let mut cache = InMemoryTier1Cache::new();
    let token = cache.issue_token(&source, &provider).expect("issue");
    cache
        .put(&tool(), &args("{}"), &source, token, value("\"r\""), &provider)
        .expect("write");

    let first = cache.get(&tool(), &args("{}"), &provider);
    let second = cache.get(&tool(), &args("{}"), &provider);
    assert_eq!(first, CacheLookup::Hit(value("\"r\"")));
    assert_eq!(first, second, "reads are idempotent and non-mutating");
}

#[test]
fn put_rejects_non_holding_token_and_leaves_prior_entry_unchanged() {
    let provider = FakeProvider::new().with_content("file://a", b"v1");
    let source = pinnable("file://a");
    let mut cache = InMemoryTier1Cache::new();

    let good = cache.issue_token(&source, &provider).expect("issue");
    cache
        .put(&tool(), &args("{}"), &source, good, value("\"prior\""), &provider)
        .expect("prior write holds");

    let stale_token = ValidityToken::ContentHash(Sha256::from("deadbeef"));
    let rejected = cache.put(
        &tool(),
        &args("{}"),
        &source,
        stale_token,
        value("\"new\""),
        &provider,
    );
    assert_eq!(rejected, Err(PutRejected));

    assert_eq!(
        cache.get(&tool(), &args("{}"), &provider),
        CacheLookup::Hit(value("\"prior\"")),
        "rejected put must not overwrite the prior entry"
    );
}

#[test]
fn put_replaces_prior_entry_keeping_one_entry_per_key() {
    let provider = FakeProvider::new().with_content("file://a", b"v1");
    let source = pinnable("file://a");
    let mut cache = InMemoryTier1Cache::new();

    let t1 = cache.issue_token(&source, &provider).expect("issue");
    cache
        .put(&tool(), &args("{}"), &source, t1, value("\"first\""), &provider)
        .expect("write");
    let t2 = cache.issue_token(&source, &provider).expect("issue");
    cache
        .put(&tool(), &args("{}"), &source, t2, value("\"second\""), &provider)
        .expect("write");

    assert_eq!(
        cache.get(&tool(), &args("{}"), &provider),
        CacheLookup::Hit(value("\"second\"")),
        "the latest write wins"
    );
    assert_eq!(
        cache.len(),
        1,
        "exactly one entry per key"
    );
}

#[test]
fn write_then_read_returns_hit_then_stale_after_expiry() {
    let mut provider = FakeProvider::new();
    provider.set_now(100);
    let source = volatile(50);
    let mut cache = InMemoryTier1Cache::new();
    let token = cache.issue_token(&source, &provider).expect("issue");
    cache
        .put(&tool(), &args("{}"), &source, token, value("\"r\""), &provider)
        .expect("token holds at write");

    provider.set_now(149);
    assert_eq!(
        cache.get(&tool(), &args("{}"), &provider),
        CacheLookup::Hit(value("\"r\"")),
        "hit while ttl holds"
    );

    provider.set_now(150);
    assert_eq!(
        cache.get(&tool(), &args("{}"), &provider),
        CacheLookup::Stale,
        "stale once ttl expires"
    );
}

#[test]
fn revalidate_returns_fresh_when_token_holds() {
    let provider = FakeProvider::new().with_content("file://a", b"v1");
    let source = pinnable("file://a");
    let cache = InMemoryTier1Cache::new();
    let token = cache.issue_token(&source, &provider).expect("issue");

    assert_eq!(
        cache.revalidate(&tool(), &args("{}"), &source, &token, &provider),
        Freshness::Fresh
    );
}

#[test]
fn revalidate_returns_stale_when_token_does_not_hold() {
    let mut provider = FakeProvider::new().with_content("file://a", b"v1");
    let source = pinnable("file://a");
    let cache = InMemoryTier1Cache::new();
    let token = cache.issue_token(&source, &provider).expect("issue");

    provider.set_content("file://a", b"v2");
    assert_eq!(
        cache.revalidate(&tool(), &args("{}"), &source, &token, &provider),
        Freshness::Stale
    );
}

#[test]
fn revalidate_treats_unreachable_source_as_stale() {
    let mut provider = FakeProvider::new().with_content("file://a", b"v1");
    let source = pinnable("file://a");
    let cache = InMemoryTier1Cache::new();
    let token = cache.issue_token(&source, &provider).expect("issue");

    provider.remove_content("file://a");
    assert_eq!(
        cache.revalidate(&tool(), &args("{}"), &source, &token, &provider),
        Freshness::Stale
    );
}

#[test]
fn revalidate_does_not_require_or_return_stored_evidence() {
    let provider = FakeProvider::new().with_content("file://a", b"v1");
    let source = pinnable("file://a");
    let cache = InMemoryTier1Cache::new();
    let token = cache.issue_token(&source, &provider).expect("issue");

    let freshness = cache.revalidate(&tool(), &args("{}"), &source, &token, &provider);
    assert_eq!(freshness, Freshness::Fresh);
    assert_eq!(
        cache.len(),
        0,
        "revalidate does not read or create any entry"
    );
}
