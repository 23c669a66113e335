//! Validity tokens.

use std::cell::Cell;
use std::collections::HashMap;

use halter_goals::tier1::{holds, issue_token, IssueError, SourceProvider, SourceUnreachable};
use halter_goals::types::{
    ContentRef, Duration, EventKey, EventSeq, Sha256, SourceDescriptor, Timestamp, ValidityToken,
};
use sha2::{Digest, Sha256 as Sha256Hasher};

struct FakeProvider {
    content: HashMap<String, Vec<u8>>,
    events: HashMap<String, u64>,
    now: Cell<u64>,
}

impl FakeProvider {
    fn new() -> Self {
        Self {
            content: HashMap::new(),
            events: HashMap::new(),
            now: Cell::new(0),
        }
    }

    fn with_content(mut self, reference: &str, bytes: &[u8]) -> Self {
        self.content.insert(reference.to_owned(), bytes.to_vec());
        self
    }

    fn with_event_seq(mut self, subscription: &str, seq: u64) -> Self {
        self.events.insert(subscription.to_owned(), seq);
        self
    }

    fn set_content(&mut self, reference: &str, bytes: &[u8]) {
        self.content.insert(reference.to_owned(), bytes.to_vec());
    }

    fn remove_content(&mut self, reference: &str) {
        self.content.remove(reference);
    }

    fn set_event_seq(&mut self, subscription: &str, seq: u64) {
        self.events.insert(subscription.to_owned(), seq);
    }

    fn remove_subscription(&mut self, subscription: &str) {
        self.events.remove(subscription);
    }

    fn set_now(&self, now: u64) {
        self.now.set(now);
    }
}

impl SourceProvider for FakeProvider {
    fn read_content(&self, content: &ContentRef) -> Result<Vec<u8>, SourceUnreachable> {
        self.content
            .get(&content.0)
            .cloned()
            .ok_or_else(|| SourceUnreachable::new(&format!("no content at `{}`", content.0)))
    }

    fn now(&self) -> Timestamp {
        Timestamp(self.now.get())
    }

    fn latest_event_seq(
        &self,
        subscription: &EventKey,
    ) -> Result<EventSeq, SourceUnreachable> {
        self.events
            .get(&subscription.0)
            .copied()
            .map(EventSeq)
            .ok_or_else(|| {
                SourceUnreachable::new(&format!("cannot observe `{}`", subscription.0))
            })
    }
}

fn pinnable(reference: &str) -> SourceDescriptor {
    SourceDescriptor::Pinnable {
        content: ContentRef::from(reference),
    }
}

fn volatile(ttl: u64) -> SourceDescriptor {
    SourceDescriptor::Volatile {
        ttl: Duration(ttl),
    }
}

fn signalled(subscription: &str) -> SourceDescriptor {
    SourceDescriptor::Signalled {
        subscription: EventKey::from(subscription),
    }
}

#[test]
fn pinnable_issuance_hashes_content_and_holds_at_issuance() {
    let provider = FakeProvider::new().with_content("file://a", b"hello");
    let source = pinnable("file://a");

    let token = issue_token(&source, &provider).expect("readable pinnable issues");

    let mut hasher = Sha256Hasher::new();
    hasher.update(b"hello");
    let expected = Sha256(format!("{:x}", hasher.finalize()));
    assert_eq!(token, ValidityToken::ContentHash(expected));

    assert!(holds(&token, &source, &provider));
}

#[test]
fn unreadable_pinnable_issuance_rejects() {
    let provider = FakeProvider::new();
    let source = pinnable("file://missing");

    let result = issue_token(&source, &provider);
    assert!(matches!(
        result,
        Err(IssueError::UnreadableContent { .. })
    ));
}

#[test]
fn volatile_issuance_stamps_window_and_holds_at_issuance() {
    let mut provider = FakeProvider::new();
    provider.set_now(1_000);
    let source = volatile(500);

    let token = issue_token(&source, &provider).expect("volatile always issues");
    assert_eq!(
        token,
        ValidityToken::Ttl {
            issued_at: Timestamp(1_000),
            ttl: Duration(500),
        }
    );
    assert!(holds(&token, &source, &provider));
}

#[test]
fn signalled_issuance_records_last_seen_and_holds_at_issuance() {
    let provider = FakeProvider::new().with_event_seq("fs", 7);
    let source = signalled("fs");

    let token = issue_token(&source, &provider).expect("observable subscription issues");
    assert_eq!(
        token,
        ValidityToken::EventDriven {
            subscription: EventKey::from("fs"),
            last_seen: EventSeq(7),
        }
    );
    assert!(holds(&token, &source, &provider));
}

#[test]
fn content_hash_holds_iff_content_unchanged() {
    let mut provider = FakeProvider::new().with_content("file://a", b"v1");
    let source = pinnable("file://a");
    let token = issue_token(&source, &provider).expect("issue");

    assert!(holds(&token, &source, &provider), "unchanged content holds");

    provider.set_content("file://a", b"v2");
    assert!(
        !holds(&token, &source, &provider),
        "changed content does not hold"
    );
}

#[test]
fn content_hash_unreachable_source_does_not_hold() {
    let mut provider = FakeProvider::new().with_content("file://a", b"v1");
    let source = pinnable("file://a");
    let token = issue_token(&source, &provider).expect("issue");

    provider.remove_content("file://a");
    assert!(!holds(&token, &source, &provider));
}

#[test]
fn ttl_holds_within_window_and_not_after() {
    let mut provider = FakeProvider::new();
    provider.set_now(100);
    let source = volatile(50);
    let token = issue_token(&source, &provider).expect("issue");

    provider.set_now(149);
    assert!(holds(&token, &source, &provider), "just inside window holds");

    provider.set_now(150);
    assert!(
        !holds(&token, &source, &provider),
        "at expiry the window is closed (strict)"
    );

    provider.set_now(1_000);
    assert!(!holds(&token, &source, &provider), "well past expiry");
}

#[test]
fn event_driven_holds_until_newer_event() {
    let mut provider = FakeProvider::new().with_event_seq("fs", 5);
    let source = signalled("fs");
    let token = issue_token(&source, &provider).expect("issue");

    assert!(holds(&token, &source, &provider), "no newer event holds");

    provider.set_event_seq("fs", 5);
    assert!(holds(&token, &source, &provider));

    provider.set_event_seq("fs", 6);
    assert!(!holds(&token, &source, &provider), "newer event => not held");
}

#[test]
fn event_driven_unreachable_subscription_does_not_hold() {
    let mut provider = FakeProvider::new().with_event_seq("fs", 5);
    let source = signalled("fs");
    let token = issue_token(&source, &provider).expect("issue");

    provider.remove_subscription("fs");
    assert!(!holds(&token, &source, &provider));
}

#[test]
fn holds_does_not_mutate_token() {
    let provider = FakeProvider::new().with_content("file://a", b"data");
    let source = pinnable("file://a");
    let token = issue_token(&source, &provider).expect("issue");
    let before = token.clone();

    let _ = holds(&token, &source, &provider);
    assert_eq!(token, before, "holds must not mutate the token");
}

#[test]
fn class_mismatch_does_not_hold() {
    let provider = FakeProvider::new().with_content("file://a", b"data");
    let content_token = ValidityToken::ContentHash(Sha256::from("deadbeef"));
    assert!(!holds(&content_token, &volatile(10), &provider));
}
