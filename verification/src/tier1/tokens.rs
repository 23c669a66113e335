//! Issuing validity tokens and checking them again.

use vstd::prelude::*;
use vstd::string::*;

use crate::digest;
use crate::types;
use crate::types::{
    ContentRef, Duration, EventKey, EventSeq, Sha256, SourceDescriptor, SourceView, Timestamp,
    TokenView, ValidityToken,
};

verus! {

/// A source could not be observed.
#[derive(Debug, PartialEq, Eq)]
pub struct SourceUnreachable {
    /// Why not.
    pub reason: String,
}

impl View for SourceUnreachable {
    type V = Seq<char>;

    open spec fn view(&self) -> Seq<char> {
        self.reason@
    }
}

impl Clone for SourceUnreachable {
    fn clone(&self) -> (r: Self)
        ensures
            r == *self,
    {
        SourceUnreachable { reason: self.reason.clone() }
    }
}

impl SourceUnreachable {
    /// A source that could not be observed for `reason`.
    pub fn new(reason: &str) -> (r: Self)
        ensures
            r@ == reason@,
    {
        SourceUnreachable { reason: reason.to_owned() }
    }

    /// The message that reports the source.
    pub fn to_string(&self) -> (r: String)
        ensures
            r@ == "source unreachable: "@ + self@,
    {
        let mut out = "source unreachable: ".to_owned();
        out.append(self.reason.as_str());
        out
    }
}

/// A token could not be issued.
#[derive(Debug, PartialEq, Eq)]
pub enum IssueError {
    /// The content was not readable.
    UnreadableContent {
        /// The content.
        content: ContentRef,
        /// Why not.
        reason: String,
    },
    /// The subscription could not be observed.
    UnobservableSubscription {
        /// The subscription.
        subscription: EventKey,
        /// Why not.
        reason: String,
    },
}

/// The content of an issuing error.
#[verifier::ext_equal]
pub enum IssueErrorView {
    UnreadableContent { content: Seq<char>, reason: Seq<char> },
    UnobservableSubscription { subscription: Seq<char>, reason: Seq<char> },
}

impl View for IssueError {
    type V = IssueErrorView;

    open spec fn view(&self) -> IssueErrorView {
        match *self {
            IssueError::UnreadableContent { content, reason } => {
                IssueErrorView::UnreadableContent { content: content@, reason: reason@ }
            },
            IssueError::UnobservableSubscription { subscription, reason } => {
                IssueErrorView::UnobservableSubscription {
                    subscription: subscription@,
                    reason: reason@,
                }
            },
        }
    }
}

impl Clone for IssueError {
    fn clone(&self) -> (r: Self)
        ensures
            r == *self,
    {
        match self {
            IssueError::UnreadableContent { content, reason } => IssueError::UnreadableContent {
                content: content.clone(),
                reason: reason.clone(),
            },
            IssueError::UnobservableSubscription { subscription, reason } => {
                IssueError::UnobservableSubscription {
                    subscription: subscription.clone(),
                    reason: reason.clone(),
                }
            },
        }
    }
}

impl IssueErrorView {
    /// The text that reports the error.
    pub open spec fn message(self) -> Seq<char> {
        match self {
            IssueErrorView::UnreadableContent { content, reason } => {
                "content `"@ + content + "` is unreadable at issuance: "@ + reason
            },
            IssueErrorView::UnobservableSubscription { subscription, reason } => {
                "subscription `"@ + subscription + "` is unobservable at issuance: "@ + reason
            },
        }
    }
}

impl IssueError {
    /// The message that reports the error.
    pub fn to_string(&self) -> (r: String)
        ensures
            r@ == self@.message(),
    {
        match self {
            IssueError::UnreadableContent { content, reason } => {
                let mut out = "content `".to_owned();
                out.append(content.0.as_str());
                out.append("` is unreadable at issuance: ");
                out.append(reason.as_str());
                out
            },
            IssueError::UnobservableSubscription { subscription, reason } => {
                let mut out = "subscription `".to_owned();
                out.append(subscription.0.as_str());
                out.append("` is unobservable at issuance: ");
                out.append(reason.as_str());
                out
            },
        }
    }
}

/// What observing a source yields: the content's bytes, the current instant, or
/// the latest event, where an error carries the reason.
#[verifier::ext_equal]
pub enum Observation {
    Content(Result<Seq<u8>, Seq<char>>),
    Now(u64),
    Latest(Result<u64, Seq<char>>),
}

/// The observation that a read of content came to.
pub open spec fn content_observation(read: Result<Vec<u8>, SourceUnreachable>) -> Observation {
    match read {
        Ok(bytes) => Observation::Content(Ok(bytes@)),
        Err(e) => Observation::Content(Err(e@)),
    }
}

/// The observation that a look at a subscription came to.
pub open spec fn latest_observation(seen: Result<EventSeq, SourceUnreachable>) -> Observation {
    match seen {
        Ok(seq) => Observation::Latest(Ok(seq.0)),
        Err(e) => Observation::Latest(Err(e@)),
    }
}

/// Observes sources.
///
/// What is observed may change from call to call; the three `can_` functions
/// say which answers an implementation may give. One that says nothing may give
/// any.
pub trait SourceProvider {
    /// Whether reading `content` may come to `seen`.
    open spec fn can_read(&self, content: Seq<char>, seen: Observation) -> bool {
        true
    }

    /// Whether the clock may show `now`.
    open spec fn can_be_now(&self, now: u64) -> bool {
        true
    }

    /// Whether looking at `subscription` may come to `seen`.
    open spec fn can_see(&self, subscription: Seq<char>, seen: Observation) -> bool {
        true
    }

    /// Reads the bytes behind a content reference.
    fn read_content(&self, content: &ContentRef) -> (r: Result<Vec<u8>, SourceUnreachable>)
        ensures
            self.can_read(content@, content_observation(r)),
    ;

    /// The current instant.
    fn now(&self) -> (r: Timestamp)
        ensures
            self.can_be_now(r.0),
    ;

    /// The latest event position on a subscription.
    fn latest_event_seq(&self, subscription: &EventKey) -> (r: Result<EventSeq, SourceUnreachable>)
        ensures
            self.can_see(subscription@, latest_observation(r)),
    ;
}

/// Whether observing `source` may come to `seen`.
pub open spec fn observes<P: SourceProvider>(
    provider: P,
    source: SourceView,
    seen: Observation,
) -> bool {
    match source {
        SourceView::Pinnable { content } => seen is Content && provider.can_read(content, seen),
        SourceView::Volatile { .. } => seen matches Observation::Now(now) && provider.can_be_now(
            now,
        ),
        SourceView::Signalled { subscription } => seen is Latest && provider.can_see(
            subscription,
            seen,
        ),
    }
}

/// Whether a token watches this source: same class, and for events the same
/// subscription.
pub open spec fn watches(token: TokenView, source: SourceView) -> bool {
    match (token, source) {
        (TokenView::ContentHash(_), SourceView::Pinnable { .. }) => true,
        (TokenView::Ttl { .. }, SourceView::Volatile { .. }) => true,
        (
            TokenView::EventDriven { subscription, .. },
            SourceView::Signalled { subscription: other },
        ) => subscription == other,
        _ => false,
    }
}

/// Whether a token holds given what was observed of its source. A source that
/// could not be observed makes it not hold.
pub open spec fn valid(token: TokenView, seen: Observation) -> bool {
    match (token, seen) {
        (TokenView::ContentHash(hash), Observation::Content(Ok(bytes))) => digest::sha256_hex(
            bytes,
        ) == hash,
        (TokenView::Ttl { issued_at, ttl }, Observation::Now(now)) => now < types::instant_after(
            issued_at,
            ttl,
        ),
        (TokenView::EventDriven { last_seen, .. }, Observation::Latest(Ok(latest))) => latest
            <= last_seen,
        _ => false,
    }
}

/// The token for a source given what was observed of it.
pub open spec fn issued(source: SourceView, seen: Observation) -> Result<
    TokenView,
    IssueErrorView,
> {
    match source {
        SourceView::Pinnable { content } => match seen {
            Observation::Content(Ok(bytes)) => Ok(
                TokenView::ContentHash(digest::sha256_hex(bytes)),
            ),
            Observation::Content(Err(reason)) => Err(
                IssueErrorView::UnreadableContent { content, reason },
            ),
            _ => arbitrary(),
        },
        SourceView::Volatile { ttl } => Ok(TokenView::Ttl { issued_at: seen->Now_0, ttl }),
        SourceView::Signalled { subscription } => match seen {
            Observation::Latest(Ok(latest)) => Ok(
                TokenView::EventDriven { subscription, last_seen: latest },
            ),
            Observation::Latest(Err(reason)) => Err(
                IssueErrorView::UnobservableSubscription { subscription, reason },
            ),
            _ => arbitrary(),
        },
    }
}

/// Whether checking a token may come to this verdict.
pub open spec fn may_judge<P: SourceProvider>(
    provider: P,
    token: TokenView,
    source: SourceView,
    verdict: bool,
) -> bool {
    if watches(token, source) {
        exists|seen: Observation|
            #![trigger observes(provider, source, seen)]
            observes(provider, source, seen) && verdict == valid(token, seen)
    } else {
        !verdict
    }
}

/// Whether content that was read has the expected hash.
pub fn content_holds(expected: &Sha256, read: &Result<Vec<u8>, SourceUnreachable>) -> (r: bool)
    ensures
        r == valid(TokenView::ContentHash(expected@), content_observation(*read)),
        r == (*read is Ok && expected@ == digest::lower_hex(
            digest::sha256_digest((read->Ok_0)@),
        )),
{
    match read {
        Ok(bytes) => digest::hash_content(bytes.as_slice()).0 == expected.0,
        Err(_) => false,
    }
}

/// Whether `now` is before the end of the window, strictly.
pub fn ttl_holds(issued_at: Timestamp, ttl: Duration, now: Timestamp) -> (r: bool)
    ensures
        r == valid(
            TokenView::Ttl { issued_at: issued_at.0, ttl: ttl.0 },
            Observation::Now(now.0),
        ),
        r == (now.0 < issued_at.0 + ttl.0 && now.0 < u64::MAX),
{
    now.0 < issued_at.plus(ttl).0
}

/// Whether no event after `last_seen` was seen.
pub fn events_hold(last_seen: EventSeq, seen: &Result<EventSeq, SourceUnreachable>) -> (r: bool)
    ensures
        forall|subscription: Seq<char>|
            r == #[trigger] valid(
                TokenView::EventDriven { subscription, last_seen: last_seen.0 },
                latest_observation(*seen),
            ),
        r == (*seen is Ok && seen->Ok_0.0 <= last_seen.0),
{
    proof {
        assert(valid(
            TokenView::EventDriven { subscription: Seq::empty(), last_seen: last_seen.0 },
            latest_observation(*seen),
        ) == (*seen is Ok && seen->Ok_0.0 <= last_seen.0));
    }
    match seen {
        Ok(latest) => latest.0 <= last_seen.0,
        Err(_) => false,
    }
}

/// Issues the token that matches a source's class.
pub fn issue_token<P: SourceProvider>(descriptor: &SourceDescriptor, provider: &P) -> (r: Result<
    ValidityToken,
    IssueError,
>)
    ensures
        exists|seen: Observation|
            #![trigger observes(*provider, descriptor@, seen)]
            observes(*provider, descriptor@, seen) && match r {
                Ok(token) => issued(descriptor@, seen) == Ok::<TokenView, IssueErrorView>(token@),
                Err(e) => issued(descriptor@, seen) == Err::<TokenView, IssueErrorView>(e@),
            },
{
    match descriptor {
        SourceDescriptor::Pinnable { content } => {
            let read = provider.read_content(content);
            let ghost seen = content_observation(read);
            assert(observes(*provider, descriptor@, seen));
            match read {
                Ok(bytes) => Ok(
                    ValidityToken::ContentHash(digest::hash_content(bytes.as_slice())),
                ),
                Err(e) => Err(
                    IssueError::UnreadableContent { content: content.clone(), reason: e.reason },
                ),
            }
        },
        SourceDescriptor::Volatile { ttl } => {
            let now = provider.now();
            assert(observes(*provider, descriptor@, Observation::Now(now.0)));
            Ok(ValidityToken::Ttl { issued_at: now, ttl: *ttl })
        },
        SourceDescriptor::Signalled { subscription } => {
            let latest = provider.latest_event_seq(subscription);
            assert(observes(*provider, descriptor@, latest_observation(latest)));
            match latest {
                Ok(last_seen) => Ok(
                    ValidityToken::EventDriven { subscription: subscription.clone(), last_seen },
                ),
                Err(e) => Err(
                    IssueError::UnobservableSubscription {
                        subscription: subscription.clone(),
                        reason: e.reason,
                    },
                ),
            }
        },
    }
}

/// Whether a token still holds for its source.
pub fn holds<P: SourceProvider>(
    token: &ValidityToken,
    source: &SourceDescriptor,
    provider: &P,
) -> (r: bool)
    ensures
        may_judge(*provider, token@, source@, r),
{
    match (token, source) {
        (ValidityToken::ContentHash(expected), SourceDescriptor::Pinnable { content }) => {
            let read = provider.read_content(content);
            assert(observes(*provider, source@, content_observation(read)));
            content_holds(expected, &read)
        },
        (ValidityToken::Ttl { issued_at, ttl }, SourceDescriptor::Volatile { .. }) => {
            let now = provider.now();
            assert(observes(*provider, source@, Observation::Now(now.0)));
            ttl_holds(*issued_at, *ttl, now)
        },
        (
            ValidityToken::EventDriven { subscription, last_seen },
            SourceDescriptor::Signalled { subscription: other },
        ) => {
            if subscription.0 != other.0 {
                return false;
            }
            let latest = provider.latest_event_seq(subscription);
            assert(observes(*provider, source@, latest_observation(latest)));
            let r = events_hold(*last_seen, &latest);
            assert(r == valid(token@, latest_observation(latest)));
            r
        },
        _ => false,
    }
}

/// A token holds at issuance: under the very observation it was issued from, it
/// holds, unless its window is empty or starts at the end of time.
pub proof fn law_issued_token_holds(source: SourceView, seen: Observation)
    requires
        issued(source, seen) is Ok,
        match source {
            SourceView::Pinnable { .. } => seen is Content,
            SourceView::Volatile { ttl } => seen is Now && ttl > 0 && seen->Now_0 < u64::MAX,
            SourceView::Signalled { .. } => seen is Latest,
        },
    ensures
        watches(issued(source, seen)->Ok_0, source),
        valid(issued(source, seen)->Ok_0, seen),
{
}

/// A source that cannot be observed keeps no token valid.
pub proof fn law_unreachable_source_holds_nothing(token: TokenView, seen: Observation)
    requires
        match seen {
            Observation::Content(read) => read is Err,
            Observation::Latest(read) => read is Err,
            Observation::Now(_) => false,
        },
    ensures
        !valid(token, seen),
{
}

/// A window that has ended stays ended: a token whose window held no more at
/// one instant does not hold at a later one.
pub proof fn law_expired_stays_expired(issued_at: u64, ttl: u64, now: u64, later: u64)
    requires
        now <= later,
        !valid(TokenView::Ttl { issued_at, ttl }, Observation::Now(now)),
    ensures
        !valid(TokenView::Ttl { issued_at, ttl }, Observation::Now(later)),
{
}

} // verus!
