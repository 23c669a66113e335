//! When a token holds, in terms of what was read, the clock and the events.

use vstd::prelude::*;

use crate::digest;
use crate::tier1::cache;
use crate::tier1::cache::{CacheEntryView, CacheLookupView};
use crate::tier1::tokens;
use crate::tier1::tokens::{IssueErrorView, Observation, SourceProvider};
use crate::types::{SourceView, TokenView};

verus! {

/// A token for content is the digest of all the bytes that were read, and it holds
/// against what is read later exactly when that has the same digest.
pub proof fn law_content_token_covers_all_bytes(
    content: Seq<char>,
    bytes: Seq<u8>,
    later: Seq<u8>,
)
    ensures
        tokens::issued(
            SourceView::Pinnable { content },
            Observation::Content(Ok(bytes)),
        ) == Ok::<TokenView, IssueErrorView>(
            TokenView::ContentHash(digest::lower_hex(digest::sha256_digest(bytes))),
        ),
        tokens::valid(
            tokens::issued(
                SourceView::Pinnable { content },
                Observation::Content(Ok(bytes)),
            )->Ok_0,
            Observation::Content(Ok(later)),
        ) <==> digest::sha256_digest(later) == digest::sha256_digest(bytes),
{
    if digest::lower_hex(digest::sha256_digest(later)) == digest::lower_hex(
        digest::sha256_digest(bytes),
    ) {
        digest::lemma_lower_hex_injective(
            digest::sha256_digest(later),
            digest::sha256_digest(bytes),
        );
    }
}

/// A change of the content is seen, collisions aside, wherever in the content it
/// is.
pub proof fn law_changed_content_is_stale(content: Seq<char>, bytes: Seq<u8>, later: Seq<u8>)
    requires
        later != bytes,
        digest::sha256_digest(later) != digest::sha256_digest(bytes),
    ensures
        !tokens::valid(
            tokens::issued(
                SourceView::Pinnable { content },
                Observation::Content(Ok(bytes)),
            )->Ok_0,
            Observation::Content(Ok(later)),
        ),
{
    law_content_token_covers_all_bytes(content, bytes, later);
}

/// Any content token holds exactly where the bytes read have its digest.
pub proof fn law_content_token_holds_for_its_digest(hash: Seq<char>, bytes: Seq<u8>)
    ensures
        tokens::valid(TokenView::ContentHash(hash), Observation::Content(Ok(bytes))) <==> hash
            == digest::lower_hex(digest::sha256_digest(bytes)),
{
}

/// A token for a volatile source starts at the instant that the clock showed and
/// lasts as long as the source says. It holds before its end and not at it, and the
/// end is never past the end of time.
pub proof fn law_window_is_half_open(ttl: u64, start: u64, now: u64)
    ensures
        tokens::issued(SourceView::Volatile { ttl }, Observation::Now(start)) == Ok::<
            TokenView,
            IssueErrorView,
        >(TokenView::Ttl { issued_at: start, ttl }),
        tokens::valid(TokenView::Ttl { issued_at: start, ttl }, Observation::Now(now)) <==> now
            < start + ttl && now < u64::MAX,
{
}

/// A token for events holds exactly as long as no event came after the latest that
/// was seen when it was issued.
pub proof fn law_events_after_issuance_are_seen(
    subscription: Seq<char>,
    seen: u64,
    latest: u64,
)
    ensures
        tokens::issued(
            SourceView::Signalled { subscription },
            Observation::Latest(Ok(seen)),
        ) == Ok::<TokenView, IssueErrorView>(
            TokenView::EventDriven { subscription, last_seen: seen },
        ),
        tokens::valid(
            TokenView::EventDriven { subscription, last_seen: seen },
            Observation::Latest(Ok(latest)),
        ) <==> !(latest > seen),
{
}

/// A source that cannot be observed gets no token, and the error says which source
/// and why.
pub proof fn law_unreachable_source_gets_no_token(name: Seq<char>, reason: Seq<char>)
    ensures
        tokens::issued(
            SourceView::Pinnable { content: name },
            Observation::Content(Err(reason)),
        ) == Err::<TokenView, IssueErrorView>(
            IssueErrorView::UnreadableContent { content: name, reason },
        ),
        tokens::issued(
            SourceView::Signalled { subscription: name },
            Observation::Latest(Err(reason)),
        ) == Err::<TokenView, IssueErrorView>(
            IssueErrorView::UnobservableSubscription { subscription: name, reason },
        ),
{
}

/// A check that finds a content token to hold has read bytes with its digest from
/// that very content; one that does not has read something else or nothing.
pub proof fn law_content_check_reads_the_content<P: SourceProvider>(
    provider: P,
    hash: Seq<char>,
    content: Seq<char>,
    verdict: bool,
)
    requires
        tokens::may_judge(
            provider,
            TokenView::ContentHash(hash),
            SourceView::Pinnable { content },
            verdict,
        ),
    ensures
        verdict ==> exists|bytes: Seq<u8>| #[trigger]
            provider.can_read(content, Observation::Content(Ok(bytes))) && hash
                == digest::lower_hex(digest::sha256_digest(bytes)),
        !verdict ==> exists|read: Result<Seq<u8>, Seq<char>>| #[trigger]
            provider.can_read(content, Observation::Content(read)) && (read is Err || hash
                != digest::lower_hex(digest::sha256_digest(read->Ok_0))),
{
    let seen = choose|seen: Observation|
        #![trigger tokens::observes(provider, SourceView::Pinnable { content }, seen)]
        tokens::observes(provider, SourceView::Pinnable { content }, seen) && verdict
            == tokens::valid(TokenView::ContentHash(hash), seen);
    let read = seen->Content_0;
    assert(seen == Observation::Content(read));
    assert(provider.can_read(content, Observation::Content(read)));
    if verdict {
        assert(read is Ok);
        let bytes = read->Ok_0;
        assert(read == Ok::<Seq<u8>, Seq<char>>(bytes));
        assert(provider.can_read(content, Observation::Content(Ok(bytes))));
    }
}

/// A check of a window goes by an instant that the clock can show.
pub proof fn law_window_check_reads_the_clock<P: SourceProvider>(
    provider: P,
    issued_at: u64,
    ttl: u64,
    source_ttl: u64,
    verdict: bool,
)
    requires
        tokens::may_judge(
            provider,
            TokenView::Ttl { issued_at, ttl },
            SourceView::Volatile { ttl: source_ttl },
            verdict,
        ),
    ensures
        exists|now: u64| #[trigger]
            provider.can_be_now(now) && verdict == (now < issued_at + ttl && now < u64::MAX),
{
    let seen = choose|seen: Observation|
        #![trigger tokens::observes(provider, SourceView::Volatile { ttl: source_ttl }, seen)]
        tokens::observes(provider, SourceView::Volatile { ttl: source_ttl }, seen) && verdict
            == tokens::valid(TokenView::Ttl { issued_at, ttl }, seen);
    assert(provider.can_be_now(seen->Now_0));
}

/// A check of an event token goes by a look at its own subscription.
pub proof fn law_event_check_reads_the_subscription<P: SourceProvider>(
    provider: P,
    subscription: Seq<char>,
    last_seen: u64,
    verdict: bool,
)
    requires
        tokens::may_judge(
            provider,
            TokenView::EventDriven { subscription, last_seen },
            SourceView::Signalled { subscription },
            verdict,
        ),
    ensures
        exists|read: Result<u64, Seq<char>>| #[trigger]
            provider.can_see(subscription, Observation::Latest(read)) && verdict == (read is Ok
                && read->Ok_0 <= last_seen),
{
    let source = SourceView::Signalled { subscription };
    let seen = choose|seen: Observation|
        #![trigger tokens::observes(provider, source, seen)]
        tokens::observes(provider, source, seen) && verdict == tokens::valid(
            TokenView::EventDriven { subscription, last_seen },
            seen,
        );
    let read = seen->Latest_0;
    assert(seen == Observation::Latest(read));
    assert(provider.can_see(subscription, Observation::Latest(read)));
}

/// A token does not hold for a source of another class, nor for another
/// subscription, whatever is observed.
pub proof fn law_token_holds_for_its_own_source_only<P: SourceProvider>(
    provider: P,
    token: TokenView,
    source: SourceView,
    verdict: bool,
)
    requires
        tokens::may_judge(provider, token, source, verdict),
        match token {
            TokenView::ContentHash(_) => !(source is Pinnable),
            TokenView::Ttl { .. } => !(source is Volatile),
            TokenView::EventDriven { subscription, .. } => !(source
                == SourceView::Signalled { subscription }),
        },
    ensures
        !verdict,
{
}

/// A cached value is served exactly where there is an entry for the tool and its
/// arguments and the entry's token holds, and it is the value that was stored.
pub proof fn law_lookup_serves_stored_values(
    entries: Map<(Seq<char>, Seq<char>), CacheEntryView>,
    key: (Seq<char>, Seq<char>),
    token_holds: bool,
)
    ensures
        cache::looked_up(entries, key, token_holds) is Miss <==> !entries.dom().contains(key),
        cache::looked_up(entries, key, token_holds) is Stale <==> entries.dom().contains(key)
            && !token_holds,
        cache::looked_up(entries, key, token_holds) matches CacheLookupView::Hit(value)
            ==> entries.dom().contains(key) && token_holds && value == entries[key].evidence_value,
{
}

/// A stored value is found again by its tool and its arguments, and by these alone:
/// entries share a place exactly where they have both in common.
pub proof fn law_entries_are_kept_by_tool_and_arguments(
    entries: Map<(Seq<char>, Seq<char>), CacheEntryView>,
    entry: CacheEntryView,
    tool: Seq<char>,
    args: Seq<char>,
    token_holds: bool,
)
    ensures
        ({
            let after = entries.insert(entry.key(), entry);
            &&& entry.tool == tool && entry.normalized_args == args ==> cache::looked_up(
                after,
                (tool, args),
                token_holds,
            ) == (if token_holds {
                CacheLookupView::Hit(entry.evidence_value)
            } else {
                CacheLookupView::Stale
            })
            &&& entry.tool != tool || entry.normalized_args != args ==> cache::looked_up(
                after,
                (tool, args),
                token_holds,
            ) == cache::looked_up(entries, (tool, args), token_holds)
        }),
{
}

} // verus!
