//! The exact-match evidence cache.

use vstd::prelude::*;

use crate::keyed;
use crate::tier1::tokens;
use crate::tier1::tokens::{IssueError, IssueErrorView, Observation, SourceProvider};
use crate::types::{
    CanonicalJson, EvidenceValue, SourceDescriptor, SourceView, Timestamp, TokenView, ToolName,
    ValidityToken,
};
use crate::views;

verus! {

/// A cached result, the token that decides whether it is fresh, and the source
/// that produced it.
#[derive(Debug, PartialEq, Eq)]
pub struct CacheEntry {
    /// The tool whose result this is.
    pub tool: ToolName,
    /// The canonical arguments; with `tool` they are the key.
    pub normalized_args: CanonicalJson,
    /// The token that decides whether the entry is fresh.
    pub validity_token: ValidityToken,
    /// The result.
    pub evidence_value: EvidenceValue,
    /// The source to observe when checking the token.
    pub source: SourceDescriptor,
    /// When the entry was written.
    pub stored_at: Timestamp,
}

/// The content of an entry.
#[verifier::ext_equal]
pub struct CacheEntryView {
    pub tool: Seq<char>,
    pub normalized_args: Seq<char>,
    pub validity_token: TokenView,
    pub evidence_value: Seq<char>,
    pub source: SourceView,
    pub stored_at: u64,
}

impl CacheEntryView {
    /// The key the entry is found under.
    pub open spec fn key(self) -> (Seq<char>, Seq<char>) {
        (self.tool, self.normalized_args)
    }
}

impl View for CacheEntry {
    type V = CacheEntryView;

    open spec fn view(&self) -> CacheEntryView {
        CacheEntryView {
            tool: self.tool@,
            normalized_args: self.normalized_args@,
            validity_token: self.validity_token@,
            evidence_value: self.evidence_value@,
            source: self.source@,
            stored_at: self.stored_at.0,
        }
    }
}

impl Clone for CacheEntry {
    fn clone(&self) -> (r: Self)
        ensures
            r == *self,
    {
        CacheEntry {
            tool: self.tool.clone(),
            normalized_args: self.normalized_args.clone(),
            validity_token: self.validity_token.clone(),
            evidence_value: self.evidence_value.clone(),
            source: self.source.clone(),
            stored_at: self.stored_at,
        }
    }
}

/// What a read of the cache came to.
#[derive(Debug, PartialEq, Eq)]
pub enum CacheLookup {
    /// An entry whose token holds, with its value.
    Hit(EvidenceValue),
    /// An entry whose token does not hold.
    Stale,
    /// No entry.
    Miss,
}

/// The content of a lookup.
#[verifier::ext_equal]
pub enum CacheLookupView {
    Hit(Seq<char>),
    Stale,
    Miss,
}

impl View for CacheLookup {
    type V = CacheLookupView;

    open spec fn view(&self) -> CacheLookupView {
        match *self {
            CacheLookup::Hit(v) => CacheLookupView::Hit(v@),
            CacheLookup::Stale => CacheLookupView::Stale,
            CacheLookup::Miss => CacheLookupView::Miss,
        }
    }
}

impl Clone for CacheLookup {
    fn clone(&self) -> (r: Self)
        ensures
            r == *self,
    {
        match self {
            CacheLookup::Hit(v) => CacheLookup::Hit(v.clone()),
            CacheLookup::Stale => CacheLookup::Stale,
            CacheLookup::Miss => CacheLookup::Miss,
        }
    }
}

/// Whether a recorded token still holds.
#[derive(Debug, Clone, Copy, PartialEq, Eq, Structural)]
pub enum Freshness {
    /// It holds.
    Fresh,
    /// It does not hold, or its source could not be observed.
    Stale,
}

/// A write was refused because its token did not hold.
#[derive(Debug, Clone, Copy, PartialEq, Eq, Structural)]
pub struct PutRejected;

impl PutRejected {
    /// The message that reports the refusal.
    pub fn to_string(&self) -> (r: String)
        ensures
            r@ == "cache write rejected: validity token did not hold at write time"@,
    {
        "cache write rejected: validity token did not hold at write time".to_owned()
    }
}

/// What reading an entry comes to, given whether its token holds.
pub open spec fn looked_up(
    entries: Map<(Seq<char>, Seq<char>), CacheEntryView>,
    key: (Seq<char>, Seq<char>),
    token_holds: bool,
) -> CacheLookupView {
    if !entries.dom().contains(key) {
        CacheLookupView::Miss
    } else if token_holds {
        CacheLookupView::Hit(entries[key].evidence_value)
    } else {
        CacheLookupView::Stale
    }
}

/// A cache of tool results, at most one entry for a tool and its arguments.
///
/// An implementation names its entries.
pub trait Tier1Cache: Sized {
    /// The entries, by tool and canonical arguments.
    spec fn entries(&self) -> Map<(Seq<char>, Seq<char>), CacheEntryView>;

    /// Whether the cache is in order.
    spec fn wf(&self) -> bool;

    /// Reads an entry. A value is served only while its token holds.
    fn get<P: SourceProvider>(
        &self,
        tool: &ToolName,
        args: &CanonicalJson,
        provider: &P,
    ) -> (r: CacheLookup)
        requires
            self.wf(),
        ensures
            !self.entries().dom().contains((tool@, args@)) ==> r@ == CacheLookupView::Miss,
            self.entries().dom().contains((tool@, args@)) ==> exists|token_holds: bool|
                #[trigger] tokens::may_judge(
                    *provider,
                    self.entries()[(tool@, args@)].validity_token,
                    self.entries()[(tool@, args@)].source,
                    token_holds,
                ) && r@ == looked_up(self.entries(), (tool@, args@), token_holds),
    ;

    /// Writes an entry in place of any for the same key, if its token holds.
    fn put<P: SourceProvider>(
        &mut self,
        tool: &ToolName,
        args: &CanonicalJson,
        source: &SourceDescriptor,
        token: ValidityToken,
        value: EvidenceValue,
        provider: &P,
    ) -> (r: Result<(), PutRejected>)
        requires
            old(self).wf(),
        ensures
            final(self).wf(),
            tokens::may_judge(*provider, token@, source@, r is Ok),
            r is Err ==> final(self).entries() == old(self).entries(),
            r is Ok ==> exists|stored_at: u64|
                #[trigger] provider.can_be_now(stored_at) && final(self).entries() == old(
                    self,
                ).entries().insert(
                    (tool@, args@),
                    CacheEntryView {
                        tool: tool@,
                        normalized_args: args@,
                        validity_token: token@,
                        evidence_value: value@,
                        source: source@,
                        stored_at,
                    },
                ),
    ;

    /// Issues a token for a source.
    fn issue_token<P: SourceProvider>(&self, source: &SourceDescriptor, provider: &P) -> (r: Result<
        ValidityToken,
        IssueError,
    >)
        ensures
            exists|seen: Observation|
                #![trigger tokens::observes(*provider, source@, seen)]
                tokens::observes(*provider, source@, seen) && match r {
                    Ok(token) => tokens::issued(source@, seen) == Ok::<TokenView, IssueErrorView>(
                        token@,
                    ),
                    Err(e) => tokens::issued(source@, seen) == Err::<TokenView, IssueErrorView>(e@),
                },
    ;

    /// Checks a recorded token. No value is read or handed out.
    fn revalidate<P: SourceProvider>(
        &self,
        tool: &ToolName,
        args: &CanonicalJson,
        source: &SourceDescriptor,
        token: &ValidityToken,
        provider: &P,
    ) -> (r: Freshness)
        ensures
            tokens::may_judge(*provider, token@, source@, r == Freshness::Fresh),
    ;
}

/// An evidence cache in memory.
#[derive(Debug)]
pub struct InMemoryTier1Cache {
    entries: Vec<CacheEntry>,
}

/// The keys of entries.
pub open spec fn entry_keys(entries: Seq<CacheEntry>) -> Seq<(Seq<char>, Seq<char>)> {
    entries.map_values(|e: CacheEntry| e@.key())
}

impl InMemoryTier1Cache {
    /// Whether no key occurs twice.
    pub closed spec fn keys_distinct(self) -> bool {
        entry_keys(self.entries@).no_duplicates()
    }

    /// The entries, by tool and canonical arguments.
    pub closed spec fn by_key(self) -> Map<(Seq<char>, Seq<char>), CacheEntryView> {
        keyed::map_of(entry_keys(self.entries@), views::of_seq(self.entries@))
    }

    /// A cache without entries.
    pub fn new() -> (r: Self)
        ensures
            r.wf(),
            r.entries() == Map::<(Seq<char>, Seq<char>), CacheEntryView>::empty(),
    {
        let r = InMemoryTier1Cache { entries: Vec::new() };
        assert(r.by_key() =~= Map::<(Seq<char>, Seq<char>), CacheEntryView>::empty());
        r
    }

    /// How many entries there are.
    pub fn len(&self) -> (r: usize)
        requires
            self.wf(),
        ensures
            r == self.entries().dom().len(),
    {
        proof {
            let keys = entry_keys(self.entries@);
            keys.unique_seq_to_set();
            assert(self.by_key().dom() =~= keys.to_set());
        }
        self.entries.len()
    }

    fn position(&self, tool: &ToolName, args: &CanonicalJson) -> (r: Option<usize>)
        requires
            self.keys_distinct(),
        ensures
            match r {
                Some(i) => i < self.entries@.len() && entry_keys(self.entries@)[i as int] == (
                    tool@,
                    args@,
                ) && self.by_key().dom().contains((tool@, args@)) && self.by_key()[(tool@, args@)]
                    == self.entries@[i as int]@,
                None => !entry_keys(self.entries@).contains((tool@, args@)),
            },
    {
        let ghost keys = entry_keys(self.entries@);
        let mut i: usize = 0;
        while i < self.entries.len()
            invariant
                self.keys_distinct(),
                keys == entry_keys(self.entries@),
                i <= self.entries@.len(),
                forall|j: int| 0 <= j < i ==> #[trigger] keys[j] != (tool@, args@),
            decreases self.entries@.len() - i,
        {
            let e = &self.entries[i];
            assert(keys[i as int] == (e.tool@, e.normalized_args@));
            if e.tool.0 == tool.0 && e.normalized_args.0 == args.0 {
                proof {
                    keyed::lemma_at(keys, views::of_seq(self.entries@), i as int);
                }
                return Some(i);
            }
            i += 1;
        }
        None
    }
}

impl Default for InMemoryTier1Cache {
    fn default() -> (r: Self)
        ensures
            r.wf(),
            r.entries() == Map::<(Seq<char>, Seq<char>), CacheEntryView>::empty(),
    {
        InMemoryTier1Cache::new()
    }
}

impl Tier1Cache for InMemoryTier1Cache {
    open spec fn entries(&self) -> Map<(Seq<char>, Seq<char>), CacheEntryView> {
        self.by_key()
    }

    open spec fn wf(&self) -> bool {
        self.keys_distinct()
    }

    fn get<P: SourceProvider>(
        &self,
        tool: &ToolName,
        args: &CanonicalJson,
        provider: &P,
    ) -> (r: CacheLookup) {
        match self.position(tool, args) {
            None => CacheLookup::Miss,
            Some(i) => {
                let entry = &self.entries[i];
                let fresh: bool = tokens::holds(&entry.validity_token, &entry.source, provider);
                let r = if fresh {
                    CacheLookup::Hit(entry.evidence_value.clone())
                } else {
                    CacheLookup::Stale
                };
                assert(r@ == looked_up(self.entries(), (tool@, args@), fresh));
                r
            },
        }
    }

    fn put<P: SourceProvider>(
        &mut self,
        tool: &ToolName,
        args: &CanonicalJson,
        source: &SourceDescriptor,
        token: ValidityToken,
        value: EvidenceValue,
        provider: &P,
    ) -> (r: Result<(), PutRejected>) {
        if !tokens::holds(&token, source, provider) {
            return Err(PutRejected);
        }
        let entry = CacheEntry {
            tool: tool.clone(),
            normalized_args: args.clone(),
            validity_token: token,
            evidence_value: value,
            source: source.clone(),
            stored_at: provider.now(),
        };
        let ghost written = entry@;
        let ghost before = self.entries@;
        let ghost keys = entry_keys(before);
        assert(provider.can_be_now(written.stored_at));
        match self.position(tool, args) {
            Some(i) => {
                self.entries[i] = entry;
                proof {
                    assert(entry_keys(self.entries@) =~= keys);
                    assert(views::of_seq(self.entries@) =~= views::of_seq(before).update(
                        i as int,
                        written,
                    ));
                    keyed::lemma_update(keys, views::of_seq(before), i as int, written);
                }
            },
            None => {
                self.entries.push(entry);
                proof {
                    assert(entry_keys(self.entries@) =~= keys.push(written.key()));
                    assert(views::of_seq(self.entries@) =~= views::of_seq(before).push(written));
                    keyed::lemma_push(keys, views::of_seq(before), written.key(), written);
                }
            },
        }
        Ok(())
    }

    fn issue_token<P: SourceProvider>(&self, source: &SourceDescriptor, provider: &P) -> (r: Result<
        ValidityToken,
        IssueError,
    >) {
        tokens::issue_token(source, provider)
    }

    fn revalidate<P: SourceProvider>(
        &self,
        tool: &ToolName,
        args: &CanonicalJson,
        source: &SourceDescriptor,
        token: &ValidityToken,
        provider: &P,
    ) -> (r: Freshness) {
        if tokens::holds(token, source, provider) {
            Freshness::Fresh
        } else {
            Freshness::Stale
        }
    }
}

/// A read gives back what was written: while its token holds, the entry that a
/// write left is a hit with the written value; once the token does not hold, it
/// is stale; and every other key reads as before.
pub proof fn law_read_after_write(
    before: Map<(Seq<char>, Seq<char>), CacheEntryView>,
    written: CacheEntryView,
    key: (Seq<char>, Seq<char>),
    token_holds: bool,
)
    ensures
        looked_up(before.insert(written.key(), written), written.key(), token_holds) == (
        if token_holds {
            CacheLookupView::Hit(written.evidence_value)
        } else {
            CacheLookupView::Stale
        }),
        key != written.key() ==> looked_up(
            before.insert(written.key(), written),
            key,
            token_holds,
        ) == looked_up(before, key, token_holds),
{
}

/// A value is never served while its token does not hold.
pub proof fn law_no_hit_without_holding_token(
    entries: Map<(Seq<char>, Seq<char>), CacheEntryView>,
    key: (Seq<char>, Seq<char>),
)
    ensures
        looked_up(entries, key, false) !is Hit,
{
}

} // verus!
