//! The cache of vectors: bounded, and evicting what was used least recently.

use vstd::prelude::*;

use crate::tier2::memory::Embedding;
use crate::views;

verus! {

/// What a vector is cached under: the model that made it and the text it was
/// made from.
#[derive(Debug, PartialEq, Eq, Hash)]
pub struct EmbeddingCacheKey {
    /// The model.
    pub model: String,
    /// The text.
    pub input: String,
}

impl View for EmbeddingCacheKey {
    type V = (Seq<char>, Seq<char>);

    open spec fn view(&self) -> (Seq<char>, Seq<char>) {
        (self.model@, self.input@)
    }
}

impl Clone for EmbeddingCacheKey {
    fn clone(&self) -> (r: Self)
        ensures
            r == *self,
    {
        EmbeddingCacheKey { model: self.model.clone(), input: self.input.clone() }
    }
}

/// A key and the vector cached under it.
pub type Entry = ((Seq<char>, Seq<char>), Seq<u32>);

/// The keys of entries, in order.
pub open spec fn keys(entries: Seq<Entry>) -> Seq<(Seq<char>, Seq<char>)> {
    entries.map_values(|e: Entry| e.0)
}

/// The vector under a key, if there is one.
pub open spec fn lookup(entries: Seq<Entry>, key: (Seq<char>, Seq<char>)) -> Option<Seq<u32>> {
    if keys(entries).contains(key) {
        Some(entries[keys(entries).index_of(key)].1)
    } else {
        None
    }
}

/// The entries without the one under a key.
pub open spec fn without(entries: Seq<Entry>, key: (Seq<char>, Seq<char>)) -> Seq<Entry> {
    if keys(entries).contains(key) {
        entries.remove(keys(entries).index_of(key))
    } else {
        entries
    }
}

/// The entries, least recently used first, after the one under the key was used.
pub open spec fn touched(entries: Seq<Entry>, key: (Seq<char>, Seq<char>)) -> Seq<Entry> {
    match lookup(entries, key) {
        Some(value) => without(entries, key).push((key, value)),
        None => entries,
    }
}

/// The entries, least recently used first, after a vector was put under a key:
/// where the key is new and the limit is reached, the first entry goes.
pub open spec fn stored(
    entries: Seq<Entry>,
    limit: nat,
    key: (Seq<char>, Seq<char>),
    value: Seq<u32>,
) -> Seq<Entry> {
    if !keys(entries).contains(key) && entries.len() >= limit {
        entries.drop_first().push((key, value))
    } else {
        without(entries, key).push((key, value))
    }
}

/// Makes the type `lru::LruCache` known.
#[verifier::external_type_specification]
#[verifier::external_body]
#[verifier::reject_recursive_types(K)]
#[verifier::reject_recursive_types(V)]
#[verifier::reject_recursive_types(S)]
pub struct ExLruCache<K, V, S>(lru::LruCache<K, V, S>);

/// Makes the type `lru::DefaultHasher` known.
#[verifier::external_type_specification]
#[verifier::external_body]
pub struct ExDefaultHasher(lru::DefaultHasher);

/// What an `lru::LruCache` holds, least recently used first.
pub uninterp spec fn lru_entries(cache: lru::LruCache<(String, String), Vec<u32>>) -> Seq<
    ((Seq<char>, Seq<char>), Seq<u32>),
>;

/// How many entries an `lru::LruCache` was made for.
pub uninterp spec fn lru_limit(cache: lru::LruCache<(String, String), Vec<u32>>) -> nat;

/// The greatest limit whose table can be laid out in memory.
pub open spec fn greatest_limit() -> int {
    usize::MAX as int / 128
}

/// Calls `lru::LruCache::new`: the cache is empty and made for `limit` entries.
///
/// The call reserves its table at once, and panics where a table of that size
/// cannot be laid out; such limits are left out.
#[verifier::external_body]
fn lru_new(limit: usize) -> (r: lru::LruCache<(String, String), Vec<u32>>)
    requires
        0 < limit <= greatest_limit(),
    ensures
        lru_entries(r) == Seq::<Entry>::empty(),
        lru_limit(r) == limit,
{
    lru::LruCache::new(std::num::NonZeroUsize::new(limit).unwrap())
}

/// Calls `lru::LruCache::get`: returns a copy of the value under the key, whose
/// entry becomes the most recently used; a miss changes nothing.
#[verifier::external_body]
fn lru_get(
    cache: &mut lru::LruCache<(String, String), Vec<u32>>,
    key: &(String, String),
) -> (r: Option<Vec<u32>>)
    ensures
        lru_limit(*final(cache)) == lru_limit(*old(cache)),
        lru_entries(*final(cache)) == touched(lru_entries(*old(cache)), (key.0@, key.1@)),
        views::of_option(r) == lookup(lru_entries(*old(cache)), (key.0@, key.1@)),
{
    cache.get(key).cloned()
}

/// Calls `lru::LruCache::put`: the value stands under the key as the most
/// recently used entry; where the key is new and the cache is full, the least
/// recently used entry is gone.
#[verifier::external_body]
fn lru_put(
    cache: &mut lru::LruCache<(String, String), Vec<u32>>,
    key: (String, String),
    value: Vec<u32>,
)
    ensures
        lru_limit(*final(cache)) == lru_limit(*old(cache)),
        lru_entries(*final(cache)) == stored(
            lru_entries(*old(cache)),
            lru_limit(*old(cache)),
            (key.0@, key.1@),
            value@,
        ),
{
    cache.put(key, value);
}

/// Calls `lru::LruCache::contains`: whether an entry stands under the key.
#[verifier::external_body]
fn lru_contains(
    cache: &lru::LruCache<(String, String), Vec<u32>>,
    key: &(String, String),
) -> (r: bool)
    ensures
        r == keys(lru_entries(*cache)).contains((key.0@, key.1@)),
{
    cache.contains(key)
}

/// A bounded cache of vectors.
pub struct EmbeddingCache {
    inner: Option<lru::LruCache<(String, String), Vec<u32>>>,
}

/// The content of a cache.
#[verifier::ext_equal]
pub struct CacheView {
    /// The entries, least recently used first.
    pub entries: Seq<Entry>,
    /// How many entries it holds at most.
    pub capacity: nat,
}

impl CacheView {
    /// Whether the entries have distinct keys and are no more than allowed.
    pub open spec fn sound(self) -> bool {
        keys(self.entries).no_duplicates() && self.entries.len() <= self.capacity
    }

    /// The cache after the entry under the key was used.
    pub open spec fn touched(self, key: (Seq<char>, Seq<char>)) -> CacheView {
        CacheView { entries: touched(self.entries, key), capacity: self.capacity }
    }

    /// The cache after a vector was put under the key; without capacity nothing
    /// is kept.
    pub open spec fn stored(self, key: (Seq<char>, Seq<char>), value: Seq<u32>) -> CacheView {
        if self.capacity == 0 {
            self
        } else {
            CacheView {
                entries: stored(self.entries, self.capacity, key, value),
                capacity: self.capacity,
            }
        }
    }
}

impl View for EmbeddingCache {
    type V = CacheView;

    closed spec fn view(&self) -> CacheView {
        match self.inner {
            Some(cache) => CacheView {
                entries: lru_entries(cache),
                capacity: lru_limit(cache),
            },
            None => CacheView { entries: Seq::empty(), capacity: 0 },
        }
    }
}

impl EmbeddingCache {
    /// Whether the cache is in a state that its operations keep.
    pub closed spec fn wf(&self) -> bool {
        self@.sound() && (self.inner is Some ==> self@.capacity > 0)
    }

    /// A cache for at most `capacity` entries; for none, it keeps nothing.
    pub fn new(capacity: usize) -> (r: Self)
        requires
            capacity <= greatest_limit(),
        ensures
            r.wf(),
            r@.sound(),
            r@ == (CacheView { entries: Seq::empty(), capacity: capacity as nat }),
    {
        if capacity == 0 {
            EmbeddingCache { inner: None }
        } else {
            EmbeddingCache { inner: Some(lru_new(capacity)) }
        }
    }

    /// The vector under the key, whose entry becomes the most recently used.
    pub fn get(&mut self, key: &EmbeddingCacheKey) -> (r: Option<Embedding>)
        requires
            old(self).wf(),
        ensures
            final(self).wf(),
            final(self)@.sound(),
            final(self)@ == old(self)@.touched(key@),
            views::of_option(r) == lookup(old(self)@.entries, key@),
    {
        proof {
            lemma_touched(self@, key@);
        }
        match &mut self.inner {
            Some(cache) => {
                let pair = (key.model.clone(), key.input.clone());
                match lru_get(cache, &pair) {
                    Some(bits) => Some(Embedding(bits)),
                    None => None,
                }
            },
            None => None,
        }
    }

    /// Puts a vector under a key and says whether it is kept.
    pub fn put(&mut self, key: EmbeddingCacheKey, value: Embedding) -> (r: bool)
        requires
            old(self).wf(),
        ensures
            final(self).wf(),
            final(self)@.sound(),
            final(self)@ == old(self)@.stored(key@, value@),
            r == (old(self)@.capacity > 0),
    {
        proof {
            lemma_stored(self@, key@, value@);
        }
        match &mut self.inner {
            Some(cache) => {
                let pair = (key.model.clone(), key.input.clone());
                lru_put(cache, (key.model, key.input), value.0);
                lru_contains(cache, &pair)
            },
            None => false,
        }
    }
}

proof fn lemma_without(entries: Seq<Entry>, key: (Seq<char>, Seq<char>))
    requires
        keys(entries).no_duplicates(),
    ensures
        keys(without(entries, key)).no_duplicates(),
        !keys(without(entries, key)).contains(key),
        keys(entries).contains(key) ==> without(entries, key).len() == entries.len() - 1,
        forall|k: (Seq<char>, Seq<char>)|
            k != key ==> #[trigger] lookup(without(entries, key), k) == lookup(entries, k),
{
    let rest = without(entries, key);
    if keys(entries).contains(key) {
        let at = keys(entries).index_of(key);
        assert(keys(entries)[at] == key);
        assert forall|i: int| 0 <= i < rest.len() implies #[trigger] keys(rest)[i] == keys(
            entries,
        )[if i < at {
            i
        } else {
            i + 1
        }] by {}
        if keys(rest).contains(key) {
            let j = keys(rest).index_of(key);
            assert(keys(rest)[j] == key);
        }
        assert forall|k: (Seq<char>, Seq<char>)| k != key implies #[trigger] lookup(rest, k)
            == lookup(entries, k) by {
            if keys(entries).contains(k) {
                let i = keys(entries).index_of(k);
                let j = if i < at {
                    i
                } else {
                    i - 1
                };
                assert(keys(rest)[j] == k);
                lemma_lookup(rest, j);
            } else if keys(rest).contains(k) {
                let j = keys(rest).index_of(k);
                assert(keys(rest)[j] == k);
            }
        }
    }
}

/// The vector of an entry is found under its key.
pub proof fn lemma_lookup(entries: Seq<Entry>, i: int)
    requires
        keys(entries).no_duplicates(),
        0 <= i < entries.len(),
    ensures
        lookup(entries, entries[i].0) == Some(entries[i].1),
{
    assert(keys(entries)[i] == entries[i].0);
    let j = keys(entries).index_of(entries[i].0);
    assert(keys(entries)[j] == entries[i].0);
}

proof fn lemma_push(entries: Seq<Entry>, key: (Seq<char>, Seq<char>), value: Seq<u32>)
    requires
        keys(entries).no_duplicates(),
        !keys(entries).contains(key),
    ensures
        keys(entries.push((key, value))).no_duplicates(),
        lookup(entries.push((key, value)), key) == Some(value),
        forall|k: (Seq<char>, Seq<char>)|
            k != key ==> #[trigger] lookup(entries.push((key, value)), k) == lookup(entries, k),
{
    let more = entries.push((key, value));
    assert(keys(more) =~= keys(entries).push(key));
    assert forall|i: int, j: int|
        0 <= i < more.len() && 0 <= j < more.len() && i != j implies keys(more)[i] != keys(
        more,
    )[j] by {
        if i < entries.len() {
            assert(keys(entries).contains(keys(entries)[i]));
        }
        if j < entries.len() {
            assert(keys(entries).contains(keys(entries)[j]));
        }
    }
    lemma_lookup(more, entries.len() as int);
    assert forall|k: (Seq<char>, Seq<char>)| k != key implies #[trigger] lookup(more, k) == lookup(
        entries,
        k,
    ) by {
        if keys(entries).contains(k) {
            let i = keys(entries).index_of(k);
            assert(keys(more)[i] == k);
            lemma_lookup(more, i);
        } else if keys(more).contains(k) {
            let j = keys(more).index_of(k);
            assert(j < entries.len());
            assert(keys(entries)[j] == k);
        }
    }
}

proof fn lemma_touched(cache: CacheView, key: (Seq<char>, Seq<char>))
    requires
        cache.sound(),
    ensures
        cache.touched(key).sound(),
        cache.capacity == 0 ==> cache.touched(key) == cache && lookup(cache.entries, key) is None,
{
    lemma_without(cache.entries, key);
    if lookup(cache.entries, key) is Some {
        lemma_push(without(cache.entries, key), key, lookup(cache.entries, key)->0);
    }
}

proof fn lemma_stored(cache: CacheView, key: (Seq<char>, Seq<char>), value: Seq<u32>)
    requires
        cache.sound(),
    ensures
        cache.stored(key, value).sound(),
        cache.capacity > 0 ==> keys(cache.stored(key, value).entries).contains(key) && lookup(
            cache.stored(key, value).entries,
            key,
        ) == Some(value),
{
    if cache.capacity > 0 {
        lemma_without(cache.entries, key);
        if !keys(cache.entries).contains(key) && cache.entries.len() >= cache.capacity {
            let rest = cache.entries.drop_first();
            assert(keys(rest) =~= keys(cache.entries).drop_first());
            if keys(rest).contains(key) {
                let i = keys(rest).index_of(key);
                assert(keys(cache.entries)[i + 1] == key);
            }
            lemma_push(rest, key, value);
        } else {
            lemma_push(without(cache.entries, key), key, value);
        }
    }
}

/// What was put is read back, from a cache that has room for it.
pub proof fn law_cache_read_after_write(
    cache: CacheView,
    key: (Seq<char>, Seq<char>),
    value: Seq<u32>,
)
    requires
        cache.sound(),
        cache.capacity > 0,
    ensures
        lookup(cache.stored(key, value).entries, key) == Some(value),
{
    lemma_stored(cache, key, value);
}

/// A cache never outgrows its capacity, and one without capacity stays empty.
pub proof fn law_cache_is_bounded(cache: CacheView, key: (Seq<char>, Seq<char>), value: Seq<u32>)
    requires
        cache.sound(),
    ensures
        cache.stored(key, value).entries.len() <= cache.capacity,
        cache.touched(key).entries.len() <= cache.capacity,
        cache.capacity == 0 ==> lookup(cache.stored(key, value).entries, key) is None,
{
    lemma_stored(cache, key, value);
    lemma_touched(cache, key);
}

/// A put takes away at most the least recently used entry: whatever else was
/// cached under another key still is.
pub proof fn law_put_evicts_only_the_least_recent(
    cache: CacheView,
    key: (Seq<char>, Seq<char>),
    value: Seq<u32>,
    i: int,
)
    requires
        cache.sound(),
        cache.capacity > 0,
        0 < i < cache.entries.len(),
        cache.entries[i].0 != key,
    ensures
        lookup(cache.stored(key, value).entries, cache.entries[i].0) == Some(cache.entries[i].1),
{
    let other = cache.entries[i].0;
    lemma_lookup(cache.entries, i);
    lemma_without(cache.entries, key);
    if !keys(cache.entries).contains(key) && cache.entries.len() >= cache.capacity {
        let rest = cache.entries.drop_first();
        assert(keys(rest) =~= keys(cache.entries).drop_first());
        if keys(rest).contains(key) {
            let j = keys(rest).index_of(key);
            assert(keys(cache.entries)[j + 1] == key);
        }
        lemma_push(rest, key, value);
        assert(rest[i - 1] == cache.entries[i]);
        lemma_lookup(rest, i - 1);
        assert(lookup(rest.push((key, value)), other) == lookup(rest, other));
    } else {
        let rest = without(cache.entries, key);
        lemma_push(rest, key, value);
        assert(lookup(rest, other) == lookup(cache.entries, other));
        assert(lookup(rest.push((key, value)), other) == lookup(rest, other));
    }
}

/// Reading counts as use: the entry read is the most recently used one, and no
/// lookup gives another result than before.
pub proof fn law_reading_refreshes(
    cache: CacheView,
    key: (Seq<char>, Seq<char>),
    other: (Seq<char>, Seq<char>),
)
    requires
        cache.sound(),
        lookup(cache.entries, key) is Some,
    ensures
        cache.touched(key).entries.last().0 == key,
        lookup(cache.touched(key).entries, other) == lookup(cache.entries, other),
{
    let rest = without(cache.entries, key);
    let value = lookup(cache.entries, key)->0;
    lemma_without(cache.entries, key);
    lemma_push(rest, key, value);
    if other != key {
        assert(lookup(rest, other) == lookup(cache.entries, other));
        assert(lookup(rest.push((key, value)), other) == lookup(rest, other));
    }
}

} // verus!
