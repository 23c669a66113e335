//! Vectors for queries: cached, and absent wherever the backend fails.

use vstd::prelude::*;

use crate::tier2::embedding;
use crate::tier2::embedding::cache;
use crate::tier2::embedding::cache::{CacheView, EmbeddingCache, EmbeddingCacheKey};
use crate::tier2::embedding::request;
use crate::tier2::embedding::request::{
    AttemptView, EmbeddingClient, EmbeddingKnobs, EmbeddingRequest, KnobsView,
};
use crate::tier2::embedding::settings::ResolvedEmbeddingSettings;
use crate::tier2::memory::Embedding;
use crate::tier2::retrieval::EmbeddingSource;
use crate::types::{IntentSignature, IntentView};
use crate::views;

verus! {

/// What the query path goes by and what it has cached.
pub struct SourceState {
    knobs: EmbeddingKnobs,
    cache: EmbeddingCache,
}

/// The content of a source.
#[verifier::ext_equal]
pub struct SourceView {
    pub knobs: KnobsView,
    pub cache: CacheView,
}

/// How a query goes on.
pub enum SourceStep {
    /// It is answered.
    Done(Option<Embedding>),
    /// The backend has to be asked.
    Call(EmbeddingRequest),
}

impl SourceView {
    /// What an intent's vector is cached under.
    pub open spec fn key(self, sig: IntentView) -> (Seq<char>, Seq<char>) {
        (self.knobs.model, embedding::input_text(sig))
    }

    /// The vector cached for an intent, if any.
    pub open spec fn cached(self, sig: IntentView) -> Option<Seq<u32>> {
        cache::lookup(self.cache.entries, self.key(sig))
    }

    /// Whether the backend is asked for an intent's vector.
    pub open spec fn asks(self, sig: IntentView) -> bool {
        self.knobs.enabled && self.cached(sig) is None && self.knobs.has_credential
    }

    /// The source after the query for an intent began.
    pub open spec fn begun(self, sig: IntentView) -> SourceView {
        if self.knobs.enabled {
            SourceView { cache: self.cache.touched(self.key(sig)), ..self }
        } else {
            self
        }
    }

    /// What the backend's vector makes of a query: it is used if it has the
    /// configured dimension.
    pub open spec fn taken(self, vector: Option<Seq<u32>>) -> Option<Seq<u32>> {
        if vector is Some && vector->0.len() > 0 && request::all_finite(vector->0)
            && self.knobs.fits(vector->0) {
            vector
        } else {
            None
        }
    }

    /// The source after the backend was asked: a vector that is used is cached.
    pub open spec fn asked(self, key: (Seq<char>, Seq<char>), vector: Option<Seq<u32>>) -> SourceView {
        match self.taken(vector) {
            Some(v) => SourceView { cache: self.cache.stored(key, v), ..self },
            None => self,
        }
    }

    /// The answer to a query, given the attempts made if the backend is asked.
    pub open spec fn answer(self, sig: IntentView, attempts: Seq<AttemptView>) -> Option<
        Seq<u32>,
    > {
        if !self.knobs.enabled {
            None
        } else if self.cached(sig) is Some {
            self.cached(sig)
        } else if !self.knobs.has_credential {
            None
        } else {
            self.taken(request::outcome(attempts))
        }
    }

    /// The source after a query, given the attempts made if the backend is asked.
    pub open spec fn after(self, sig: IntentView, attempts: Seq<AttemptView>) -> SourceView {
        if self.asks(sig) {
            self.begun(sig).asked(self.key(sig), request::outcome(attempts))
        } else {
            self.begun(sig)
        }
    }
}

impl View for SourceState {
    type V = SourceView;

    closed spec fn view(&self) -> SourceView {
        SourceView { knobs: self.knobs@, cache: self.cache@ }
    }
}

impl SourceState {
    /// Whether the cache is in a state that its operations keep.
    pub closed spec fn wf(&self) -> bool {
        self.cache.wf()
    }

    /// A source with an empty cache.
    pub fn new(settings: &ResolvedEmbeddingSettings) -> (r: Self)
        requires
            settings.cache_max_entries <= cache::greatest_limit(),
        ensures
            r.wf(),
            r@ == (SourceView {
                knobs: request::knobs_of(*settings),
                cache: CacheView {
                    entries: Seq::empty(),
                    capacity: settings.cache_max_entries as nat,
                },
            }),
    {
        SourceState {
            knobs: EmbeddingKnobs::from_settings(settings),
            cache: EmbeddingCache::new(settings.cache_max_entries),
        }
    }

    /// How many attempts are made at a request.
    pub fn max_attempts(&self) -> (r: u32)
        ensures
            r == self@.knobs.max_attempts,
    {
        self.knobs.max_attempts
    }

    /// How many seconds an attempt may take.
    pub fn timeout_secs(&self) -> (r: u64)
        ensures
            r == self@.knobs.timeout_secs,
    {
        self.knobs.timeout_secs
    }

    /// Begins a query: answers it, or says what to ask the backend.
    pub fn begin(&mut self, sig: &IntentSignature) -> (r: SourceStep)
        requires
            old(self).wf(),
        ensures
            final(self).wf(),
            final(self)@ == old(self)@.begun(sig@),
            old(self)@.asks(sig@) ==> r is Call && r->Call_0@ == old(self)@.knobs.request(sig@),
            !old(self)@.asks(sig@) ==> r is Done && views::of_option(r->Done_0) == old(
                self,
            )@.answer(sig@, Seq::empty()),
    {
        if !self.knobs.enabled {
            return SourceStep::Done(None);
        }
        let request = self.knobs.request(sig);
        let key = EmbeddingCacheKey { model: self.knobs.model.clone(), input: request.input.clone() };
        match self.cache.get(&key) {
            Some(v) => SourceStep::Done(Some(v)),
            None => {
                if self.knobs.has_credential {
                    SourceStep::Call(request)
                } else {
                    SourceStep::Done(None)
                }
            },
        }
    }

    /// The vector, if it can be used.
    pub fn validate_vector(&self, vector: Vec<u32>) -> (r: Option<Vec<u32>>)
        ensures
            request::vector_view(r) == self@.taken(Some(vector@)),
    {
        if vector.len() == 0 || !request::vector_is_finite(&vector) || !self.knobs.fits(&vector) {
            None
        } else {
            Some(vector)
        }
    }

    /// Ends a query with what the backend gave.
    pub fn finish(&mut self, request: EmbeddingRequest, vector: Option<Vec<u32>>) -> (r: Option<
        Embedding,
    >)
        requires
            old(self).wf(),
        ensures
            final(self).wf(),
            views::of_option(r) == old(self)@.taken(request::vector_view(vector)),
            final(self)@ == old(self)@.asked(
                (old(self)@.knobs.model, request@.input),
                request::vector_view(vector),
            ),
    {
        match vector {
            Some(v) => {
                match self.validate_vector(v) {
                    Some(v) => {
                        let embedding = Embedding(v);
                        let key = EmbeddingCacheKey {
                            model: self.knobs.model.clone(),
                            input: request.input,
                        };
                        let _ = self.cache.put(key, embedding.clone());
                        Some(embedding)
                    },
                    None => None,
                }
            },
            None => None,
        }
    }
}

/// The query path over a client.
pub struct OpenAiEmbeddingSource<C: EmbeddingClient> {
    client: C,
    state: SourceState,
}

impl<C: EmbeddingClient> View for OpenAiEmbeddingSource<C> {
    type V = SourceView;

    closed spec fn view(&self) -> SourceView {
        self.state@
    }
}

impl<C: EmbeddingClient> OpenAiEmbeddingSource<C> {
    /// The client.
    pub closed spec fn client(&self) -> C {
        self.client
    }

    /// Whether the cache is in a state that its operations keep.
    pub closed spec fn wf(&self) -> bool {
        self.state.wf()
    }

    /// A source over the client, with an empty cache.
    pub fn new(client: C, settings: &ResolvedEmbeddingSettings) -> (r: Self)
        requires
            settings.cache_max_entries <= cache::greatest_limit(),
        ensures
            r.wf(),
            r.client() == client,
            r@ == (SourceView {
                knobs: request::knobs_of(*settings),
                cache: CacheView {
                    entries: Seq::empty(),
                    capacity: settings.cache_max_entries as nat,
                },
            }),
    {
        OpenAiEmbeddingSource { client, state: SourceState::new(settings) }
    }
}

/// Whether these are the attempts made at the query, and they led from one client
/// to the other. A client that is not asked is left as it was.
pub open spec fn asked_client<C: EmbeddingClient>(
    before: C,
    source: SourceView,
    sig: IntentView,
    attempts: Seq<AttemptView>,
    after: C,
) -> bool {
    if source.asks(sig) {
        request::asked(
            before,
            source.knobs.request(sig),
            source.knobs.max_attempts as nat,
            attempts,
            after,
        )
    } else {
        after == before
    }
}

impl<C: EmbeddingClient> EmbeddingSource for OpenAiEmbeddingSource<C> {
    open spec fn ready(&self) -> bool {
        self.wf()
    }

    open spec fn may_embed(
        before: Self,
        sig: IntentView,
        result: Option<Seq<u32>>,
        after: Self,
    ) -> bool {
        exists|attempts: Seq<AttemptView>|
            {
                &&& #[trigger] asked_client(before.client(), before@, sig, attempts, after.client())
                &&& result == before@.answer(sig, attempts)
                &&& after@ == before@.after(sig, attempts)
            }
    }

    fn embed(&mut self, sig: &IntentSignature) -> (r: Option<Embedding>) {
        let ghost before = self@;
        match self.state.begin(sig) {
            SourceStep::Done(r) => {
                proof {
                    let none = Seq::<AttemptView>::empty();
                    assert(asked_client(
                        old(self).client(),
                        old(self)@,
                        sig@,
                        none,
                        self.client(),
                    ));
                    assert(self@ == before.after(sig@, none));
                }
                r
            },
            SourceStep::Call(request) => {
                let max_attempts = self.state.max_attempts();
                let vector = request::attempt_embed(&mut self.client, &request, max_attempts);
                let ghost attempts = choose|attempts: Seq<AttemptView>| #[trigger]
                    request::asked(
                        old(self).client,
                        request@,
                        max_attempts as nat,
                        attempts,
                        self.client,
                    ) && request::vector_view(vector) == request::outcome(attempts);
                let r = self.state.finish(request, vector);
                proof {
                    assert(asked_client(
                        old(self).client(),
                        before,
                        sig@,
                        attempts,
                        self.client(),
                    ));
                    assert(views::of_option(r) == before.answer(sig@, attempts));
                    assert(self@ == before.after(sig@, attempts));
                }
                r
            },
        }
    }
}

/// A second query for the same intent is answered from the cache, without
/// asking, with the vector that the first one got.
pub proof fn law_second_query_is_cached(
    source: SourceView,
    sig: IntentView,
    attempts: Seq<AttemptView>,
    later: Seq<AttemptView>,
)
    requires
        source.cache.sound(),
        source.cache.capacity > 0,
        source.answer(sig, attempts) is Some,
    ensures
        !source.after(sig, attempts).asks(sig),
        source.after(sig, attempts).answer(sig, later) == source.answer(sig, attempts),
{
    let key = source.key(sig);
    if source.cached(sig) is Some {
        cache::law_reading_refreshes(source.cache, key, key);
    } else {
        let v = source.answer(sig, attempts)->0;
        cache::law_cache_read_after_write(source.cache, key, v);
    }
}

/// A query that gets no vector leaves the source as it was.
pub proof fn law_failed_query_changes_nothing(
    source: SourceView,
    sig: IntentView,
    attempts: Seq<AttemptView>,
)
    requires
        source.answer(sig, attempts) is None,
    ensures
        source.after(sig, attempts) == source,
{
    assert(source.begun(sig) =~= source);
}

/// A disabled source, or one without a credential and without the vector in its
/// cache, asks nobody and has no answer.
pub proof fn law_without_means_nothing_is_asked(
    source: SourceView,
    sig: IntentView,
    attempts: Seq<AttemptView>,
)
    requires
        !source.knobs.enabled || (!source.knobs.has_credential && source.cached(sig) is None),
    ensures
        !source.asks(sig),
        source.answer(sig, attempts) is None,
{
}

/// Every vector that the backend gives and that is used is non-empty, finite and
/// of the configured dimension.
pub proof fn law_used_vectors_are_valid(
    source: SourceView,
    sig: IntentView,
    attempts: Seq<AttemptView>,
)
    requires
        source.asks(sig),
        source.answer(sig, attempts) is Some,
    ensures
        source.answer(sig, attempts)->0.len() > 0,
        request::all_finite(source.answer(sig, attempts)->0),
        source.knobs.fits(source.answer(sig, attempts)->0),
{
}

} // verus!
