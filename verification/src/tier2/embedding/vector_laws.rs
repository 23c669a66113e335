//! Which vectors are asked for, taken and kept, attempt by attempt.

use vstd::prelude::*;

use crate::text;
use crate::text_laws;
use crate::tier2::embedding;
use crate::tier2::embedding::request;
use crate::tier2::embedding::request::{
    AttemptView, EmbeddingClient, KnobsView, NoEmbeddingClient, RequestView,
};
use crate::tier2::embedding::settings;
use crate::tier2::embedding::settings::{ResolvedEmbeddingSettings, ResolvedProviderAuth};
use crate::tier2::embedding::source;
use crate::tier2::embedding::source::{OpenAiEmbeddingSource, SourceView};
use crate::tier2::embedding::writer;
use crate::tier2::embedding::writer::{EmbeddingWriteError, MemoryEmbeddingWriter, WriteView};
use crate::tier2::retrieval::EmbeddingSource;
use crate::tier2::store::MemoryStoreError;
use crate::types::IntentView;

verus! {

/// Whether the bits of a number are those of an infinity or of no number: all its
/// exponent bits are set.
pub open spec fn off_the_scale(bits: u32) -> bool {
    0x7f80_0000 <= bits <= 0x7fff_ffff || 0xff80_0000 <= bits
}

/// A number is finite unless its exponent bits are all set.
pub proof fn law_finite_numbers(bits: u32)
    ensures
        request::finite(bits) <==> !off_the_scale(bits),
{
}

/// Whether a vector can be used: it has a coordinate, and all of them are finite.
pub open spec fn proper(v: Seq<u32>) -> bool {
    v.len() > 0 && forall|i: int| 0 <= i < v.len() ==> !off_the_scale(#[trigger] v[i])
}

/// Whether an attempt is worth another one: it ran out of time, or failed in a way
/// that may pass.
pub open spec fn may_pass(attempt: AttemptView) -> bool {
    attempt == AttemptView::TimedOut || attempt == (AttemptView::Failed { retryable: true })
}

/// Attempts go on while they may pass and some are left, and no longer.
pub proof fn law_attempts_stop_at_the_first_that_stays(attempts: Seq<AttemptView>, max: nat)
    ensures
        request::tried(attempts, max) <==> {
            &&& attempts.len() <= max
            &&& forall|i: int| 0 <= i < attempts.len() - 1 ==> may_pass(#[trigger] attempts[i])
            &&& attempts.len() == max || (attempts.len() > 0 && !may_pass(attempts.last()))
        },
{
    assert forall|i: int| 0 <= i < attempts.len() implies (#[trigger] attempts[i]).retries()
        == may_pass(attempts[i]) by {}
}

/// The attempts give a vector if and only if the last of them gave a proper one.
pub proof fn law_last_attempt_gives_the_vector(attempts: Seq<AttemptView>, v: Seq<u32>)
    ensures
        request::outcome(attempts) == Some(v) <==> attempts.len() > 0 && attempts.last()
            == AttemptView::Vector(v) && proper(v),
{
    if attempts.len() > 0 && attempts.last() is Vector {
        let w = attempts.last()->Vector_0;
        lemma_all_finite(w);
    }
}

proof fn lemma_all_finite(v: Seq<u32>)
    ensures
        v.len() > 0 && request::all_finite(v) <==> proper(v),
{
    assert forall|i: int| 0 <= i < v.len() implies request::finite(#[trigger] v[i])
        == !off_the_scale(v[i]) by {
        law_finite_numbers(v[i]);
    }
}

/// The text embedded for an intent is its four fields with a unit separator
/// between neighbours.
pub proof fn law_embedded_text_lists_the_fields(sig: IntentView)
    ensures
        embedding::input_text(sig) == text::joined(
            seq![sig.intent_type, sig.target_type, sig.target_ref, sig.scope],
            seq!['\u{001F}'],
        ),
{
    let bar = seq!['\u{001F}'];
    let (a, b, c, d) = (sig.intent_type, sig.target_type, sig.target_ref, sig.scope);
    text_laws::law_joining_separates_texts(seq![a], b, bar);
    text_laws::law_joining_separates_texts(seq![a, b], c, bar);
    text_laws::law_joining_separates_texts(seq![a, b, c], d, bar);
    assert(seq![a].push(b) =~= seq![a, b]);
    assert(seq![a, b].push(c) =~= seq![a, b, c]);
    assert(seq![a, b, c].push(d) =~= seq![a, b, c, d]);
    assert(text::joined(seq![a], bar) == a);
    assert(embedding::input_text(sig) =~= a + bar + b + bar + c + bar + d);
}

/// A request names the model, the text of the intent and the dimension.
pub proof fn law_request_names_model_text_and_dimension(knobs: KnobsView, sig: IntentView)
    ensures
        knobs.request(sig).model == knobs.model,
        knobs.request(sig).input == embedding::input_text(sig),
        knobs.request(sig).dimensions == knobs.dimension,
{
}

/// What is gone by is what the settings say; there is a credential if it has text.
pub proof fn law_knobs_follow_the_settings(s: ResolvedEmbeddingSettings)
    ensures
        request::knobs_of(s).model == s.model@,
        request::knobs_of(s).dimension == s.dimension,
        request::knobs_of(s).max_attempts == s.max_attempts,
        request::knobs_of(s).timeout_secs == s.timeout_secs,
        request::knobs_of(s).enabled == s.enabled,
        request::knobs_of(s).has_credential <==> s.bearer@.len() > 0,
{
}

/// A cached vector answers a query. Where none is cached, an enabled source with a
/// credential asks, and takes a proper vector of the configured dimension and no
/// other. A disabled source answers nothing.
pub proof fn law_query_is_answered_from_cache_or_attempts(
    source: SourceView,
    sig: IntentView,
    attempts: Seq<AttemptView>,
    v: Seq<u32>,
)
    requires
        source.cache.sound(),
    ensures
        ({
            let key = (source.knobs.model, embedding::input_text(sig));
            let cached = exists|i: int|
                0 <= i < source.cache.entries.len() && (#[trigger] source.cache.entries[i]).0
                    == key;
            let answer = source.answer(sig, attempts);
            &&& source.asks(sig) <==> source.knobs.enabled && source.knobs.has_credential
                && !cached
            &&& !source.knobs.enabled ==> answer is None
            &&& source.knobs.enabled && cached ==> (answer == Some(v) <==> exists|i: int|
                0 <= i < source.cache.entries.len() && #[trigger] source.cache.entries[i] == (
                    key,
                    v,
                ))
            &&& source.knobs.enabled && !cached && !source.knobs.has_credential ==> answer is None
            &&& source.knobs.enabled && !cached && source.knobs.has_credential ==> (answer
                == Some(v) <==> attempts.len() > 0 && attempts.last() == AttemptView::Vector(v)
                && proper(v) && (source.knobs.dimension is Some ==> v.len()
                == source.knobs.dimension->0))
        }),
{
    let entries = source.cache.entries;
    let key = (source.knobs.model, embedding::input_text(sig));
    let keys = embedding::cache::keys(entries);
    assert(source.key(sig) == key);
    if exists|i: int| 0 <= i < entries.len() && (#[trigger] entries[i]).0 == key {
        let i = choose|i: int| 0 <= i < entries.len() && (#[trigger] entries[i]).0 == key;
        assert(keys[i] == key);
        let at = keys.index_of(key);
        assert(keys[at] == key);
        assert(at == i);
        assert(entries[at] == (key, entries[at].1));
        assert forall|j: int| 0 <= j < entries.len() && #[trigger] entries[j] == (
            key,
            v,
        ) implies j == i by {
            assert(keys[j] == key);
        }
    } else {
        assert(!keys.contains(key)) by {
            if keys.contains(key) {
                let at = keys.index_of(key);
                assert(keys[at] == key);
                assert(entries[at].0 == key);
            }
        }
        law_last_attempt_gives_the_vector(attempts, v);
        if request::outcome(attempts) is Some {
            let w = request::outcome(attempts)->0;
            law_last_attempt_gives_the_vector(attempts, w);
            lemma_all_finite(w);
        }
    }
}

/// An answer that was asked for is cached under its model and text, and nothing
/// else is taken into the cache; what is read counts as used.
pub proof fn law_asked_answers_are_cached(
    source: SourceView,
    sig: IntentView,
    attempts: Seq<AttemptView>,
)
    requires
        source.cache.sound(),
    ensures
        ({
            let key = (source.knobs.model, embedding::input_text(sig));
            let after = source.after(sig, attempts);
            &&& after.knobs == source.knobs
            &&& after.cache.capacity == source.cache.capacity
            &&& !source.knobs.enabled ==> after == source
            &&& source.answer(sig, attempts) is None ==> after == source
            &&& source.asks(sig) && source.answer(sig, attempts) is Some && source.cache.capacity
                > 0 ==> after.cache.entries.last() == (key, source.answer(sig, attempts)->0)
            &&& source.knobs.enabled && !source.asks(sig) && source.answer(sig, attempts) is Some
                ==> after.cache.entries.last() == (key, source.answer(sig, attempts)->0)
                && after.cache.entries.to_multiset() == source.cache.entries.to_multiset()
        }),
{
    let key = source.key(sig);
    let entries = source.cache.entries;
    if source.answer(sig, attempts) is None {
        embedding::source::law_failed_query_changes_nothing(source, sig, attempts);
    } else if source.knobs.enabled && !source.asks(sig) {
        let keys = embedding::cache::keys(entries);
        let at = keys.index_of(key);
        assert(keys[at] == key);
        let e = entries[at];
        assert(e == (key, e.1));
        let rest = entries.remove(at);
        assert(source.after(sig, attempts).cache.entries == rest.push(e));
        entries.to_multiset_ensures();
        rest.to_multiset_ensures();
        assert(rest.push(e).to_multiset() =~= rest.to_multiset().insert(e));
        assert(rest.to_multiset() =~= entries.to_multiset().remove(e));
        assert(entries.contains(e));
        assert(rest.to_multiset().insert(e) =~= entries.to_multiset());
    }
}

/// A memory gets a vector if the writer is enabled and has a credential and the
/// attempts give a proper one of the configured dimension. One of another length is
/// refused with both lengths. In every other case the memory is kept without.
pub proof fn law_written_vectors(knobs: KnobsView, attempts: Seq<AttemptView>)
    ensures
        ({
            let given = knobs.enabled && knobs.has_credential && attempts.len() > 0
                && attempts.last() is Vector && proper(attempts.last()->Vector_0);
            let v = attempts.last()->Vector_0;
            let fits = knobs.dimension is None || v.len() == knobs.dimension->0;
            &&& !given ==> knobs.write_result(attempts) == Ok::<WriteView, EmbeddingWriteError>(
                WriteView::Unavailable,
            )
            &&& given && fits ==> knobs.write_result(attempts) == Ok::<
                WriteView,
                EmbeddingWriteError,
            >(WriteView::Embedded(v))
            &&& given && !fits ==> knobs.write_result(attempts) is Err
                && knobs.write_result(attempts)->Err_0 == (EmbeddingWriteError::DimensionMismatch {
                actual: v.len() as usize,
                configured: knobs.dimension->0,
            })
        }),
{
    if attempts.len() > 0 && attempts.last() is Vector {
        let v = attempts.last()->Vector_0;
        law_last_attempt_gives_the_vector(attempts, v);
        lemma_all_finite(v);
    }
}

/// The kept vector is the one made, and empty where none was.
pub proof fn law_kept_vector_is_the_one_made(v: Seq<u32>)
    ensures
        WriteView::Embedded(v).kept() == v,
        WriteView::Unavailable.kept() == Seq::<u32>::empty(),
{
}

/// The two paths clash if and only if both have a dimension and these differ.
pub proof fn law_dimensions_clash_when_both_differ(knobs: KnobsView, other: Option<u32>)
    ensures
        knobs.misconfigured(other) is Some <==> knobs.dimension is Some && other is Some
            && knobs.dimension->0 != other->0,
        knobs.misconfigured(other) is Some ==> knobs.misconfigured(other)->0 == (
        EmbeddingWriteError::DimensionMisconfigured {
            writer: knobs.dimension->0,
            source: other->0,
        }),
{
}

/// A configured number of attempts from one to ten is used, and three otherwise; a
/// configured time of at least a second, and thirty seconds otherwise; a configured
/// number of entries as far as it goes, and 1024 otherwise.
pub proof fn law_settings_are_used_within_bounds(
    attempts: Option<u32>,
    timeout_secs: Option<u64>,
    entries: Option<u64>,
)
    ensures
        attempts is Some && 1 <= attempts->0 <= 10 ==> settings::attempts_of(attempts)
            == attempts->0,
        attempts is None || attempts->0 < 1 || attempts->0 > 10 ==> settings::attempts_of(attempts)
            == 3,
        timeout_secs is Some && timeout_secs->0 >= 1 ==> settings::timeout_of(timeout_secs)
            == timeout_secs->0,
        timeout_secs is None || timeout_secs->0 == 0 ==> settings::timeout_of(timeout_secs) == 30,
        entries is Some && entries->0 <= usize::MAX ==> settings::cache_entries_of(entries)
            == entries->0,
        entries is Some && entries->0 > usize::MAX ==> settings::cache_entries_of(entries)
            == usize::MAX,
        entries is None ==> settings::cache_entries_of(entries) == 1024,
{
}

/// A configured address is used without the white characters around it; an absent
/// or white one gives way to the provider's own.
pub proof fn law_address_is_used_without_white_ends(configured: Option<Seq<char>>) -> (r: (
    int,
    int,
))
    ensures
        ({
            let given = configured->0;
            let white = text_laws::white_points();
            &&& configured is None ==> settings::base_url_of(configured)
                == "https://api.openai.com"@
            &&& configured is Some && (forall|i: int|
                0 <= i < given.len() ==> white.contains((#[trigger] given[i]) as int))
                ==> settings::base_url_of(configured) == "https://api.openai.com"@
            &&& configured is Some && (exists|i: int|
                0 <= i < given.len() && !white.contains((#[trigger] given[i]) as int)) ==> {
                &&& 0 <= r.0 < r.1 <= given.len()
                &&& settings::base_url_of(configured) == given.subrange(r.0, r.1)
                &&& !white.contains(given[r.0] as int) && !white.contains(given[r.1 - 1] as int)
                &&& forall|i: int|
                    0 <= i < given.len() && !(r.0 <= i < r.1) ==> white.contains(
                        (#[trigger] given[i]) as int,
                    )
            }
        }),
{
    if configured is Some {
        text::lemma_trimmed_empty(configured->0);
        text_laws::law_blank_is_all_white(configured->0);
        text_laws::law_trimming_takes_white_ends(configured->0)
    } else {
        (0, 0)
    }
}

/// Without a backend every attempt fails in a way that may pass, so that all
/// attempts allowed are made and none gives a vector.
pub proof fn law_no_backend_gives_no_vector(
    before: NoEmbeddingClient,
    request: RequestView,
    max: nat,
    attempts: Seq<AttemptView>,
    after: NoEmbeddingClient,
)
    requires
        request::asked(before, request, max, attempts, after),
    ensures
        attempts.len() == max,
        request::outcome(attempts) is None,
        forall|i: int|
            0 <= i < attempts.len() ==> #[trigger] attempts[i] == (AttemptView::Failed {
                retryable: true,
            }),
{
    let clients = choose|clients: Seq<NoEmbeddingClient>| #[trigger]
        request::made(clients, request, attempts) && clients[0] == before && clients.last()
            == after;
    assert forall|i: int| 0 <= i < attempts.len() implies #[trigger] attempts[i] == (
    AttemptView::Failed { retryable: true }) by {
        assert(NoEmbeddingClient::may_give(clients[i], request, attempts[i], clients[i + 1]));
    }
    if attempts.len() > 0 {
        assert(attempts.last() == attempts[attempts.len() - 1]);
    }
}

/// The request that is made for an intent.
pub open spec fn request_for(knobs: KnobsView, sig: IntentView) -> RequestView {
    RequestView {
        model: knobs.model,
        input: embedding::input_text(sig),
        dimensions: knobs.dimension,
    }
}

/// A writer whose dimension clashes with the query path refuses and asks nobody; one
/// that is disabled or has no credential asks nobody and writes without a vector. Any
/// other asks for the intent's vector as often as it is configured to, and writes
/// what the attempts give.
pub proof fn law_writer_asks_as_configured<C: EmbeddingClient>(
    before: MemoryEmbeddingWriter<C>,
    source_dimension: Option<u32>,
    intent: IntentView,
    written: Result<WriteView, EmbeddingWriteError>,
    after: MemoryEmbeddingWriter<C>,
)
    requires
        writer::writes(before, source_dimension, intent, written, after),
    ensures
        ({
            let knobs = before@;
            let clash = knobs.dimension is Some && source_dimension is Some && knobs.dimension->0
                != source_dimension->0;
            let silent = !knobs.enabled || !knobs.has_credential;
            &&& after@ == before@
            &&& clash ==> after.client() == before.client() && written == Err::<
                WriteView,
                EmbeddingWriteError,
            >(
                EmbeddingWriteError::DimensionMisconfigured {
                    writer: knobs.dimension->0,
                    source: source_dimension->0,
                },
            )
            &&& !clash && silent ==> after.client() == before.client() && written == Ok::<
                WriteView,
                EmbeddingWriteError,
            >(WriteView::Unavailable)
            &&& !clash && !silent ==> exists|attempts: Seq<AttemptView>|
                #[trigger] request::asked(
                    before.client(),
                    request_for(knobs, intent),
                    knobs.max_attempts as nat,
                    attempts,
                    after.client(),
                ) && written == knobs.write_result(attempts)
        }),
{
    if before@.misconfigured(source_dimension) is None && before@.enabled
        && before@.has_credential {
        let attempts = choose|attempts: Seq<AttemptView>| #[trigger]
            writer::asked_client(before.client(), before@, intent, attempts, after.client())
                && written == before@.write_result(attempts);
        assert(request::asked(
            before.client(),
            request_for(before@, intent),
            before@.max_attempts as nat,
            attempts,
            after.client(),
        ));
    }
}

/// A source asks its client only where it is enabled, has a credential and has no
/// vector for the intent in its cache, and then as often as it is configured to; its
/// answer and its cache follow from the attempts.
pub proof fn law_source_asks_as_configured<C: EmbeddingClient>(
    before: OpenAiEmbeddingSource<C>,
    sig: IntentView,
    result: Option<Seq<u32>>,
    after: OpenAiEmbeddingSource<C>,
)
    requires
        OpenAiEmbeddingSource::may_embed(before, sig, result, after),
        before@.cache.sound(),
    ensures
        ({
            let knobs = before@.knobs;
            let key = (knobs.model, embedding::input_text(sig));
            let cached = exists|i: int|
                0 <= i < before@.cache.entries.len() && (#[trigger] before@.cache.entries[i]).0
                    == key;
            let asks = knobs.enabled && knobs.has_credential && !cached;
            &&& !asks ==> after.client() == before.client()
            &&& exists|attempts: Seq<AttemptView>|
                {
                    &&& result == #[trigger] before@.answer(sig, attempts)
                    &&& after@ == before@.after(sig, attempts)
                    &&& asks ==> request::asked(
                        before.client(),
                        request_for(knobs, sig),
                        knobs.max_attempts as nat,
                        attempts,
                        after.client(),
                    )
                }
        }),
{
    let attempts = choose|attempts: Seq<AttemptView>|
        {
            &&& #[trigger] source::asked_client(
                before.client(),
                before@,
                sig,
                attempts,
                after.client(),
            )
            &&& result == before@.answer(sig, attempts)
            &&& after@ == before@.after(sig, attempts)
        };
    law_query_is_answered_from_cache_or_attempts(before@, sig, attempts, Seq::empty());
    assert(result == before@.answer(sig, attempts));
}

/// The credential sent is the key, or the access token of a login.
pub proof fn law_credential_is_the_key_or_the_token(auth: ResolvedProviderAuth)
    ensures
        match auth {
            ResolvedProviderAuth::ApiKey(key) => settings::bearer_of(auth) == key@,
            ResolvedProviderAuth::OpenAiOAuth(oauth) => settings::bearer_of(auth)
                == oauth.access_token@,
        },
{
}

/// A refused vector is reported by the store with the same two dimensions, and by
/// the same message.
pub proof fn law_refused_vectors_keep_their_dimensions(e: EmbeddingWriteError)
    ensures
        match e {
            EmbeddingWriteError::DimensionMismatch { actual, configured } => writer::store_error(e)
                == (MemoryStoreError::EmbeddingDimensionMismatch { actual, configured }),
            EmbeddingWriteError::DimensionMisconfigured { writer, source } => writer::store_error(
                e,
            ) == (MemoryStoreError::EmbeddingDimensionMisconfigured { writer, source }),
        },
        e.message() == writer::store_error(e).message(),
{
}

} // verus!
