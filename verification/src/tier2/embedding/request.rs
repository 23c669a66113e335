//! Requests for vectors, and when a failed attempt is made again.

use vstd::prelude::*;
use vstd::string::*;

use crate::tier2::embedding;
use crate::tier2::embedding::settings::ResolvedEmbeddingSettings;
use crate::types::{IntentSignature, IntentView};

verus! {

/// A request for a vector.
#[derive(Debug, PartialEq, Eq)]
pub struct EmbeddingRequest {
    /// The model.
    pub model: String,
    /// The text.
    pub input: String,
    /// The dimension, if not the model's own.
    pub dimensions: Option<u32>,
}

/// The content of a request.
#[verifier::ext_equal]
pub struct RequestView {
    pub model: Seq<char>,
    pub input: Seq<char>,
    pub dimensions: Option<u32>,
}

impl View for EmbeddingRequest {
    type V = RequestView;

    open spec fn view(&self) -> RequestView {
        RequestView { model: self.model@, input: self.input@, dimensions: self.dimensions }
    }
}

impl Clone for EmbeddingRequest {
    fn clone(&self) -> (r: Self)
        ensures
            r == *self,
    {
        EmbeddingRequest {
            model: self.model.clone(),
            input: self.input.clone(),
            dimensions: self.dimensions,
        }
    }
}

/// How one attempt at a request ended.
#[derive(Debug, PartialEq, Eq)]
pub enum Attempt {
    /// With a vector, each number by its bits.
    Vector(Vec<u32>),
    /// With a failure.
    Failed {
        /// Whether another attempt may succeed.
        retryable: bool,
    },
    /// Not in time.
    TimedOut,
}

/// The content of an attempt.
#[verifier::ext_equal]
pub enum AttemptView {
    Vector(Seq<u32>),
    Failed { retryable: bool },
    TimedOut,
}

impl AttemptView {
    /// Whether another attempt is made if one is left.
    pub open spec fn retries(self) -> bool {
        match self {
            AttemptView::Vector(_) => false,
            AttemptView::Failed { retryable } => retryable,
            AttemptView::TimedOut => true,
        }
    }

    /// The vector, if the attempt gave one that can be used.
    pub open spec fn usable(self) -> Option<Seq<u32>> {
        match self {
            AttemptView::Vector(v) => if v.len() > 0 && all_finite(v) {
                Some(v)
            } else {
                None
            },
            _ => None,
        }
    }
}

impl View for Attempt {
    type V = AttemptView;

    open spec fn view(&self) -> AttemptView {
        match *self {
            Attempt::Vector(v) => AttemptView::Vector(v@),
            Attempt::Failed { retryable } => AttemptView::Failed { retryable },
            Attempt::TimedOut => AttemptView::TimedOut,
        }
    }
}

/// Whether the number with these bits is finite: its exponent is not all ones.
pub open spec fn finite(bits: u32) -> bool {
    (bits / 0x80_0000) % 0x100 != 0xff
}

/// Whether every number is finite.
pub open spec fn all_finite(v: Seq<u32>) -> bool {
    forall|i: int| 0 <= i < v.len() ==> finite(#[trigger] v[i])
}

/// Whether every number of a vector is finite.
pub fn vector_is_finite(v: &Vec<u32>) -> (r: bool)
    ensures
        r == all_finite(v@),
{
    let mut i: usize = 0;
    while i < v.len()
        invariant
            i <= v@.len(),
            forall|j: int| 0 <= j < i ==> finite(#[trigger] v@[j]),
        decreases v@.len() - i,
    {
        if (v[i] / 0x80_0000) % 0x100 == 0xff {
            assert(!finite(v@[i as int]));
            return false;
        }
        i += 1;
    }
    true
}

/// Sends requests, one attempt each.
///
/// An implementation says how an attempt at a request can end and what it leaves
/// of the client. One that says nothing may let it end in any way. A client that
/// was not asked is left as it was.
pub trait EmbeddingClient: Sized {
    /// Whether an attempt at the request can end like this and turn the client
    /// `before` into `after`.
    open spec fn may_give(
        before: Self,
        request: RequestView,
        attempt: AttemptView,
        after: Self,
    ) -> bool {
        true
    }

    /// Makes one attempt at a request.
    fn embed_once(&mut self, request: &EmbeddingRequest) -> (r: Attempt)
        ensures
            Self::may_give(*old(self), request@, r@, *final(self)),
    ;
}

/// A client without a backend: every attempt fails.
#[derive(Debug, Clone, Copy)]
pub struct NoEmbeddingClient;

impl Default for NoEmbeddingClient {
    fn default() -> (r: Self) {
        NoEmbeddingClient
    }
}

impl EmbeddingClient for NoEmbeddingClient {
    open spec fn may_give(
        before: Self,
        request: RequestView,
        attempt: AttemptView,
        after: Self,
    ) -> bool {
        attempt == (AttemptView::Failed { retryable: true })
    }

    fn embed_once(&mut self, request: &EmbeddingRequest) -> (r: Attempt) {
        Attempt::Failed { retryable: true }
    }
}

/// What follows an attempt.
#[derive(Debug, PartialEq, Eq)]
pub enum AttemptStep {
    /// The vector is taken.
    Got(Vec<u32>),
    /// Nothing more is tried.
    GiveUp,
    /// Another attempt is made.
    Retry,
}

/// What follows an attempt, when `left` attempts were left before it.
pub fn after_attempt(attempt: Attempt, left: u32) -> (r: AttemptStep)
    ensures
        attempt@.retries() ==> r == if left > 1 {
            AttemptStep::Retry
        } else {
            AttemptStep::GiveUp
        },
        !attempt@.retries() && attempt@.usable() is Some ==> r is Got && r->Got_0@
            == attempt@.usable()->0,
        !attempt@.retries() && attempt@.usable() is None ==> r is GiveUp,
{
    match attempt {
        Attempt::Vector(v) => {
            if v.len() == 0 || !vector_is_finite(&v) {
                AttemptStep::GiveUp
            } else {
                AttemptStep::Got(v)
            }
        },
        Attempt::Failed { retryable } => {
            if retryable && left > 1 {
                AttemptStep::Retry
            } else {
                AttemptStep::GiveUp
            }
        },
        Attempt::TimedOut => {
            if left > 1 {
                AttemptStep::Retry
            } else {
                AttemptStep::GiveUp
            }
        },
    }
}

/// Whether these are all the attempts made at a request when `max` are allowed:
/// each but the last is one that is made again, and the last is decisive or the
/// last allowed.
pub open spec fn tried(attempts: Seq<AttemptView>, max: nat) -> bool {
    &&& attempts.len() <= max
    &&& forall|i: int| 0 <= i < attempts.len() - 1 ==> (#[trigger] attempts[i]).retries()
    &&& attempts.len() < max ==> attempts.len() > 0 && !attempts.last().retries()
}

/// The vector that a series of attempts gives, if any.
pub open spec fn outcome(attempts: Seq<AttemptView>) -> Option<Seq<u32>> {
    if attempts.len() > 0 {
        attempts.last().usable()
    } else {
        None
    }
}

/// Whether the attempts at the request were made one after the other, each by the
/// client that the one before it left.
pub open spec fn made<C: EmbeddingClient>(
    clients: Seq<C>,
    request: RequestView,
    attempts: Seq<AttemptView>,
) -> bool {
    &&& clients.len() == attempts.len() + 1
    &&& forall|i: int|
        0 <= i < attempts.len() ==> C::may_give(
            clients[i],
            request,
            #[trigger] attempts[i],
            clients[i + 1],
        )
}

/// Whether these are the attempts made at a request when `max` are allowed, and
/// they led from one client to the other.
pub open spec fn asked<C: EmbeddingClient>(
    before: C,
    request: RequestView,
    max: nat,
    attempts: Seq<AttemptView>,
    after: C,
) -> bool {
    &&& tried(attempts, max)
    &&& exists|clients: Seq<C>| #[trigger]
        made(clients, request, attempts) && clients[0] == before && clients.last() == after
}

/// The view of an optional vector.
pub open spec fn vector_view(v: Option<Vec<u32>>) -> Option<Seq<u32>> {
    match v {
        Some(v) => Some(v@),
        None => None,
    }
}

/// Makes attempts at a request until one is decisive or none is left.
pub fn attempt_embed<C: EmbeddingClient>(
    client: &mut C,
    request: &EmbeddingRequest,
    max_attempts: u32,
) -> (r: Option<Vec<u32>>)
    ensures
        exists|attempts: Seq<AttemptView>| #[trigger]
            asked(*old(client), request@, max_attempts as nat, attempts, *final(client))
                && vector_view(r) == outcome(attempts),
{
    let ghost mut attempts = Seq::<AttemptView>::empty();
    let ghost mut clients = seq![*client];
    let ghost start = *client;
    let mut left: u32 = max_attempts;
    while left > 0
        invariant
            left <= max_attempts,
            attempts.len() == max_attempts - left,
            forall|i: int| 0 <= i < attempts.len() ==> (#[trigger] attempts[i]).retries(),
            made(clients, request@, attempts),
            clients[0] == start,
            clients.last() == *client,
            start == *old(client),
        decreases left,
    {
        let ghost (tries, states) = (attempts, clients);
        let attempt = client.embed_once(request);
        proof {
            attempts = attempts.push(attempt@);
            clients = clients.push(*client);
            lemma_one_more(states, request@, tries, attempt@, *client);
            assert forall|i: int| 0 <= i < attempts.len() - 1 implies (
            #[trigger] attempts[i]).retries() by {
                assert(attempts[i] == tries[i]);
            }
        }
        let ghost seen = attempt@;
        assert(attempts.last() == seen);
        match after_attempt(attempt, left) {
            AttemptStep::Got(v) => {
                assert(asked(start, request@, max_attempts as nat, attempts, *client));
                return Some(v);
            },
            AttemptStep::GiveUp => {
                assert(asked(start, request@, max_attempts as nat, attempts, *client));
                return None;
            },
            AttemptStep::Retry => {},
        }
        left -= 1;
    }
    proof {
        assert(asked(start, request@, max_attempts as nat, attempts, *client));
        assert(outcome(attempts) is None);
    }
    None
}

proof fn lemma_one_more<C: EmbeddingClient>(
    clients: Seq<C>,
    request: RequestView,
    attempts: Seq<AttemptView>,
    attempt: AttemptView,
    after: C,
)
    requires
        made(clients, request, attempts),
        C::may_give(clients.last(), request, attempt, after),
    ensures
        made(clients.push(after), request, attempts.push(attempt)),
        clients.push(after)[0] == clients[0],
        clients.push(after).last() == after,
{
    let (tries, states) = (attempts.push(attempt), clients.push(after));
    assert forall|i: int| 0 <= i < tries.len() implies C::may_give(
        states[i],
        request,
        #[trigger] tries[i],
        states[i + 1],
    ) by {
        if i < attempts.len() {
            assert(tries[i] == attempts[i]);
        }
    }
}

/// A request ends with the first attempt that is decisive: what it gave is used
/// if it can be, and nothing is asked after it. Where none within the limit is
/// decisive, there is no vector, and as many attempts were made as are allowed.
pub proof fn law_first_decisive_attempt_counts(attempts: Seq<AttemptView>, max: nat, i: int)
    requires
        tried(attempts, max),
        0 <= i < attempts.len(),
    ensures
        !attempts[i].retries() ==> i == attempts.len() - 1 && outcome(attempts)
            == attempts[i].usable(),
        attempts.last().retries() ==> attempts.len() == max && outcome(attempts) is None,
{
}

/// What both paths go by.
#[derive(Debug, PartialEq, Eq)]
pub struct EmbeddingKnobs {
    /// The model.
    pub model: String,
    /// The dimension, if not the model's own.
    pub dimension: Option<u32>,
    /// How many attempts are made.
    pub max_attempts: u32,
    /// The seconds that an attempt may take.
    pub timeout_secs: u64,
    /// Whether vectors are used at all.
    pub enabled: bool,
    /// Whether there is a credential to send.
    pub has_credential: bool,
}

/// The content of the knobs.
#[verifier::ext_equal]
pub struct KnobsView {
    pub model: Seq<char>,
    pub dimension: Option<u32>,
    pub max_attempts: u32,
    pub timeout_secs: u64,
    pub enabled: bool,
    pub has_credential: bool,
}

impl View for EmbeddingKnobs {
    type V = KnobsView;

    open spec fn view(&self) -> KnobsView {
        KnobsView {
            model: self.model@,
            dimension: self.dimension,
            max_attempts: self.max_attempts,
            timeout_secs: self.timeout_secs,
            enabled: self.enabled,
            has_credential: self.has_credential,
        }
    }
}

/// The knobs for settings: without a credential nothing can be sent.
pub open spec fn knobs_of(settings: ResolvedEmbeddingSettings) -> KnobsView {
    KnobsView {
        model: settings.model@,
        dimension: settings.dimension,
        max_attempts: settings.max_attempts,
        timeout_secs: settings.timeout_secs,
        enabled: settings.enabled,
        has_credential: settings.bearer@.len() > 0,
    }
}

impl KnobsView {
    /// The request made for an intent.
    pub open spec fn request(self, sig: IntentView) -> RequestView {
        RequestView {
            model: self.model,
            input: embedding::input_text(sig),
            dimensions: self.dimension,
        }
    }

    /// Whether a vector has the configured dimension, if one is configured.
    pub open spec fn fits(self, v: Seq<u32>) -> bool {
        self.dimension is Some ==> v.len() == self.dimension->0
    }
}

impl EmbeddingKnobs {
    /// The knobs for settings.
    pub fn from_settings(settings: &ResolvedEmbeddingSettings) -> (r: Self)
        ensures
            r@ == knobs_of(*settings),
    {
        EmbeddingKnobs {
            model: settings.model.clone(),
            dimension: settings.dimension,
            max_attempts: settings.max_attempts,
            timeout_secs: settings.timeout_secs,
            enabled: settings.enabled,
            has_credential: settings.bearer.expose_secret().unicode_len() > 0,
        }
    }

    /// The request made for an intent.
    pub fn request(&self, sig: &IntentSignature) -> (r: EmbeddingRequest)
        ensures
            r@ == self@.request(sig@),
    {
        EmbeddingRequest {
            model: self.model.clone(),
            input: embedding::embedding_input_text(sig),
            dimensions: self.dimension,
        }
    }

    /// Whether a vector has the configured dimension, if one is configured.
    pub fn fits(&self, v: &Vec<u32>) -> (r: bool)
        ensures
            r == self@.fits(v@),
    {
        match self.dimension {
            Some(dimension) => v.len() as u64 == dimension as u64,
            None => true,
        }
    }
}

} // verus!
