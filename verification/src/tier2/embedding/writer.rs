//! Vectors for memories that are written: absent where the backend fails, and
//! never of the wrong dimension.

use vstd::prelude::*;
use vstd::string::*;

use crate::tier2::embedding::request;
use crate::tier2::embedding::request::{
    AttemptView, EmbeddingClient, EmbeddingKnobs, EmbeddingRequest, KnobsView,
};
use crate::tier2::embedding::settings::ResolvedEmbeddingSettings;
use crate::tier2::memory::{Embedding, Memory, MemoryView};
use crate::tier2::store;
use crate::tier2::store::{MemoryStore, MemoryStoreError};
use crate::types::{GoalNodeId, IntentSignature, IntentView, MemoryId, SubtreeHash};

verus! {

/// Why no vector may be kept with a memory, nor the memory itself.
#[derive(Debug, Clone, Copy, PartialEq, Eq, Structural)]
pub enum EmbeddingWriteError {
    /// The vector has the wrong length.
    DimensionMismatch {
        /// The length of the vector.
        actual: usize,
        /// The configured dimension.
        configured: u32,
    },
    /// The write path and the query path are configured for different dimensions.
    DimensionMisconfigured {
        /// The dimension of the write path.
        writer: u32,
        /// The dimension of the query path.
        source: u32,
    },
}

impl EmbeddingWriteError {
    /// The message shown for the error.
    pub open spec fn message(self) -> Seq<char> {
        store_error(self).message()
    }

    /// The message shown for the error.
    pub fn to_string(&self) -> (r: String)
        ensures
            r@ == self.message(),
    {
        MemoryStoreError::from(*self).to_string()
    }
}

/// The store's error for a write error.
pub open spec fn store_error(e: EmbeddingWriteError) -> MemoryStoreError {
    match e {
        EmbeddingWriteError::DimensionMismatch { actual, configured } =>
            MemoryStoreError::EmbeddingDimensionMismatch { actual, configured },
        EmbeddingWriteError::DimensionMisconfigured { writer, source } =>
            MemoryStoreError::EmbeddingDimensionMisconfigured { writer, source },
    }
}

impl From<EmbeddingWriteError> for MemoryStoreError {
    fn from(e: EmbeddingWriteError) -> (r: Self) {
        match e {
            EmbeddingWriteError::DimensionMismatch { actual, configured } =>
                MemoryStoreError::EmbeddingDimensionMismatch { actual, configured },
            EmbeddingWriteError::DimensionMisconfigured { writer, source } =>
                MemoryStoreError::EmbeddingDimensionMisconfigured { writer, source },
        }
    }
}

impl vstd::std_specs::convert::FromSpecImpl<EmbeddingWriteError> for MemoryStoreError {
    open spec fn obeys_from_spec() -> bool {
        true
    }

    open spec fn from_spec(e: EmbeddingWriteError) -> Self {
        store_error(e)
    }
}

/// The vector made for a memory.
#[derive(Debug, PartialEq, Eq)]
pub enum WriteEmbedding {
    /// This one.
    Embedded(Embedding),
    /// None: the memory is kept without.
    Unavailable,
}

/// The content of a vector made for a memory.
#[verifier::ext_equal]
pub enum WriteView {
    Embedded(Seq<u32>),
    Unavailable,
}

impl View for WriteEmbedding {
    type V = WriteView;

    open spec fn view(&self) -> WriteView {
        match *self {
            WriteEmbedding::Embedded(e) => WriteView::Embedded(e@),
            WriteEmbedding::Unavailable => WriteView::Unavailable,
        }
    }
}

impl Clone for WriteEmbedding {
    fn clone(&self) -> (r: Self)
        ensures
            r@ == self@,
    {
        match self {
            WriteEmbedding::Embedded(e) => WriteEmbedding::Embedded(e.clone()),
            WriteEmbedding::Unavailable => WriteEmbedding::Unavailable,
        }
    }
}

impl WriteView {
    /// The vector kept: an empty one where none was made.
    pub open spec fn kept(self) -> Seq<u32> {
        match self {
            WriteView::Embedded(v) => v,
            WriteView::Unavailable => Seq::empty(),
        }
    }
}

impl KnobsView {
    /// Whether the backend is asked for a vector to write.
    pub open spec fn writes(self) -> bool {
        self.enabled && self.has_credential
    }

    /// What the backend's vector makes of a write.
    pub open spec fn written(self, vector: Option<Seq<u32>>) -> Result<
        WriteView,
        EmbeddingWriteError,
    > {
        match vector {
            Some(v) => if self.fits(v) {
                Ok(WriteView::Embedded(v))
            } else {
                Err(
                    EmbeddingWriteError::DimensionMismatch {
                        actual: v.len() as usize,
                        configured: self.dimension->0,
                    },
                )
            },
            None => Ok(WriteView::Unavailable),
        }
    }

    /// What a write gets, given the attempts made if the backend is asked.
    pub open spec fn write_result(self, attempts: Seq<AttemptView>) -> Result<
        WriteView,
        EmbeddingWriteError,
    > {
        if self.writes() {
            self.written(request::outcome(attempts))
        } else {
            Ok(WriteView::Unavailable)
        }
    }

    /// Why the dimensions of the two paths do not agree, if they do not.
    pub open spec fn misconfigured(self, source_dimension: Option<u32>) -> Option<
        EmbeddingWriteError,
    > {
        if self.dimension is Some && source_dimension is Some && self.dimension
            != source_dimension {
            Some(
                EmbeddingWriteError::DimensionMisconfigured {
                    writer: self.dimension->0,
                    source: source_dimension->0,
                },
            )
        } else {
            None
        }
    }
}

/// The view of the result of a write.
pub open spec fn result_view(r: Result<WriteEmbedding, EmbeddingWriteError>) -> Result<
    WriteView,
    EmbeddingWriteError,
> {
    match r {
        Ok(w) => Ok(w@),
        Err(e) => Err(e),
    }
}

impl EmbeddingKnobs {
    /// What to ask the backend for a vector to write, if it is asked at all.
    pub fn write_request(&self, intent: &IntentSignature) -> (r: Option<EmbeddingRequest>)
        ensures
            r is Some == self@.writes(),
            r is Some ==> r->0@ == self@.request(intent@),
    {
        if !self.enabled || !self.has_credential {
            None
        } else {
            Some(self.request(intent))
        }
    }

    /// What the backend's vector makes of a write.
    pub fn write_outcome(&self, vector: Option<Vec<u32>>) -> (r: Result<
        WriteEmbedding,
        EmbeddingWriteError,
    >)
        ensures
            result_view(r) == self@.written(request::vector_view(vector)),
    {
        match vector {
            Some(v) => {
                match self.dimension {
                    Some(dimension) => {
                        if v.len() as u64 != dimension as u64 {
                            return Err(
                                EmbeddingWriteError::DimensionMismatch {
                                    actual: v.len(),
                                    configured: dimension,
                                },
                            );
                        }
                    },
                    None => {},
                }
                Ok(WriteEmbedding::Embedded(Embedding(v)))
            },
            None => Ok(WriteEmbedding::Unavailable),
        }
    }

    /// Checks that the two paths are configured for the same dimension.
    pub fn check_source_dimension(&self, source_dimension: Option<u32>) -> (r: Result<
        (),
        EmbeddingWriteError,
    >)
        ensures
            r == match self@.misconfigured(source_dimension) {
                Some(e) => Err::<(), EmbeddingWriteError>(e),
                None => Ok(()),
            },
    {
        match (self.dimension, source_dimension) {
            (Some(writer), Some(source)) => {
                if writer != source {
                    Err(EmbeddingWriteError::DimensionMisconfigured { writer, source })
                } else {
                    Ok(())
                }
            },
            _ => Ok(()),
        }
    }
}

/// The write path over a client.
pub struct MemoryEmbeddingWriter<C: EmbeddingClient> {
    client: C,
    knobs: EmbeddingKnobs,
}

impl<C: EmbeddingClient> View for MemoryEmbeddingWriter<C> {
    type V = KnobsView;

    closed spec fn view(&self) -> KnobsView {
        self.knobs@
    }
}

/// Whether these are the attempts made for the vector of a memory that is
/// written, and they led from one client to the other. A client that is not asked
/// is left as it was.
pub open spec fn asked_client<C: EmbeddingClient>(
    before: C,
    knobs: KnobsView,
    intent: IntentView,
    attempts: Seq<AttemptView>,
    after: C,
) -> bool {
    if knobs.writes() {
        request::asked(
            before,
            knobs.request(intent),
            knobs.max_attempts as nat,
            attempts,
            after,
        )
    } else {
        after == before
    }
}

impl<C: EmbeddingClient> MemoryEmbeddingWriter<C> {
    /// The client.
    pub closed spec fn client(&self) -> C {
        self.client
    }

    /// A writer over the client.
    pub fn new(client: C, settings: &ResolvedEmbeddingSettings) -> (r: Self)
        ensures
            r@ == request::knobs_of(*settings),
            r.client() == client,
    {
        MemoryEmbeddingWriter { client, knobs: EmbeddingKnobs::from_settings(settings) }
    }

    /// The vector for a memory with this intent.
    pub fn embed_for_write(&mut self, intent: &IntentSignature) -> (r: Result<
        WriteEmbedding,
        EmbeddingWriteError,
    >)
        ensures
            final(self)@ == old(self)@,
            exists|attempts: Seq<AttemptView>| #[trigger]
                asked_client(
                    old(self).client(),
                    old(self)@,
                    intent@,
                    attempts,
                    final(self).client(),
                ) && result_view(r) == old(self)@.write_result(attempts),
    {
        match self.knobs.write_request(intent) {
            Some(request) => {
                let vector = request::attempt_embed(
                    &mut self.client,
                    &request,
                    self.knobs.max_attempts,
                );
                proof {
                    let attempts = choose|attempts: Seq<AttemptView>| #[trigger]
                        request::asked(
                            old(self).client,
                            request@,
                            self.knobs.max_attempts as nat,
                            attempts,
                            self.client,
                        ) && request::vector_view(vector) == request::outcome(attempts);
                    assert(asked_client(
                        old(self).client(),
                        old(self)@,
                        intent@,
                        attempts,
                        self.client(),
                    ));
                }
                self.knobs.write_outcome(vector)
            },
            None => {
                assert(asked_client(
                    old(self).client(),
                    old(self)@,
                    intent@,
                    Seq::empty(),
                    self.client(),
                ));
                Ok(WriteEmbedding::Unavailable)
            },
        }
    }

    /// Checks that the two paths are configured for the same dimension.
    pub fn check_source_dimension(&self, source_dimension: Option<u32>) -> (r: Result<
        (),
        EmbeddingWriteError,
    >)
        ensures
            r == match self@.misconfigured(source_dimension) {
                Some(e) => Err::<(), EmbeddingWriteError>(e),
                None => Ok(()),
            },
    {
        self.knobs.check_source_dimension(source_dimension)
    }
}

/// Why a memory is not kept, given what came of its vector.
pub open spec fn write_fault(mem: MemoryView, written: Result<WriteView, EmbeddingWriteError>) -> Option<
    MemoryStoreError,
> {
    match written {
        Ok(_) => store::fault(mem),
        Err(e) => Some(store_error(e)),
    }
}

/// Keeps a memory with what came of its vector.
pub fn insert_embedded<S: MemoryStore>(
    memories: &mut S,
    key: (GoalNodeId, SubtreeHash),
    mem: Memory,
    written: Result<WriteEmbedding, EmbeddingWriteError>,
) -> (r: Result<MemoryId, MemoryStoreError>)
    requires
        store::sound(old(memories).records()),
    ensures
        final(memories).available() == old(memories).available(),
        store::sound(final(memories).records()),
        write_fault(mem@, result_view(written)) matches Some(e) ==> r == Err::<
            MemoryId,
            MemoryStoreError,
        >(e) && final(memories).records() == old(memories).records(),
        write_fault(mem@, result_view(written)) is None ==> r is Ok && r->Ok_0@ == mem@.id,
        old(memories).available() && write_fault(mem@, result_view(written)) is None
            ==> store::table(final(memories).records()) == store::table(
            old(memories).records(),
        ).insert(
            mem@.id,
            store::record_of(
                mem@,
                key.0@,
                key.1@,
                result_view(written)->Ok_0.kept(),
                0,
                0,
            ),
        ),
{
    match written {
        Ok(WriteEmbedding::Embedded(embedding)) => memories.insert_with_embedding(
            key,
            mem,
            embedding,
        ),
        Ok(WriteEmbedding::Unavailable) => memories.insert_with_embedding(
            key,
            mem,
            Embedding::default(),
        ),
        Err(e) => Err(MemoryStoreError::from(e)),
    }
}

/// What comes of the vector of a memory that is written, and of the writer:
/// where the two paths disagree nothing is asked.
pub open spec fn writes<C: EmbeddingClient>(
    before: MemoryEmbeddingWriter<C>,
    source_dimension: Option<u32>,
    intent: IntentView,
    written: Result<WriteView, EmbeddingWriteError>,
    after: MemoryEmbeddingWriter<C>,
) -> bool {
    &&& after@ == before@
    &&& match before@.misconfigured(source_dimension) {
        Some(e) => after.client() == before.client() && written == Err::<
            WriteView,
            EmbeddingWriteError,
        >(e),
        None => exists|attempts: Seq<AttemptView>| #[trigger]
            asked_client(before.client(), before@, intent, attempts, after.client()) && written
                == before@.write_result(attempts),
    }
}

/// What comes of the vector of a memory that is written.
pub fn prepare_write<C: EmbeddingClient>(
    writer: &mut MemoryEmbeddingWriter<C>,
    source_dimension: Option<u32>,
    intent: &IntentSignature,
) -> (r: Result<WriteEmbedding, EmbeddingWriteError>)
    ensures
        writes(*old(writer), source_dimension, intent@, result_view(r), *final(writer)),
{
    match writer.check_source_dimension(source_dimension) {
        Err(e) => Err(e),
        Ok(()) => writer.embed_for_write(intent),
    }
}

/// Makes a vector for a memory and keeps both.
pub fn insert_memory_with_writer<C: EmbeddingClient, S: MemoryStore>(
    writer: &mut MemoryEmbeddingWriter<C>,
    source_dimension: Option<u32>,
    memories: &mut S,
    key: (GoalNodeId, SubtreeHash),
    mem: Memory,
) -> (r: Result<MemoryId, MemoryStoreError>)
    requires
        store::sound(old(memories).records()),
    ensures
        final(memories).available() == old(memories).available(),
        store::sound(final(memories).records()),
        r is Err ==> final(memories).records() == old(memories).records(),
        exists|written: Result<WriteView, EmbeddingWriteError>|
            {
                &&& #[trigger] writes(
                    *old(writer),
                    source_dimension,
                    mem@.intent,
                    written,
                    *final(writer),
                )
                &&& write_fault(mem@, written) matches Some(e) ==> r == Err::<
                    MemoryId,
                    MemoryStoreError,
                >(e)
                &&& write_fault(mem@, written) is None ==> r is Ok && r->Ok_0@ == mem@.id
                &&& old(memories).available() && write_fault(mem@, written) is None
                    ==> store::table(final(memories).records()) == store::table(
                    old(memories).records(),
                ).insert(
                    mem@.id,
                    store::record_of(mem@, key.0@, key.1@, written->Ok_0.kept(), 0, 0),
                )
            },
{
    let written = prepare_write(writer, source_dimension, &mem.intent);
    let ghost seen = result_view(written);
    assert(writes(*old(writer), source_dimension, mem@.intent, seen, *writer));
    insert_embedded(memories, key, mem, written)
}

/// A vector that is kept with a memory is empty or has the configured dimension.
pub proof fn law_kept_vectors_fit(knobs: KnobsView, attempts: Seq<AttemptView>)
    requires
        knobs.write_result(attempts) is Ok,
        knobs.dimension is Some,
    ensures
        knobs.write_result(attempts)->Ok_0.kept().len() == 0
            || knobs.write_result(attempts)->Ok_0.kept().len() == knobs.dimension->0,
{
}

/// A backend that gives no vector does not stop a write: the memory is kept
/// without one.
pub proof fn law_unavailable_still_writes(knobs: KnobsView, attempts: Seq<AttemptView>, mem: MemoryView)
    requires
        !knobs.writes() || request::outcome(attempts) is None,
        store::fault(mem) is None,
    ensures
        write_fault(mem, knobs.write_result(attempts)) is None,
        knobs.write_result(attempts)->Ok_0.kept().len() == 0,
{
}

/// The two paths agree on model and dimension when they are built from the same
/// settings.
pub proof fn law_same_settings_agree(settings: ResolvedEmbeddingSettings)
    ensures
        request::knobs_of(settings).misconfigured(settings.dimension) is None,
{
}

} // verus!
