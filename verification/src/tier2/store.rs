//! The store of memories, with validation on every write.
//!
//! A store walks its records in an order of its own. Each identifier occurs
//! once, and no invalid memory is ever kept.

use vstd::prelude::*;
use vstd::string::*;

use crate::goal_model::closure;
use crate::keyed;
use crate::text;
use crate::tier2::memory::{
    AnswerMode, Embedding, Memory, MemoryKind, MemoryRecord, MemoryRecordView, MemoryView, Plan,
    PlanView, ProvenanceView, Reinforcement,
};
use crate::tier2::ranking;
use crate::types;
use crate::types::{
    GoalNodeId, GoalTimestamp, IntentSignature, IntentView, MemoryId, SubtreeHash, TokenView,
    ValidityToken,
};
use crate::views;

verus! {

/// Why a write was refused. A refused write changes nothing.
#[derive(Debug, Clone, Copy, PartialEq, Eq, Structural)]
pub enum MemoryStoreError {
    /// The kind is not one of the known ones.
    InvalidMemoryKind,
    /// A dead end came without evidence.
    MissingEvidenceContract,
    /// A cached answer came without validity tokens.
    EmptyValidityTokens,
    /// A sound answer rests on a volatile token.
    UnsoundPinnableTokens,
    /// The vector made for the memory has the wrong length.
    EmbeddingDimensionMismatch {
        /// The length of the vector.
        actual: usize,
        /// The configured dimension.
        configured: u32,
    },
    /// The write path and the query path are configured for different dimensions.
    EmbeddingDimensionMisconfigured {
        /// The dimension of the write path.
        writer: u32,
        /// The dimension of the query path.
        source: u32,
    },
}

impl MemoryStoreError {
    /// The message shown for the error.
    pub open spec fn message(self) -> Seq<char> {
        match self {
            MemoryStoreError::InvalidMemoryKind =>
                "invalid memory kind: kind is absent or outside the permitted set"@,
            MemoryStoreError::MissingEvidenceContract =>
                "missing evidence contract: a Negative memory requires a non-empty evidence contract"@,
            MemoryStoreError::EmptyValidityTokens =>
                "empty validity tokens: a cached outcome requires at least one validity token"@,
            MemoryStoreError::UnsoundPinnableTokens =>
                "unsound pinnable tokens: a SoundPinnable answer must depend only on pinnable ContentHash tokens"@,
            MemoryStoreError::EmbeddingDimensionMismatch { actual, configured } =>
                "embedding dimension mismatch: produced vector length "@ + text::decimal(
                    actual as nat,
                ) + " != configured dimension "@ + text::decimal(configured as nat),
            MemoryStoreError::EmbeddingDimensionMisconfigured { writer, source } =>
                "embedding dimension misconfigured: writer dimension "@ + text::decimal(
                    writer as nat,
                ) + " != source dimension "@ + text::decimal(source as nat),
        }
    }

    /// The message shown for the error.
    pub fn to_string(&self) -> (r: String)
        ensures
            r@ == self.message(),
    {
        match *self {
            MemoryStoreError::InvalidMemoryKind =>
                "invalid memory kind: kind is absent or outside the permitted set".to_owned(),
            MemoryStoreError::MissingEvidenceContract =>
                "missing evidence contract: a Negative memory requires a non-empty evidence contract".to_owned(),
            MemoryStoreError::EmptyValidityTokens =>
                "empty validity tokens: a cached outcome requires at least one validity token".to_owned(),
            MemoryStoreError::UnsoundPinnableTokens =>
                "unsound pinnable tokens: a SoundPinnable answer must depend only on pinnable ContentHash tokens".to_owned(),
            MemoryStoreError::EmbeddingDimensionMismatch { actual, configured } => {
                let mut r = "embedding dimension mismatch: produced vector length ".to_owned();
                text::push_decimal(&mut r, actual as u64);
                r.append(" != configured dimension ");
                text::push_decimal(&mut r, configured as u64);
                r
            },
            MemoryStoreError::EmbeddingDimensionMisconfigured { writer, source } => {
                let mut r = "embedding dimension misconfigured: writer dimension ".to_owned();
                text::push_decimal(&mut r, writer as u64);
                r.append(" != source dimension ");
                text::push_decimal(&mut r, source as u64);
                r
            },
        }
    }
}

/// Whether every token pins its source by content.
pub open spec fn all_pinned(tokens: Seq<TokenView>) -> bool {
    forall|i: int| 0 <= i < tokens.len() ==> (#[trigger] tokens[i]) is ContentHash
}

/// Why a memory may not be kept, if it may not: the first rule that it breaks.
pub open spec fn fault(mem: MemoryView) -> Option<MemoryStoreError> {
    if mem.kind == MemoryKind::Negative && mem.evidence_contract.items.len() == 0 {
        Some(MemoryStoreError::MissingEvidenceContract)
    } else if mem.cached_outcome is Some && mem.cached_outcome->0.validity_tokens.len() == 0 {
        Some(MemoryStoreError::EmptyValidityTokens)
    } else if mem.cached_outcome is Some && mem.cached_outcome->0.mode is SoundPinnable
        && !all_pinned(mem.cached_outcome->0.validity_tokens) {
        Some(MemoryStoreError::UnsoundPinnableTokens)
    } else {
        None
    }
}

/// Checks the rules that a memory must obey to be kept.
pub fn validate_memory(mem: &Memory) -> (r: Result<(), MemoryStoreError>)
    ensures
        r == match fault(mem@) {
            Some(e) => Err::<(), MemoryStoreError>(e),
            None => Ok(()),
        },
{
    if mem.kind == MemoryKind::Negative && mem.evidence_contract.is_empty() {
        return Err(MemoryStoreError::MissingEvidenceContract);
    }
    if let Some(cached) = &mem.cached_outcome {
        if cached.validity_tokens.len() == 0 {
            return Err(MemoryStoreError::EmptyValidityTokens);
        }
        let pinned: bool = tokens_pinned(&cached.validity_tokens);
        match cached.mode {
            AnswerMode::SoundPinnable => {
                if !pinned {
                    return Err(MemoryStoreError::UnsoundPinnableTokens);
                }
            },
            AnswerMode::BoundedVolatile { .. } => {},
        }
    }
    Ok(())
}

/// Whether every token pins its source by content.
pub fn tokens_pinned(tokens: &Vec<ValidityToken>) -> (r: bool)
    ensures
        r == all_pinned(views::of_seq(tokens@)),
{
    let mut i: usize = 0;
    while i < tokens.len()
        invariant
            i <= tokens@.len(),
            forall|j: int| 0 <= j < i ==> (#[trigger] views::of_seq(tokens@)[j]) is ContentHash,
        decreases tokens@.len() - i,
    {
        match &tokens[i] {
            ValidityToken::ContentHash(_) => {},
            _ => {
                assert(!(views::of_seq(tokens@)[i as int] is ContentHash));
                return false;
            },
        }
        i += 1;
    }
    true
}

/// The record of a memory.
pub open spec fn record_of(
    mem: MemoryView,
    node_id: Seq<char>,
    subtree_hash: Seq<char>,
    embedding: Seq<u32>,
    created_at: u64,
    updated_at: u64,
) -> MemoryRecordView {
    MemoryRecordView {
        id: mem.id,
        intent_type: mem.intent.intent_type,
        target_type: mem.intent.target_type,
        target_ref: mem.intent.target_ref,
        scope: mem.intent.scope,
        kind: mem.kind,
        embedding,
        body: mem,
        node_id,
        subtree_hash,
        created_at,
        updated_at,
    }
}

/// Whether the fields beside the memory repeat what the memory says.
pub open spec fn mirrors(r: MemoryRecordView) -> bool {
    r == record_of(r.body, r.node_id, r.subtree_hash, r.embedding, r.created_at, r.updated_at)
}

/// The identifiers of records, in order.
pub open spec fn ids(records: Seq<MemoryRecordView>) -> Seq<Seq<char>> {
    records.map_values(|r: MemoryRecordView| r.id)
}

/// The records by identifier.
pub open spec fn table(records: Seq<MemoryRecordView>) -> Map<Seq<char>, MemoryRecordView> {
    keyed::map_of(ids(records), records)
}

/// Whether a store may hold these records: each identifier once, each record
/// true to its memory, each memory valid.
pub open spec fn sound(records: Seq<MemoryRecordView>) -> bool {
    &&& ids(records).no_duplicates()
    &&& forall|i: int| 0 <= i < records.len() ==> mirrors(#[trigger] records[i])
    &&& forall|i: int| 0 <= i < records.len() ==> fault((#[trigger] records[i]).body) is None
}

/// Origins with more of them: those that are there in order, then each new one
/// once.
pub open spec fn merged(
    origins: Seq<(Seq<char>, Seq<char>)>,
    more: Seq<(Seq<char>, Seq<char>)>,
) -> Seq<(Seq<char>, Seq<char>)>
    decreases more.len(),
{
    if more.len() == 0 {
        origins
    } else {
        let rest = merged(origins, more.drop_last());
        if rest.contains(more.last()) {
            rest
        } else {
            rest.push(more.last())
        }
    }
}

fn has_origin(
    origins: &Vec<(GoalNodeId, SubtreeHash)>,
    origin: &(GoalNodeId, SubtreeHash),
) -> (r: bool)
    ensures
        r == closure::pair_views(origins@).contains((origin.0@, origin.1@)),
{
    let ghost known = closure::pair_views(origins@);
    let mut i: usize = 0;
    while i < origins.len()
        invariant
            i <= origins@.len(),
            known == closure::pair_views(origins@),
            forall|j: int| 0 <= j < i ==> #[trigger] known[j] != (origin.0@, origin.1@),
        decreases origins@.len() - i,
    {
        if origins[i].0.0 == origin.0.0 && origins[i].1.0.0 == origin.1.0.0 {
            assert(known[i as int] == (origin.0@, origin.1@));
            return true;
        }
        i += 1;
    }
    false
}

/// Adds origins to those of a memory, each once.
pub fn merge_origins(
    origins: &mut Vec<(GoalNodeId, SubtreeHash)>,
    more: &Vec<(GoalNodeId, SubtreeHash)>,
)
    ensures
        closure::pair_views(final(origins)@) == merged(
            closure::pair_views(old(origins)@),
            closure::pair_views(more@),
        ),
{
    let ghost start = closure::pair_views(origins@);
    let ghost all = closure::pair_views(more@);
    let mut i: usize = 0;
    assert(all.take(0).len() == 0);
    while i < more.len()
        invariant
            i <= more@.len(),
            all == closure::pair_views(more@),
            closure::pair_views(origins@) == merged(start, all.take(i as int)),
        decreases more@.len() - i,
    {
        proof {
            assert(all.take(i + 1).drop_last() =~= all.take(i as int));
            assert(all.take(i + 1).last() == (more@[i as int].0@, more@[i as int].1@));
        }
        if !has_origin(origins, &more[i]) {
            let ghost before = closure::pair_views(origins@);
            origins.push((more[i].0.clone(), more[i].1.clone()));
            assert(closure::pair_views(origins@) =~= before.push(all[i as int]));
        }
        i += 1;
    }
    assert(all.take(i as int) =~= all);
}

/// A record after its memory was seen again, in the shape of a candidate, at the
/// next tick.
pub open spec fn bumped(r: MemoryRecordView, candidate: MemoryView) -> MemoryRecordView {
    let next = if r.updated_at < u64::MAX {
        (r.updated_at + 1) as u64
    } else {
        u64::MAX
    };
    let counts = r.body.reinforcement;
    MemoryRecordView {
        body: MemoryView {
            reinforcement: Reinforcement {
                hits: if counts.hits < u64::MAX {
                    (counts.hits + 1) as u64
                } else {
                    u64::MAX
                },
                confirms: if counts.confirms < u64::MAX {
                    (counts.confirms + 1) as u64
                } else {
                    u64::MAX
                },
                contradicts: counts.contradicts,
                last_updated: GoalTimestamp(next),
            },
            provenance: ProvenanceView {
                origins: merged(r.body.provenance.origins, candidate.provenance.origins),
            },
            ..r.body
        },
        updated_at: next,
        ..r
    }
}

/// The memory under another identifier.
pub open spec fn renamed(mem: MemoryView, id: Seq<char>) -> MemoryView {
    MemoryView { id, ..mem }
}

/// The record made when a memory is reinforced that the store does not know.
pub open spec fn first_observation(
    id: Seq<char>,
    candidate: MemoryView,
    node_id: Seq<char>,
) -> MemoryRecordView {
    record_of(renamed(candidate, id), node_id, candidate.version, Seq::empty(), 0, 0)
}

/// Whether a node can stand for where a memory came from: the first origin, or
/// a fresh node where there is none.
pub open spec fn origin_of(candidate: MemoryView, node_id: Seq<char>) -> bool {
    if candidate.provenance.origins.len() > 0 {
        node_id == candidate.provenance.origins[0].0
    } else {
        types::is_random_id(node_id)
    }
}

/// Whether the records changed as reinforcing `id` with a valid candidate
/// changes them: a known memory is bumped, an unknown one is kept under `id`.
pub open spec fn reinforced(
    before: Seq<MemoryRecordView>,
    id: Seq<char>,
    candidate: MemoryView,
    after: Seq<MemoryRecordView>,
) -> bool {
    if table(before).dom().contains(id) {
        table(after) == table(before).insert(id, bumped(table(before)[id], candidate))
    } else {
        exists|node_id: Seq<char>| #[trigger]
            origin_of(candidate, node_id) && table(after) == table(before).insert(
                id,
                first_observation(id, candidate, node_id),
            )
    }
}

/// The memories that apply to a signature, in the order of the records.
pub open spec fn applicable(records: Seq<MemoryRecordView>, sig: IntentView) -> Seq<MemoryView>
    decreases records.len(),
{
    if records.len() == 0 {
        Seq::empty()
    } else {
        let rest = applicable(records.drop_last(), sig);
        if records.last().body.applicability.applies_to(sig) {
            rest.push(records.last().body)
        } else {
            rest
        }
    }
}

/// The identifier of the first record of which `holds` is true.
pub open spec fn first_id(
    records: Seq<MemoryRecordView>,
    holds: spec_fn(MemoryRecordView) -> bool,
) -> Option<Seq<char>>
    decreases records.len(),
{
    if records.len() == 0 {
        None
    } else if holds(records[0]) {
        Some(records[0].id)
    } else {
        first_id(records.drop_first(), holds)
    }
}

/// True of a record learned from this subtree.
pub open spec fn learned_from(node_id: Seq<char>, subtree_hash: Seq<char>) -> spec_fn(
    MemoryRecordView,
) -> bool {
    |r: MemoryRecordView| r.node_id == node_id && r.subtree_hash == subtree_hash
}

/// True of a record of a memory with this intent and this plan.
pub open spec fn plans(intent: IntentView, plan: PlanView) -> spec_fn(MemoryRecordView) -> bool {
    |r: MemoryRecordView| r.body.intent == intent && r.body.plan == plan
}

/// The rank of a single-precision number, given by its bits, in the IEEE 754
/// total order: negative numbers by falling magnitude, then the others by
/// rising magnitude.
pub open spec fn total_order(bits: u32) -> u32 {
    if bits < 0x8000_0000 {
        (bits + 0x8000_0000) as u32
    } else {
        (0xffff_ffff - bits) as u32
    }
}

/// The memories with the rank of their distances.
pub open spec fn scored(records: Seq<MemoryRecordView>, distances: Seq<u32>) -> Seq<
    (u32, MemoryView),
> {
    Seq::new(
        if records.len() < distances.len() {
            records.len()
        } else {
            distances.len()
        },
        |i: int| (total_order(distances[i]), records[i].body),
    )
}

/// The `limit` memories nearest to a query, given the distance of each record.
pub open spec fn nearest(
    records: Seq<MemoryRecordView>,
    distances: Seq<u32>,
    limit: nat,
) -> Seq<MemoryView> {
    ranking::first_values(scored(records, distances), limit)
}

/// Keeps memories and finds those that apply to a goal.
///
/// An implementation names its records, in the order in which it walks them,
/// and says when these are what it reads and writes. One in ordinary Rust need
/// say neither: it is then held to no more than the result of a write.
pub trait MemoryStore: Sized {
    /// The records, in the order in which the store walks them.
    open spec fn records(&self) -> Seq<MemoryRecordView> {
        Seq::empty()
    }

    /// Whether the store reads and writes its records.
    open spec fn available(&self) -> bool {
        false
    }

    /// Keeps a memory under the subtree it was learned from, with the vector it
    /// is recalled by.
    fn insert_with_embedding(
        &mut self,
        key: (GoalNodeId, SubtreeHash),
        mem: Memory,
        embedding: Embedding,
    ) -> (r: Result<MemoryId, MemoryStoreError>)
        requires
            sound(old(self).records()),
        ensures
            final(self).available() == old(self).available(),
            sound(final(self).records()),
            fault(mem@) matches Some(e) ==> r == Err::<MemoryId, MemoryStoreError>(e)
                && final(self).records() == old(self).records(),
            fault(mem@) is None ==> r is Ok && r->Ok_0@ == mem@.id,
            old(self).available() && fault(mem@) is None ==> table(final(self).records()) == table(
                old(self).records(),
            ).insert(
                mem@.id,
                record_of(mem@, key.0@, key.1@, embedding@, 0, 0),
            ),
    ;

    /// Keeps a memory under the subtree it was learned from.
    fn insert(&mut self, key: (GoalNodeId, SubtreeHash), mem: Memory) -> (r: Result<
        MemoryId,
        MemoryStoreError,
    >)
        requires
            sound(old(self).records()),
        ensures
            final(self).available() == old(self).available(),
            sound(final(self).records()),
            fault(mem@) matches Some(e) ==> r == Err::<MemoryId, MemoryStoreError>(e)
                && final(self).records() == old(self).records(),
            fault(mem@) is None ==> r is Ok && r->Ok_0@ == mem@.id,
            old(self).available() && fault(mem@) is None ==> table(final(self).records()) == table(
                old(self).records(),
            ).insert(
                mem@.id,
                record_of(mem@, key.0@, key.1@, Seq::empty(), 0, 0),
            ),
    {
        self.insert_with_embedding(key, mem, Embedding::default())
    }

    /// Counts one more sight of the memory `id`, or keeps the candidate under
    /// `id` if the store does not know it.
    fn reinforce(&mut self, id: &MemoryId, candidate: Memory) -> (r: Result<
        MemoryId,
        MemoryStoreError,
    >)
        requires
            sound(old(self).records()),
        ensures
            final(self).available() == old(self).available(),
            sound(final(self).records()),
            fault(candidate@) matches Some(e) ==> r == Err::<MemoryId, MemoryStoreError>(e)
                && final(self).records() == old(self).records(),
            fault(candidate@) is None ==> r is Ok && r->Ok_0@ == id@,
            old(self).available() && fault(candidate@) is None ==> reinforced(
                old(self).records(),
                id@,
                candidate@,
                final(self).records(),
            ),
    ;

    /// The memories that apply to the signature.
    fn filter(&self, sig: &IntentSignature) -> (r: Vec<Memory>)
        ensures
            self.available() ==> views::of_seq(r@) == applicable(self.records(), sig@),
    ;

    /// The vectors of the records, in the order of the records.
    fn embeddings(&self) -> (r: Vec<Embedding>)
        ensures
            self.available() ==> views::of_seq(r@) == self.records().map_values(
                |x: MemoryRecordView| x.embedding,
            ),
    ;

    /// The memories nearest to a query, at most `limit` of them.
    ///
    /// `distances` gives the bits of each record's distance from the query, in
    /// the order of [`MemoryStore::embeddings`].
    fn ann_recall(&self, distances: &Vec<u32>, limit: usize) -> (r: Vec<Memory>)
        ensures
            self.available() ==> views::of_seq(r@) == nearest(
                self.records(),
                distances@,
                limit as nat,
            ),
    ;

    /// The memory learned from a subtree, if there is one.
    fn has_memory_for(&self, key: &(GoalNodeId, SubtreeHash)) -> (r: Option<MemoryId>)
        ensures
            self.available() ==> views::of_option(r) == first_id(
                self.records(),
                learned_from(key.0@, key.1@),
            ),
    ;

    /// A memory with the same intent and the same plan, if there is one.
    fn find_duplicate(&self, intent: &IntentSignature, plan: &Plan) -> (r: Option<MemoryId>)
        ensures
            self.available() ==> views::of_option(r) == first_id(
                self.records(),
                plans(intent@, plan@),
            ),
    ;
}

/// A store that keeps its records in memory, in the order of first insertion.
#[derive(Debug)]
pub struct InMemoryMemoryStore {
    records: Vec<MemoryRecord>,
}

impl Default for InMemoryMemoryStore {
    fn default() -> (r: Self)
        ensures
            r.records() == Seq::<MemoryRecordView>::empty(),
            sound(r.records()),
            r.available(),
    {
        InMemoryMemoryStore::new()
    }
}

/// The records with one more: in place of the record of the same memory, or at
/// the end.
pub open spec fn with_record(records: Seq<MemoryRecordView>, record: MemoryRecordView) -> Seq<
    MemoryRecordView,
> {
    if ids(records).contains(record.id) {
        records.update(ids(records).index_of(record.id), record)
    } else {
        records.push(record)
    }
}

proof fn lemma_with_record(records: Seq<MemoryRecordView>, record: MemoryRecordView)
    requires
        sound(records),
        mirrors(record),
        fault(record.body) is None,
    ensures
        sound(with_record(records, record)),
        table(with_record(records, record)) == table(records).insert(record.id, record),
{
    let after = with_record(records, record);
    if ids(records).contains(record.id) {
        let i = ids(records).index_of(record.id);
        assert(ids(after) =~= ids(records));
        keyed::lemma_update(ids(records), records, i, record);
        assert(ids(records)[i] == record.id);
    } else {
        assert(ids(after) =~= ids(records).push(record.id));
        keyed::lemma_push(ids(records), records, record.id, record);
    }
}

proof fn lemma_first_id(
    records: Seq<MemoryRecordView>,
    holds: spec_fn(MemoryRecordView) -> bool,
    at: int,
)
    requires
        0 <= at <= records.len(),
        forall|i: int| 0 <= i < at ==> !holds(#[trigger] records[i]),
        at < records.len() ==> holds(records[at]),
    ensures
        first_id(records, holds) == if at < records.len() {
            Some(records[at].id)
        } else {
            None
        },
    decreases records.len(),
{
    if records.len() > 0 && at > 0 {
        assert(!holds(records[0]));
        let rest = records.drop_first();
        assert forall|i: int| 0 <= i < at - 1 implies !holds(#[trigger] rest[i]) by {
            assert(rest[i] == records[i + 1]);
        }
        lemma_first_id(rest, holds, at - 1);
    }
}

/// The rank of a number in the total order, from its bits.
pub fn total_order_key(bits: u32) -> (r: u32)
    ensures
        r == total_order(bits),
{
    if bits < 0x8000_0000 {
        bits + 0x8000_0000
    } else {
        0xffff_ffff - bits
    }
}

impl InMemoryMemoryStore {
    /// A store without memories.
    pub fn new() -> (r: Self)
        ensures
            r.records() == Seq::<MemoryRecordView>::empty(),
            sound(r.records()),
            r.available(),
    {
        let r = InMemoryMemoryStore { records: Vec::new() };
        assert(r.records() =~= Seq::<MemoryRecordView>::empty());
        r
    }

    fn record_from(
        mem: Memory,
        node_id: GoalNodeId,
        subtree_hash: SubtreeHash,
        embedding: Embedding,
        created_at: GoalTimestamp,
        updated_at: GoalTimestamp,
    ) -> (r: MemoryRecord)
        ensures
            r@ == record_of(
                mem@,
                node_id@,
                subtree_hash@,
                embedding@,
                created_at.0,
                updated_at.0,
            ),
    {
        MemoryRecord {
            id: mem.id.clone(),
            intent_type: mem.intent.intent_type.clone(),
            target_type: mem.intent.target_type.clone(),
            target_ref: mem.intent.target_ref.clone(),
            scope: mem.intent.scope.clone(),
            kind: mem.kind,
            embedding,
            body: mem,
            node_id,
            subtree_hash,
            created_at,
            updated_at,
        }
    }

    /// Where the record of a memory stands, or the number of records.
    fn find(&self, id: &MemoryId) -> (r: usize)
        ensures
            r <= self.records().len(),
            r < self.records().len() ==> self.records()[r as int].id == id@,
            forall|i: int| 0 <= i < r ==> (#[trigger] self.records()[i]).id != id@,
    {
        let mut i: usize = 0;
        while i < self.records.len() && self.records[i].id.0 != id.0
            invariant
                i <= self.records@.len(),
                forall|j: int| 0 <= j < i ==> (#[trigger] self.records()[j]).id != id@,
            decreases self.records@.len() - i,
        {
            i += 1;
        }
        i
    }

    fn put(&mut self, record: MemoryRecord)
        requires
            sound(old(self).records()),
            mirrors(record@),
            fault(record@.body) is None,
        ensures
            sound(final(self).records()),
            final(self).records() == with_record(old(self).records(), record@),
            table(final(self).records()) == table(old(self).records()).insert(
                record@.id,
                record@,
            ),
    {
        let i = self.find(&record.id);
        let ghost before = self.records();
        let ghost entry = record@;
        proof {
            lemma_with_record(before, entry);
        }
        if i < self.records.len() {
            self.records.set(i, record);
            proof {
                assert(ids(before)[i as int] == entry.id);
                assert(ids(before).index_of(entry.id) == i);
                assert(self.records() =~= before.update(i as int, entry));
            }
        } else {
            self.records.push(record);
            proof {
                if ids(before).contains(entry.id) {
                    let j = ids(before).index_of(entry.id);
                    assert(before[j].id == entry.id);
                }
                assert(self.records() =~= before.push(entry));
            }
        }
    }

    /// Reinforces as [`MemoryStore::reinforce`] does, with the node to note for
    /// a memory that the store does not know and that names no origin.
    pub fn reinforce_from(&mut self, id: &MemoryId, candidate: Memory, fresh: GoalNodeId) -> (r:
        Result<MemoryId, MemoryStoreError>)
        requires
            sound(old(self).records()),
        ensures
            sound(final(self).records()),
            fault(candidate@) matches Some(e) ==> r == Err::<MemoryId, MemoryStoreError>(e)
                && final(self).records() == old(self).records(),
            fault(candidate@) is None ==> r is Ok && r->Ok_0@ == id@
                && final(self).records() == with_record(
                old(self).records(),
                if table(old(self).records()).dom().contains(id@) {
                    bumped(table(old(self).records())[id@], candidate@)
                } else {
                    first_observation(
                        id@,
                        candidate@,
                        if candidate@.provenance.origins.len() > 0 {
                            candidate@.provenance.origins[0].0
                        } else {
                            fresh@
                        },
                    )
                },
            ),
            fault(candidate@) is None ==> table(final(self).records()) == table(
                old(self).records(),
            ).insert(
                id@,
                if table(old(self).records()).dom().contains(id@) {
                    bumped(table(old(self).records())[id@], candidate@)
                } else {
                    first_observation(
                        id@,
                        candidate@,
                        if candidate@.provenance.origins.len() > 0 {
                            candidate@.provenance.origins[0].0
                        } else {
                            fresh@
                        },
                    )
                },
            ),
    {
        match validate_memory(&candidate) {
            Err(e) => {
                return Err(e);
            },
            Ok(()) => {},
        }
        let ghost before = self.records();
        let i = self.find(id);
        if i < self.records.len() {
            let mut record = self.records[i].clone();
            proof {
                assert(record@ == before[i as int]);
                assert(ids(before)[i as int] == id@);
                keyed::lemma_at(ids(before), before, i as int);
            }
            let next = GoalTimestamp(record.updated_at.0.saturating_add(1));
            let counts = record.body.reinforcement;
            record.body.reinforcement =
            Reinforcement {
                hits: counts.hits.saturating_add(1),
                confirms: counts.confirms.saturating_add(1),
                contradicts: counts.contradicts,
                last_updated: next,
            };
            record.updated_at = next;
            merge_origins(&mut record.body.provenance.origins, &candidate.provenance.origins);
            assert(record@ =~= bumped(before[i as int], candidate@));
            self.put(record);
        } else {
            proof {
                if table(before).dom().contains(id@) {
                    let j = ids(before).index_of(id@);
                    assert(before[j].id == id@);
                }
            }
            let mut mem = candidate;
            let node_id = if mem.provenance.origins.len() > 0 {
                mem.provenance.origins[0].0.clone()
            } else {
                fresh
            };
            let subtree_hash = mem.version.0.clone();
            mem.id = id.clone();
            assert(mem@ =~= renamed(candidate@, id@));
            let record = InMemoryMemoryStore::record_from(
                mem,
                node_id,
                subtree_hash,
                Embedding::default(),
                GoalTimestamp(0),
                GoalTimestamp(0),
            );
            self.put(record);
        }
        Ok(id.clone())
    }
}

impl MemoryStore for InMemoryMemoryStore {
    closed spec fn records(&self) -> Seq<MemoryRecordView> {
        views::of_seq(self.records@)
    }

    open spec fn available(&self) -> bool {
        true
    }

    fn insert_with_embedding(
        &mut self,
        key: (GoalNodeId, SubtreeHash),
        mem: Memory,
        embedding: Embedding,
    ) -> (r: Result<MemoryId, MemoryStoreError>)
        ensures
            fault(mem@) is None ==> final(self).records() == with_record(
                old(self).records(),
                record_of(mem@, key.0@, key.1@, embedding@, 0, 0),
            ),
    {
        match validate_memory(&mem) {
            Err(e) => {
                return Err(e);
            },
            Ok(()) => {},
        }
        let (node_id, subtree_hash) = key;
        let id = mem.id.clone();
        let now = GoalTimestamp(0);
        let record = InMemoryMemoryStore::record_from(
            mem,
            node_id,
            subtree_hash,
            embedding,
            now,
            now,
        );
        self.put(record);
        Ok(id)
    }

    fn reinforce(&mut self, id: &MemoryId, candidate: Memory) -> (r: Result<
        MemoryId,
        MemoryStoreError,
    >) {
        let fresh = GoalNodeId::default();
        let ghost node_id = if candidate@.provenance.origins.len() > 0 {
            candidate@.provenance.origins[0].0
        } else {
            fresh@
        };
        assert(origin_of(candidate@, node_id));
        self.reinforce_from(id, candidate, fresh)
    }

    fn filter(&self, sig: &IntentSignature) -> (r: Vec<Memory>) {
        let mut r: Vec<Memory> = Vec::new();
        let mut i: usize = 0;
        while i < self.records.len()
            invariant
                i <= self.records@.len(),
                views::of_seq(r@) == applicable(self.records().take(i as int), sig@),
            decreases self.records@.len() - i,
        {
            proof {
                assert(self.records().take(i + 1).drop_last() =~= self.records().take(i as int));
                assert(self.records().take(i + 1).last() == self.records@[i as int]@);
            }
            let ghost before = r@;
            if self.records[i].body.applicability.applies_to(sig) {
                r.push(self.records[i].body.clone());
                assert(views::of_seq(r@) =~= views::of_seq(before).push(
                    self.records@[i as int]@.body,
                ));
            }
            i += 1;
        }
        assert(self.records().take(i as int) =~= self.records());
        r
    }

    fn embeddings(&self) -> (r: Vec<Embedding>) {
        let mut r: Vec<Embedding> = Vec::new();
        let mut i: usize = 0;
        while i < self.records.len()
            invariant
                i <= self.records@.len(),
                r@.len() == i,
                forall|j: int| 0 <= j < i ==> (#[trigger] r@[j])@ == self.records()[j].embedding,
            decreases self.records@.len() - i,
        {
            r.push(self.records[i].embedding.clone());
            i += 1;
        }
        assert(views::of_seq(r@) =~= self.records().map_values(
            |x: MemoryRecordView| x.embedding,
        ));
        r
    }

    fn ann_recall(&self, distances: &Vec<u32>, limit: usize) -> (r: Vec<Memory>) {
        let mut entries: Vec<(u32, Memory)> = Vec::new();
        let mut i: usize = 0;
        while i < self.records.len() && i < distances.len()
            invariant
                i <= self.records@.len(),
                i <= distances@.len(),
                entries@.len() == i,
                forall|j: int|
                    0 <= j < i ==> (#[trigger] entries@[j]).0 == total_order(distances@[j])
                        && entries@[j].1@ == self.records()[j].body,
            decreases self.records@.len() - i,
        {
            entries.push((total_order_key(distances[i]), self.records[i].body.clone()));
            i += 1;
        }
        assert(ranking::viewed(entries@) =~= scored(self.records(), distances@));
        ranking::take_first(entries, limit)
    }

    fn has_memory_for(&self, key: &(GoalNodeId, SubtreeHash)) -> (r: Option<MemoryId>) {
        let ghost holds = learned_from(key.0@, key.1@);
        let mut i: usize = 0;
        while i < self.records.len()
            invariant
                i <= self.records@.len(),
                holds == learned_from(key.0@, key.1@),
                forall|j: int| 0 <= j < i ==> !holds(#[trigger] self.records()[j]),
            decreases self.records@.len() - i,
        {
            if self.records[i].node_id.0 == key.0.0 && self.records[i].subtree_hash.0.0
                == key.1.0.0 {
                proof {
                    lemma_first_id(self.records(), holds, i as int);
                }
                return Some(self.records[i].id.clone());
            }
            i += 1;
        }
        proof {
            lemma_first_id(self.records(), holds, i as int);
        }
        None
    }

    fn find_duplicate(&self, intent: &IntentSignature, plan: &Plan) -> (r: Option<MemoryId>) {
        let ghost holds = plans(intent@, plan@);
        let mut i: usize = 0;
        while i < self.records.len()
            invariant
                i <= self.records@.len(),
                holds == plans(intent@, plan@),
                forall|j: int| 0 <= j < i ==> !holds(#[trigger] self.records()[j]),
            decreases self.records@.len() - i,
        {
            if self.records[i].body.intent.same(intent) && self.records[i].body.plan.same(plan) {
                proof {
                    lemma_first_id(self.records(), holds, i as int);
                }
                return Some(self.records[i].id.clone());
            }
            i += 1;
        }
        proof {
            lemma_first_id(self.records(), holds, i as int);
        }
        None
    }
}

} // verus!
