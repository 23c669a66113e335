//! What the content of a value shows of it.

use vstd::prelude::*;

use crate::goal_model::closure;
use crate::goal_model::closure::ClosureSignal;
use crate::goal_model::intent::IntentInput;
use crate::goal_model::model;
use crate::goal_model::model::{GoalEvent, GoalEventView, GoalNode, GoalNodeRevision};
use crate::goal_model::store::ClosureOutcome;
use crate::tier1::cache::{CacheEntry, CacheLookup, CacheLookupView};
use crate::tier1::tokens;
use crate::tier1::tokens::{Observation, SourceUnreachable};
use crate::tier2::embedding::request;
use crate::tier2::embedding::request::{Attempt, AttemptView, EmbeddingRequest};
use crate::tier2::embedding::writer;
use crate::tier2::embedding::writer::{EmbeddingWriteError, WriteEmbedding, WriteView};
use crate::tier2::induction;
use crate::tier2::induction::{
    AuthorError, DeclineRecord, DistilledNode, FailureRecord, InductionOutcome, JudgeVerdict,
    OutcomeView,
};
use crate::tier2::memory::{
    Applicability, CachedOutcome, Embedding, EvidenceContract, EvidenceContractItem, Memory,
    MemoryRecord, MemoryVersion, MemoryView, OutcomeShape, OutcomeValue, ParameterDef,
    ParameterSchema, Plan, PlanStep, Provenance,
};
use crate::tier2::replay::ReplayDecision;
use crate::tier2::retrieval;
use crate::tier2::retrieval::ScoredMemory;
use crate::tier2::summary::GoalSummary;
use crate::types::{
    CanonicalJson, ContentRef, EventKey, EventSeq, EvidenceValue, GoalNodeId, GoalToolCall,
    GoalToolName, IntentSignature, IntentType, MemoryId, OutcomeRef, Scope, SessionId, Sha256,
    SourceDescriptor, SubtreeHash, TargetRef, TargetType, TokenView, ValidityToken,
};
use crate::views;

verus! {

/// The content of a list is the content of each element, in order.
pub proof fn law_list_content<T: View>(s: Seq<T>)
    ensures
        views::of_seq(s).len() == s.len(),
        forall|i: int| 0 <= i < s.len() ==> #[trigger] views::of_seq(s)[i] == s[i]@,
{
}

/// The content of what may be absent is absent exactly where it is.
pub proof fn law_optional_content<T: View>(o: Option<T>)
    ensures
        o is None ==> views::of_option(o) is None,
        o is Some ==> views::of_option(o) == Some((o->0)@),
{
}

/// The content of a list that may be absent, and of a list of pairs.
pub proof fn law_nested_content<T: View>(o: Option<Vec<T>>, pairs: Seq<(GoalNodeId, SubtreeHash)>)
    ensures
        o is None ==> model::option_seq_view(o) is None,
        o is Some ==> model::option_seq_view(o) is Some && model::option_seq_view(o)->0.len()
            == (o->0)@.len() && forall|i: int|
            0 <= i < (o->0)@.len() ==> #[trigger] model::option_seq_view(o)->0[i] == (o->0)@[i]@,
        closure::pair_views(pairs).len() == pairs.len(),
        forall|i: int|
            0 <= i < pairs.len() ==> #[trigger] closure::pair_views(pairs)[i] == (
                pairs[i].0@,
                pairs[i].1@,
            ),
{
}

/// The content of a name is its text.
pub proof fn law_name_content(
    node_id: GoalNodeId,
    memory_id: MemoryId,
    session: SessionId,
    intent_type: IntentType,
    target_type: TargetType,
    target_ref: TargetRef,
    scope: Scope,
    tool: GoalToolName,
)
    ensures
        node_id@ == node_id.0@,
        memory_id@ == memory_id.0@,
        session@ == session.0@,
        intent_type@ == intent_type.0@,
        target_type@ == target_type.0@,
        target_ref@ == target_ref.0@,
        scope@ == scope.0@,
        tool@ == tool.0@,
{
}

/// The content of a text that is handed on as it is, and of a vector.
pub proof fn law_text_content(
    args: CanonicalJson,
    digest: Sha256,
    hash: SubtreeHash,
    value: EvidenceValue,
    event: EventKey,
    content: ContentRef,
    outcome: OutcomeRef,
    answer: OutcomeValue,
    version: MemoryVersion,
    vector: Embedding,
)
    ensures
        args@ == args.0@,
        digest@ == digest.0@,
        hash@ == hash.0@,
        value@ == value.0@,
        event@ == event.0@,
        content@ == content.0@,
        outcome@ == outcome.0@,
        answer@ == answer.0@,
        version@ == version.0@,
        vector@ == vector.0@,
{
}

/// The content of a token and of a source is of the same kind, with every part.
pub proof fn law_token_content(token: ValidityToken, source: SourceDescriptor)
    ensures
        match token {
            ValidityToken::ContentHash(h) => token@ == TokenView::ContentHash(h@),
            ValidityToken::Ttl { issued_at, ttl } => token@ is Ttl && token@->issued_at
                == issued_at.0 && token@->ttl == ttl.0,
            ValidityToken::EventDriven { subscription, last_seen } => token@ is EventDriven
                && token@->subscription == subscription@ && token@->last_seen == last_seen.0,
        },
        match source {
            SourceDescriptor::Pinnable { content } => source@ is Pinnable && source@->content
                == content@,
            SourceDescriptor::Volatile { ttl } => source@ is Volatile && source@->ttl == ttl.0,
            SourceDescriptor::Signalled { subscription } => source@ is Signalled
                && source@->subscription == subscription@,
        },
{
}

/// The content of an event is of the same kind, with every part.
pub proof fn law_event_content(event: GoalEvent)
    ensures
        match event {
            GoalEvent::GoalNodeCreated { id, parent, hypothesis, intent } => event@
                == (GoalEventView::Created {
                id: id@,
                parent: views::of_option(parent),
                hypothesis: hypothesis@,
                intent: intent@,
            }),
            GoalEvent::GoalNodeRevised { id, revision } => event@ == (GoalEventView::Revised {
                id: id@,
                revision: revision@,
            }),
            GoalEvent::GoalNodeResolved { id, resolution } => event@ == (GoalEventView::Resolved {
                id: id@,
                resolution,
            }),
            GoalEvent::GoalClosed { id, subtree_hash } => event@ == (GoalEventView::Closed {
                id: id@,
                subtree_hash: subtree_hash@,
            }),
        },
{
}

/// The content of a goal, of a change to one, of a tool call and of a signal has
/// every field.
pub proof fn law_goal_content_shows_every_field(
    node: GoalNode,
    revision: GoalNodeRevision,
    call: GoalToolCall,
    sig: IntentSignature,
    input: IntentInput,
    signal: ClosureSignal,
)
    ensures
        node@.id == node.id@,
        node@.parent == views::of_option(node.parent),
        node@.children == views::of_seq(node.children@),
        node@.hypothesis == node.hypothesis@,
        node@.resolution_conditions == views::of_seq(node.resolution_conditions@),
        node@.resolution == node.resolution,
        node@.intent == node.intent@,
        node@.tool_calls == views::of_seq(node.tool_calls@),
        node@.subtree_hash == views::of_option(node.subtree_hash),
        revision@.resolution_conditions == model::option_seq_view(revision.resolution_conditions),
        revision@.tool_calls == model::option_seq_view(revision.tool_calls),
        revision@.children == model::option_seq_view(revision.children),
        call@.tool == call.tool@,
        call@.normalized_args == call.normalized_args@,
        call@.validity_token == call.validity_token@,
        call@.outcome == call.outcome@,
        sig@.intent_type == sig.intent_type@,
        sig@.target_type == sig.target_type@,
        sig@.target_ref == sig.target_ref@,
        sig@.scope == sig.scope@,
        input@.intent_type == views::of_option(input.intent_type),
        input@.target_type == views::of_option(input.target_type),
        input@.target_ref == views::of_option(input.target_ref),
        input@.scope == views::of_option(input.scope),
        signal@.session == signal.session@,
        signal@.node_id == signal.node_id@,
        signal@.subtree_hash == signal.subtree_hash@,
{
}

/// The content of a memory and of its record has every field.
pub proof fn law_memory_content_shows_every_field(
    mem: Memory,
    record: MemoryRecord,
    cached: CachedOutcome,
)
    ensures
        mem@.id == mem.id@,
        mem@.kind == mem.kind,
        mem@.intent == mem.intent@,
        mem@.parameter_schema == mem.parameter_schema@,
        mem@.applicability == mem.applicability@,
        mem@.plan == mem.plan@,
        mem@.evidence_contract == mem.evidence_contract@,
        mem@.outcome_shape == mem.outcome_shape@,
        mem@.cached_outcome == views::of_option(mem.cached_outcome),
        mem@.provenance == mem.provenance@,
        mem@.reinforcement == mem.reinforcement,
        mem@.version == mem.version@,
        record@.id == record.id@,
        record@.intent_type == record.intent_type@,
        record@.target_type == record.target_type@,
        record@.target_ref == record.target_ref@,
        record@.scope == record.scope@,
        record@.kind == record.kind,
        record@.embedding == record.embedding@,
        record@.body == record.body@,
        record@.node_id == record.node_id@,
        record@.subtree_hash == record.subtree_hash@,
        record@.created_at == record.created_at.0,
        record@.updated_at == record.updated_at.0,
        cached@.answer == cached.answer@,
        cached@.mode == cached.mode,
        cached@.validity_tokens == views::of_seq(cached.validity_tokens@),
        cached@.issued_at == cached.issued_at.0,
{
}

/// The content of each part of a memory has every field.
pub proof fn law_memory_parts_show_every_field(
    parameter: ParameterDef,
    schema: ParameterSchema,
    asked: Applicability,
    step: PlanStep,
    plan: Plan,
    item: EvidenceContractItem,
    contract: EvidenceContract,
    shape: OutcomeShape,
    provenance: Provenance,
)
    ensures
        parameter@.name == parameter.name@,
        parameter@.kind == parameter.kind@,
        schema@.parameters == views::of_seq(schema.parameters@),
        asked@.required_intent_type == views::of_option(asked.required_intent_type),
        asked@.required_target_type == views::of_option(asked.required_target_type),
        asked@.required_target_ref == views::of_option(asked.required_target_ref),
        asked@.required_scope == views::of_option(asked.required_scope),
        step@.description == step.description@,
        step@.tool == views::of_option(step.tool),
        step@.intent == views::of_option(step.intent),
        plan@.steps == views::of_seq(plan.steps@),
        item@.tool == item.tool@,
        item@.normalized_args == item.normalized_args@,
        item@.validity_token == item.validity_token@,
        contract@.items == views::of_seq(contract.items@),
        shape@.result_ref == shape.result_ref@,
        shape@.schema == shape.schema@,
        provenance@.origins == closure::pair_views(provenance.origins@),
{
}

/// The content of what judge and author see and say, of a note, and of what is found
/// and described, has every field.
pub proof fn law_learning_content_shows_every_field(
    node: DistilledNode,
    verdict: JudgeVerdict,
    decline: DeclineRecord,
    failure: FailureRecord,
    found: ScoredMemory,
    summary: GoalSummary,
)
    ensures
        node@.id == node.id@,
        node@.resolution == node.resolution,
        node@.intent == node.intent@,
        node@.subtree_hash == views::of_option(node.subtree_hash),
        node@.hypothesis == node.hypothesis@,
        node@.resolution_conditions == views::of_seq(node.resolution_conditions@),
        verdict@.decision == verdict.decision,
        verdict@.rationale == verdict.rationale@,
        verdict@.granularity == verdict.granularity,
        decline@.intent == decline.intent@,
        decline@.key == (decline.key.0@, decline.key.1@),
        decline@.reason == decline.rationale@,
        failure@.intent == failure.intent@,
        failure@.key == (failure.key.0@, failure.key.1@),
        failure@.reason == failure.reason@,
        found@.memory == found.memory@,
        found@.score == found.score,
        summary@.did == summary.did@,
        summary@.concluded == summary.concluded@,
        summary@.dead_end == summary.dead_end,
{
}

/// The content of a cache entry and of an embedding request has every field.
pub proof fn law_cache_content_shows_every_field(
    entry: CacheEntry,
    request: EmbeddingRequest,
)
    ensures
        entry@.tool == entry.tool@,
        entry@.normalized_args == entry.normalized_args@,
        entry@.validity_token == entry.validity_token@,
        entry@.evidence_value == entry.evidence_value@,
        entry@.source == entry.source@,
        entry@.stored_at == entry.stored_at.0,
        request@.model == request.model@,
        request@.input == request.input@,
        request@.dimensions == request.dimensions,
{
}

/// The content of a result is the content of what it gives, of the same outcome.
pub proof fn law_result_content(
    written: Result<Memory, AuthorError>,
    embedded: Result<WriteEmbedding, EmbeddingWriteError>,
    vector: Option<Vec<u32>>,
    tail: Option<Vec<Memory>>,
    read: Result<Vec<u8>, SourceUnreachable>,
    latest: Result<EventSeq, SourceUnreachable>,
)
    ensures
        match written {
            Ok(mem) => induction::written_view(written) == Ok::<MemoryView, Seq<char>>(mem@),
            Err(e) => induction::written_view(written) == Err::<MemoryView, Seq<char>>(e.0@),
        },
        match embedded {
            Ok(made) => writer::result_view(embedded) == Ok::<WriteView, EmbeddingWriteError>(
                made@,
            ),
            Err(e) => writer::result_view(embedded) == Err::<WriteView, EmbeddingWriteError>(e),
        },
        match vector {
            Some(v) => request::vector_view(vector) == Some(v@),
            None => request::vector_view(vector) is None,
        },
        match tail {
            Some(memories) => retrieval::recalled(tail) == Some(views::of_seq(memories@)),
            None => retrieval::recalled(tail) is None,
        },
        match read {
            Ok(bytes) => tokens::content_observation(read) == Observation::Content(Ok(bytes@)),
            Err(e) => tokens::content_observation(read) == Observation::Content(Err(e.reason@)),
        },
        match latest {
            Ok(seq) => tokens::latest_observation(latest) == Observation::Latest(Ok(seq.0)),
            Err(e) => tokens::latest_observation(latest) == Observation::Latest(Err(e.reason@)),
        },
{
}

/// The content of an outcome is of the same kind, with every part.
pub proof fn law_outcome_content(
    lookup: CacheLookup,
    outcome: InductionOutcome,
    attempt: Attempt,
    made: WriteEmbedding,
    decision: ReplayDecision,
    closed: ClosureOutcome,
)
    ensures
        match lookup {
            CacheLookup::Hit(v) => lookup@ == CacheLookupView::Hit(v@),
            CacheLookup::Stale => lookup@ == CacheLookupView::Stale,
            CacheLookup::Miss => lookup@ == CacheLookupView::Miss,
        },
        match outcome {
            InductionOutcome::Skipped(s) => outcome@ == OutcomeView::Skipped(s@),
            InductionOutcome::Rejected(s) => outcome@ == OutcomeView::Rejected(s@),
            InductionOutcome::Reinforced(id) => outcome@ == OutcomeView::Reinforced(id@),
            InductionOutcome::Inserted(id) => outcome@ == OutcomeView::Inserted(id@),
            InductionOutcome::AuthorFailed(s) => outcome@ == OutcomeView::AuthorFailed(s@),
        },
        match attempt {
            Attempt::Vector(v) => attempt@ == AttemptView::Vector(v@),
            Attempt::Failed { retryable } => attempt@ == (AttemptView::Failed { retryable }),
            Attempt::TimedOut => attempt@ == AttemptView::TimedOut,
        },
        match made {
            WriteEmbedding::Embedded(v) => made@ == WriteView::Embedded(v@),
            WriteEmbedding::Unavailable => made@ == WriteView::Unavailable,
        },
        match decision {
            ReplayDecision::ServeAnswer { answer, verified } => decision@ is ServeAnswer
                && decision@->answer == answer@ && decision@->verified == verified,
            ReplayDecision::ReplayProcedure { plan, evidence, evidence_fully_fresh } => {
                &&& decision@ is ReplayProcedure
                &&& decision@->plan == plan@
                &&& decision@->evidence_fully_fresh == evidence_fully_fresh
                &&& decision@->evidence.len() == evidence@.len()
                &&& forall|i: int|
                    0 <= i < evidence@.len() ==> #[trigger] decision@->evidence[i] == (
                        evidence@[i].0@,
                        evidence@[i].1,
                    )
            },
        },
        closed.subtree_hash is None ==> closed@ is None,
        closed.subtree_hash is Some ==> closed@ == Some((closed.subtree_hash->0)@),
{
}

} // verus!
