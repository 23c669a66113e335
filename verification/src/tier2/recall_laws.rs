//! Which memories are found for a goal, in terms of their own fields.

use vstd::prelude::*;

use crate::tier2::memory::{
    ApplicabilityView, CachedOutcomeView, MemoryKind, MemoryRecordView, MemoryView, PlanView,
};
use crate::tier2::ranking;
use crate::tier2::retrieval;
use crate::tier2::retrieval::{MemoryRetrieval, Retrieval, ScoredView};
use crate::tier2::store;
use crate::tier2::store::{MemoryStore, MemoryStoreError};
use crate::tier2::store_laws;
use crate::types::{IntentView, TokenView};

verus! {

/// Whether every field that is asked for is the signature's own.
pub open spec fn meets(asked: ApplicabilityView, sig: IntentView) -> bool {
    &&& asked.required_intent_type is None || asked.required_intent_type == Some(sig.intent_type)
    &&& asked.required_target_type is None || asked.required_target_type == Some(sig.target_type)
    &&& asked.required_target_ref is None || asked.required_target_ref == Some(sig.target_ref)
    &&& asked.required_scope is None || asked.required_scope == Some(sig.scope)
}

/// A memory applies to a signature exactly when each of the four fields that it asks
/// for is the signature's: one that differs is enough for it not to apply, and where
/// none differs it does.
pub proof fn law_each_required_field_must_match(asked: ApplicabilityView, sig: IntentView)
    ensures
        asked.required_intent_type matches Some(v) && v != sig.intent_type ==> !asked.applies_to(
            sig,
        ),
        asked.required_target_type matches Some(v) && v != sig.target_type ==> !asked.applies_to(
            sig,
        ),
        asked.required_target_ref matches Some(v) && v != sig.target_ref ==> !asked.applies_to(sig),
        asked.required_scope matches Some(v) && v != sig.scope ==> !asked.applies_to(sig),
        asked.applies_to(sig) <==> meets(asked, sig),
{
}

/// How many of the four fields of a memory's intent are the signature's own.
pub open spec fn fields_in_common(mem: MemoryView, sig: IntentView) -> nat {
    (if mem.intent.intent_type == sig.intent_type {
        1nat
    } else {
        0nat
    }) + (if mem.intent.target_type == sig.target_type {
        1nat
    } else {
        0nat
    }) + (if mem.intent.target_ref == sig.target_ref {
        1nat
    } else {
        0nat
    }) + (if mem.intent.scope == sig.scope {
        1nat
    } else {
        0nat
    })
}

/// The score of a memory is the number of fields in common.
pub proof fn law_score_counts_common_fields(mem: MemoryView, sig: IntentView)
    ensures
        retrieval::score(mem, sig) == fields_in_common(mem, sig),
{
}

/// Whether a record's memory meets the signature.
pub open spec fn meeting(sig: IntentView) -> spec_fn(MemoryRecordView) -> bool {
    |r: MemoryRecordView| meets(r.body.applicability, sig)
}

/// The memories of records.
pub open spec fn bodies(records: Seq<MemoryRecordView>) -> Seq<MemoryView> {
    records.map_values(|r: MemoryRecordView| r.body)
}

/// A filter gives the memories that meet the signature, all of them and no others,
/// in the order of the records.
pub proof fn law_filter_is_exact(records: Seq<MemoryRecordView>, sig: IntentView)
    ensures
        store::applicable(records, sig) == bodies(records.filter(meeting(sig))),
    decreases records.len(),
{
    reveal(Seq::filter);
    if records.len() > 0 {
        law_filter_is_exact(records.drop_last(), sig);
        let rest = records.drop_last().filter(meeting(sig));
        assert(bodies(rest.push(records.last())) =~= bodies(rest).push(records.last().body));
    } else {
        assert(bodies(records.filter(meeting(sig))) =~= Seq::<MemoryView>::empty());
    }
}

/// Whether a record's memory meets the signature in so many fields.
pub open spec fn meeting_in(sig: IntentView, n: nat) -> spec_fn(MemoryRecordView) -> bool {
    |r: MemoryRecordView| meets(r.body.applicability, sig) && fields_in_common(r.body, sig) == n
}

/// Whether a memory meets the signature in so many fields.
spec fn fit(sig: IntentView, n: nat) -> spec_fn(MemoryView) -> bool {
    |m: MemoryView| meets(m.applicability, sig) && fields_in_common(m, sig) == n
}

/// Whether something was found with this score.
pub open spec fn with_score(n: nat) -> spec_fn(ScoredView) -> bool {
    |f: ScoredView| f.score == n
}

/// The memories that were found.
pub open spec fn memories_of(found: Seq<ScoredView>) -> Seq<MemoryView> {
    found.map_values(|f: ScoredView| f.memory)
}

proof fn lemma_entries_with_key(memories: Seq<MemoryView>, sig: IntentView, n: nat)
    requires
        n <= 4,
    ensures
        memories_of(
            ranking::values(
                ranking::with_key(retrieval::entries(memories, sig), (4 - n) as u32),
            ),
        ) == memories.filter(fit(sig, n)),
    decreases memories.len(),
{
    reveal(Seq::filter);
    let key = (4 - n) as u32;
    let all = retrieval::entries(memories, sig);
    if memories.len() > 0 {
        let init = memories.drop_last();
        let last = memories.last();
        lemma_entries_with_key(init, sig, n);
        let rest = retrieval::entries(init, sig);
        law_each_required_field_must_match(last.applicability, sig);
        law_score_counts_common_fields(last, sig);
        let kept = ranking::with_key(rest, key);
        if meets(last.applicability, sig) {
            assert(all.drop_last() =~= rest);
            let entry = all.last();
            if fields_in_common(last, sig) == n {
                assert(ranking::with_key(all, key) =~= kept.push(entry));
                assert(memories_of(ranking::values(kept.push(entry))) =~= memories_of(
                    ranking::values(kept),
                ).push(last));
            } else {
                assert(ranking::with_key(all, key) =~= kept);
            }
        } else {
            assert(all == rest);
        }
    } else {
        assert(memories_of(ranking::values(ranking::with_key(all, key))) =~= memories.filter(
            fit(sig, n),
        ));
    }
}

proof fn lemma_values_with_score(entries: Seq<(u32, ScoredView)>, n: nat)
    requires
        n <= 4,
        forall|i: int|
            0 <= i < entries.len() ==> (#[trigger] entries[i]).0 == 4 - entries[i].1.score,
    ensures
        ranking::values(entries).filter(with_score(n)) == ranking::values(
            ranking::with_key(entries, (4 - n) as u32),
        ),
    decreases entries.len(),
{
    reveal(Seq::filter);
    let key = (4 - n) as u32;
    if entries.len() > 0 {
        let init = entries.drop_last();
        assert forall|i: int| 0 <= i < init.len() implies (#[trigger] init[i]).0 == 4
            - init[i].1.score by {
            assert(init[i] == entries[i]);
        }
        lemma_values_with_score(init, n);
        assert(ranking::values(entries).drop_last() =~= ranking::values(init));
        assert(entries[entries.len() - 1] == entries.last());
        let kept = ranking::with_key(init, key);
        assert(ranking::values(kept.push(entries.last())) =~= ranking::values(kept).push(
            entries.last().1,
        ));
    } else {
        assert(ranking::values(entries).filter(with_score(n)) =~= ranking::values(
            ranking::with_key(entries, key),
        ));
    }
}

proof fn lemma_head_with_score(records: Seq<MemoryRecordView>, sig: IntentView, n: nat)
    ensures
        store::applicable(records, sig).filter(fit(sig, n)) == bodies(
            records.filter(meeting_in(sig, n)),
        ),
    decreases records.len(),
{
    reveal(Seq::filter);
    if records.len() > 0 {
        let init = records.drop_last();
        let last = records.last();
        lemma_head_with_score(init, sig, n);
        law_each_required_field_must_match(last.body.applicability, sig);
        let head = store::applicable(init, sig);
        let kept = init.filter(meeting_in(sig, n));
        assert(bodies(kept.push(last)) =~= bodies(kept).push(last.body));
        if meets(last.body.applicability, sig) {
            assert(store::applicable(records, sig).drop_last() =~= head);
        }
    } else {
        assert(store::applicable(records, sig).filter(fit(sig, n)) =~= bodies(
            records.filter(meeting_in(sig, n)),
        ));
    }
}

proof fn lemma_recalled_is_stored(
    records: Seq<MemoryRecordView>,
    distances: Seq<u32>,
    limit: nat,
    i: int,
)
    requires
        0 <= i < store::nearest(records, distances, limit).len(),
    ensures
        exists|k: int|
            0 <= k < records.len() && (#[trigger] records[k]).body == store::nearest(
                records,
                distances,
                limit,
            )[i],
{
    let entries = store::scored(records, distances);
    let order = ranking::ranked(entries);
    ranking::law_ranking_is_an_ordered_rearrangement(entries);
    order.to_multiset_ensures();
    entries.to_multiset_ensures();
    assert(order.contains(order[i]));
    assert(entries.to_multiset().count(order[i]) > 0);
    assert(entries.contains(order[i]));
    let k = choose|k: int| 0 <= k < entries.len() && entries[k] == order[i];
    assert(records[k].body == order[i].1);
}

proof fn lemma_distinct_member(memories: Seq<MemoryView>, i: int)
    requires
        0 <= i < retrieval::distinct(memories).len(),
    ensures
        memories.contains(retrieval::distinct(memories)[i]),
    decreases memories.len(),
{
    let rest = retrieval::distinct(memories.drop_last());
    if i < rest.len() {
        lemma_distinct_member(memories.drop_last(), i);
        let j = choose|j: int|
            0 <= j < memories.drop_last().len() && memories.drop_last()[j] == rest[i];
        assert(memories[j] == rest[i]);
    } else {
        assert(memories[memories.len() - 1] == memories.last());
    }
}

proof fn lemma_considered(
    records: Seq<MemoryRecordView>,
    sig: IntentView,
    distances: Option<Seq<u32>>,
    head_min: nat,
    tail_limit: nat,
    n: nat,
)
    requires
        store::sound(records),
    ensures
        ({
            let head = store::applicable(records, sig);
            let tail = match distances {
                Some(d) => Some(store::nearest(records, d, tail_limit)),
                None => None,
            };
            retrieval::candidates(head, tail, head_min).filter(fit(sig, n)) == head.filter(
                fit(sig, n),
            )
        }),
{
    let head = store::applicable(records, sig);
    let tail = match distances {
        Some(d) => Some(store::nearest(records, d, tail_limit)),
        None => None,
    };
    let all = retrieval::candidates(head, tail, head_min);
    if retrieval::thin(head, head_min) && tail is Some {
        store_laws::lemma_applicable_distinct(records, sig);
        assert(retrieval::memory_ids(head) =~= head.map_values(|m: MemoryView| m.id));
        retrieval::law_union_is_distinct(head, tail->0);
        let rest = all.skip(head.len() as int);
        assert(all =~= head + rest);
        assert forall|i: int| 0 <= i < rest.len() implies !fit(sig, n)(#[trigger] rest[i]) by {
            let at = head.len() + i;
            assert(all[at] == rest[i]);
            lemma_distinct_member(head + tail->0, at);
            if meets(rest[i].applicability, sig) {
                law_each_required_field_must_match(rest[i].applicability, sig);
                let j = choose|j: int|
                    0 <= j < (head + tail->0).len() && (head + tail->0)[j] == rest[i];
                if j < head.len() {
                    assert(head[j] == rest[i]);
                } else {
                    assert(tail->0[j - head.len()] == rest[i]);
                    lemma_recalled_is_stored(records, distances->0, tail_limit, j - head.len());
                    let k = choose|k: int|
                        0 <= k < records.len() && (#[trigger] records[k]).body == rest[i];
                    store_laws::lemma_applicable_has(records, sig, k);
                }
                assert(head.contains(rest[i]));
                let h = choose|h: int| 0 <= h < head.len() && head[h] == rest[i];
                assert(all.take(head.len() as int)[h] == head[h]);
                assert(retrieval::memory_ids(all)[h] == retrieval::memory_ids(all)[at]);
            }
        }
        Seq::filter_distributes_over_add(head, rest, fit(sig, n));
        lemma_none_fit(rest, sig, n);
        assert(head.filter(fit(sig, n)) + Seq::<MemoryView>::empty() =~= head.filter(fit(sig, n)));
    }
}

proof fn lemma_none_fit(memories: Seq<MemoryView>, sig: IntentView, n: nat)
    requires
        forall|i: int| 0 <= i < memories.len() ==> !fit(sig, n)(#[trigger] memories[i]),
    ensures
        memories.filter(fit(sig, n)) == Seq::<MemoryView>::empty(),
    decreases memories.len(),
{
    reveal(Seq::filter);
    if memories.len() > 0 {
        let init = memories.drop_last();
        assert forall|i: int| 0 <= i < init.len() implies !fit(sig, n)(#[trigger] init[i]) by {
            assert(init[i] == memories[i]);
        }
        lemma_none_fit(init, sig, n);
        assert(!fit(sig, n)(memories[memories.len() - 1]));
    }
}

/// What is found for a signature is exactly what meets it, with or without a vector:
/// for every number of fields in common, the memories found with that score are
/// those of the records that meet the signature in so many fields, in the order of
/// the records. There is no other score, and more comes before less.
pub proof fn law_retrieval_finds_exactly_what_meets(
    records: Seq<MemoryRecordView>,
    sig: IntentView,
    distances: Option<Seq<u32>>,
    head_min: nat,
    tail_limit: nat,
    n: nat,
    i: int,
    j: int,
)
    requires
        store::sound(records),
        n <= 4,
    ensures
        ({
            let found = retrieval::retrieved(records, sig, distances, head_min, tail_limit);
            &&& memories_of(found.filter(with_score(n))) == bodies(
                records.filter(meeting_in(sig, n)),
            )
            &&& 0 <= i < found.len() ==> found[i].score == fields_in_common(found[i].memory, sig)
                && found[i].score <= 4
            &&& 0 <= i <= j < found.len() ==> found[i].score >= found[j].score
        }),
{
    let head = store::applicable(records, sig);
    let tail = match distances {
        Some(d) => Some(store::nearest(records, d, tail_limit)),
        None => None,
    };
    let considered = retrieval::candidates(head, tail, head_min);
    let entries = retrieval::entries(considered, sig);
    let order = ranking::ranked(entries);
    let found = retrieval::retrieved(records, sig, distances, head_min, tail_limit);
    let key = (4 - n) as u32;
    retrieval::lemma_entries(considered, sig);
    assert forall|k: int| 0 <= k < order.len() implies (#[trigger] order[k]).0 == 4
        - order[k].1.score by {
        retrieval::lemma_ranked_member(entries, k);
    }
    lemma_values_with_score(order, n);
    ranking::law_ranking_is_stable(entries, key);
    lemma_entries_with_key(considered, sig, n);
    lemma_considered(records, sig, distances, head_min, tail_limit, n);
    lemma_head_with_score(records, sig, n);
    if 0 <= i < found.len() {
        retrieval::law_found_memories_apply_and_are_ordered(considered, sig, i, i);
        law_score_counts_common_fields(found[i].memory, sig);
    }
    if 0 <= i <= j < found.len() {
        retrieval::law_found_memories_apply_and_are_ordered(considered, sig, i, j);
    }
}

/// A memory is found exactly when a record holds it and it meets the signature.
pub proof fn law_found_means_stored_and_meeting(
    records: Seq<MemoryRecordView>,
    sig: IntentView,
    distances: Option<Seq<u32>>,
    head_min: nat,
    tail_limit: nat,
    mem: MemoryView,
)
    requires
        store::sound(records),
    ensures
        memories_of(
            retrieval::retrieved(records, sig, distances, head_min, tail_limit),
        ).contains(mem) <==> bodies(records).contains(mem) && meets(mem.applicability, sig),
{
    let found = retrieval::retrieved(records, sig, distances, head_min, tail_limit);
    law_each_required_field_must_match(mem.applicability, sig);
    if bodies(records).contains(mem) && meets(mem.applicability, sig) {
        let i = choose|i: int| 0 <= i < bodies(records).len() && bodies(records)[i] == mem;
        assert(records[i].body == mem);
        let k = retrieval::law_applicable_memories_are_found(
            records,
            sig,
            distances,
            head_min,
            tail_limit,
            i,
        );
        assert(memories_of(found)[k] == mem);
    }
    if memories_of(found).contains(mem) {
        let i = choose|i: int| 0 <= i < memories_of(found).len() && memories_of(found)[i] == mem;
        let n = found[i].score as nat;
        law_retrieval_finds_exactly_what_meets(
            records,
            sig,
            distances,
            head_min,
            tail_limit,
            if n <= 4 {
                n
            } else {
                0
            },
            i,
            i,
        );
        let same = found.filter(with_score(n));
        found.lemma_filter_contains(with_score(n), i);
        assert(same.contains(found[i]));
        let a = choose|a: int| 0 <= a < same.len() && same[a] == found[i];
        assert(memories_of(same)[a] == mem);
        let kept = records.filter(meeting_in(sig, n));
        assert(memories_of(same).len() == same.len());
        assert(bodies(kept).len() == kept.len());
        assert(memories_of(same) == bodies(kept));
        assert(0 <= a < kept.len());
        assert(bodies(kept)[a] == mem);
        records.lemma_filter_pred(meeting_in(sig, n), a);
        assert(meeting_in(sig, n)(kept[a]));
        assert(kept.contains(kept[a]));
        records.lemma_filter_contains_rev(meeting_in(sig, n), kept[a]);
        assert(records.contains(kept[a]));
        let r = choose|r: int| 0 <= r < records.len() && records[r] == kept[a];
        assert(bodies(records)[r] == mem);
    }
}

/// A lookup by intent and plan gives the first memory that has both, and nothing
/// where none has.
pub proof fn law_lookup_by_plan_gives_the_first(
    records: Seq<MemoryRecordView>,
    intent: IntentView,
    plan: PlanView,
)
    ensures
        match store::first_id(records, store::plans(intent, plan)) {
            Some(id) => exists|i: int|
                {
                    &&& 0 <= i < records.len()
                    &&& (#[trigger] records[i]).id == id
                    &&& records[i].body.intent == intent
                    &&& records[i].body.plan == plan
                    &&& forall|j: int|
                        0 <= j < i ==> (#[trigger] records[j]).body.intent != intent
                            || records[j].body.plan != plan
                },
            None => forall|i: int|
                0 <= i < records.len() ==> (#[trigger] records[i]).body.intent != intent
                    || records[i].body.plan != plan,
        },
    decreases records.len(),
{
    if records.len() > 0 {
        let rest = records.drop_first();
        let holds = store::plans(intent, plan);
        if holds(records[0]) {
            assert(records[0].id == store::first_id(records, holds)->0);
        } else {
            law_lookup_by_plan_gives_the_first(rest, intent, plan);
            match store::first_id(rest, holds) {
                Some(id) => {
                    let i = choose|i: int|
                        {
                            &&& 0 <= i < rest.len()
                            &&& (#[trigger] rest[i]).id == id
                            &&& rest[i].body.intent == intent
                            &&& rest[i].body.plan == plan
                            &&& forall|j: int|
                                0 <= j < i ==> (#[trigger] rest[j]).body.intent != intent
                                    || rest[j].body.plan != plan
                        };
                    assert(records[i + 1] == rest[i]);
                    assert forall|j: int| 0 <= j < i + 1 implies (
                    #[trigger] records[j]).body.intent != intent || records[j].body.plan
                        != plan by {
                        if j > 0 {
                            assert(records[j] == rest[j - 1]);
                        }
                    }
                },
                None => {
                    assert forall|i: int| 0 <= i < records.len() implies (
                    #[trigger] records[i]).body.intent != intent || records[i].body.plan
                        != plan by {
                        if i > 0 {
                            assert(records[i] == rest[i - 1]);
                        }
                    }
                },
            }
        }
    }
}

/// A lookup by subtree gives the first memory learned from it, and nothing where
/// none was.
pub proof fn law_lookup_by_subtree_gives_the_first(
    records: Seq<MemoryRecordView>,
    node_id: Seq<char>,
    subtree_hash: Seq<char>,
)
    ensures
        match store::first_id(records, store::learned_from(node_id, subtree_hash)) {
            Some(id) => exists|i: int|
                {
                    &&& 0 <= i < records.len()
                    &&& (#[trigger] records[i]).id == id
                    &&& records[i].node_id == node_id
                    &&& records[i].subtree_hash == subtree_hash
                    &&& forall|j: int|
                        0 <= j < i ==> (#[trigger] records[j]).node_id != node_id
                            || records[j].subtree_hash != subtree_hash
                },
            None => forall|i: int|
                0 <= i < records.len() ==> (#[trigger] records[i]).node_id != node_id
                    || records[i].subtree_hash != subtree_hash,
        },
    decreases records.len(),
{
    if records.len() > 0 {
        let rest = records.drop_first();
        let holds = store::learned_from(node_id, subtree_hash);
        if holds(records[0]) {
            assert(records[0].id == store::first_id(records, holds)->0);
        } else {
            law_lookup_by_subtree_gives_the_first(rest, node_id, subtree_hash);
            match store::first_id(rest, holds) {
                Some(id) => {
                    let i = choose|i: int|
                        {
                            &&& 0 <= i < rest.len()
                            &&& (#[trigger] rest[i]).id == id
                            &&& rest[i].node_id == node_id
                            &&& rest[i].subtree_hash == subtree_hash
                            &&& forall|j: int|
                                0 <= j < i ==> (#[trigger] rest[j]).node_id != node_id
                                    || rest[j].subtree_hash != subtree_hash
                        };
                    assert(records[i + 1] == rest[i]);
                    assert forall|j: int| 0 <= j < i + 1 implies (#[trigger] records[j]).node_id
                        != node_id || records[j].subtree_hash != subtree_hash by {
                        if j > 0 {
                            assert(records[j] == rest[j - 1]);
                        }
                    }
                },
                None => {
                    assert forall|i: int| 0 <= i < records.len() implies (
                    #[trigger] records[i]).node_id != node_id || records[i].subtree_hash
                        != subtree_hash by {
                        if i > 0 {
                            assert(records[i] == rest[i - 1]);
                        }
                    }
                },
            }
        }
    }
}

/// A memory may be kept exactly when a dead end names evidence, and an answer has
/// tokens, which for a sound one all pin content. Of several faults the first in
/// this order is reported.
pub proof fn law_valid_memories_are_those_without_fault(mem: MemoryView)
    ensures
        ({
            let unproven = mem.kind == MemoryKind::Negative && mem.evidence_contract.items.len()
                == 0;
            let untied = mem.cached_outcome matches Some(co) && co.validity_tokens.len() == 0;
            let unsound = mem.cached_outcome matches Some(co) && sound_but_unpinned(co);
            &&& unproven ==> store::fault(mem) == Some(MemoryStoreError::MissingEvidenceContract)
            &&& !unproven && untied ==> store::fault(mem) == Some(
                MemoryStoreError::EmptyValidityTokens,
            )
            &&& !unproven && !untied && unsound ==> store::fault(mem) == Some(
                MemoryStoreError::UnsoundPinnableTokens,
            )
            &&& !unproven && !untied && !unsound ==> store::fault(mem) is None
        }),
{
    match mem.cached_outcome {
        Some(co) => {
            if store::all_pinned(co.validity_tokens) {
                assert(!sound_but_unpinned(co));
            } else {
                let i = choose|i: int|
                    0 <= i < co.validity_tokens.len() && !((
                    #[trigger] co.validity_tokens[i]) is ContentHash);
                assert(!(co.validity_tokens[i] matches TokenView::ContentHash(_)));
            }
        },
        None => {},
    }
}

/// Whether an answer is given as sound though a token of it pins no content.
pub open spec fn sound_but_unpinned(co: CachedOutcomeView) -> bool {
    co.mode is SoundPinnable && exists|i: int|
        0 <= i < co.validity_tokens.len() && !((#[trigger] co.validity_tokens[i]) is ContentHash)
}

/// A record shows its memory's own identifier, intent and kind, and where it was
/// learned.
pub proof fn law_record_shows_its_memory(
    mem: MemoryView,
    node_id: Seq<char>,
    subtree_hash: Seq<char>,
    embedding: Seq<u32>,
    created_at: u64,
    updated_at: u64,
)
    ensures
        ({
            let record = store::record_of(
                mem,
                node_id,
                subtree_hash,
                embedding,
                created_at,
                updated_at,
            );
            &&& record.body == mem
            &&& record.id == mem.id
            &&& record.intent_type == mem.intent.intent_type
            &&& record.target_type == mem.intent.target_type
            &&& record.target_ref == mem.intent.target_ref
            &&& record.scope == mem.intent.scope
            &&& record.kind == mem.kind
            &&& record.embedding == embedding
            &&& record.node_id == node_id
            &&& record.subtree_hash == subtree_hash
            &&& record.created_at == created_at
            &&& record.updated_at == updated_at
        }),
{
}

/// Reinforcing a memory that the store does not know keeps it under the identifier
/// that was asked for, otherwise as it is, under its first origin and its version.
pub proof fn law_unknown_memory_is_kept_under_the_id(
    before: Seq<MemoryRecordView>,
    after: Seq<MemoryRecordView>,
    id: Seq<char>,
    candidate: MemoryView,
    other: Seq<char>,
)
    requires
        !store::table(before).dom().contains(id),
        store::reinforced(before, id, candidate, after),
        other != id,
    ensures
        ({
            let kept = store::table(after)[id];
            &&& store::table(after).dom() == store::table(before).dom().insert(id)
            &&& store::table(before).dom().contains(other) ==> store::table(after)[other]
                == store::table(before)[other]
            &&& kept.id == id
            &&& kept.body == (MemoryView { id, ..candidate })
            &&& kept.subtree_hash == candidate.version
            &&& kept.embedding.len() == 0
            &&& kept.created_at == 0
            &&& kept.updated_at == 0
            &&& candidate.provenance.origins.len() > 0 ==> kept.node_id
                == candidate.provenance.origins[0].0
        }),
{
    assert(store::table(after).dom() =~= store::table(before).dom().insert(id));
}

/// Bits of distances are ordered as the numbers are: those without a sign by size,
/// those with one the other way round, and every one with a sign before every one
/// without.
pub proof fn law_distances_are_ordered_as_numbers(a: u32, b: u32)
    ensures
        a < 0x8000_0000 && b < 0x8000_0000 ==> (store::total_order(a) < store::total_order(b) <==> a
            < b),
        a >= 0x8000_0000 && b >= 0x8000_0000 ==> (store::total_order(a) < store::total_order(b)
            <==> a > b),
        a >= 0x8000_0000 && b < 0x8000_0000 ==> store::total_order(a) < store::total_order(b),
        store::total_order(a) == store::total_order(b) <==> a == b,
{
}

/// A search gives memories that meet the signature, each with the number of fields
/// in common as its score, the best first. Where the store answers, these are
/// exactly the stored memories that meet the signature.
pub proof fn law_search_gives_what_meets<'a, S: MemoryStore>(
    search: MemoryRetrieval<'a, S>,
    sig: IntentView,
    found: Seq<ScoredView>,
    mem: MemoryView,
)
    requires
        search.may_retrieve(sig, found),
    ensures
        forall|i: int|
            0 <= i < found.len() ==> meets((#[trigger] found[i]).memory.applicability, sig)
                && found[i].score == fields_in_common(found[i].memory, sig),
        forall|i: int, j: int|
            0 <= i <= j < found.len() ==> (#[trigger] found[i]).score >= (
            #[trigger] found[j]).score,
        search.store().available() && store::sound(search.store().records()) ==> (memories_of(
            found,
        ).contains(mem) <==> bodies(search.store().records()).contains(mem) && meets(
            mem.applicability,
            sig,
        )),
{
    assert forall|i: int| 0 <= i < found.len() implies meets(
        (#[trigger] found[i]).memory.applicability,
        sig,
    ) && found[i].score == fields_in_common(found[i].memory, sig) by {
        law_each_required_field_must_match(found[i].memory.applicability, sig);
    }
    if search.store().available() && store::sound(search.store().records()) {
        law_found_means_stored_and_meeting(
            search.store().records(),
            sig,
            search.distances(),
            search.head_min(),
            search.tail_limit(),
            mem,
        );
    }
}

} // verus!
