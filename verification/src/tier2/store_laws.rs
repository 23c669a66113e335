//! What holds of every memory store.

use vstd::prelude::*;

use crate::keyed;
use crate::tier2::memory::{MemoryRecordView, MemoryView};
use crate::tier2::ranking;
use crate::tier2::store;
use crate::tier2::store::{InMemoryMemoryStore, MemoryStore};
use crate::types::IntentView;

verus! {

/// A memory in the table has a record.
pub proof fn lemma_in_table(records: Seq<MemoryRecordView>, id: Seq<char>) -> (i: int)
    requires
        store::sound(records),
        store::table(records).dom().contains(id),
    ensures
        0 <= i < records.len(),
        records[i].id == id,
        store::table(records)[id] == records[i],
{
    let i = store::ids(records).index_of(id);
    assert(store::ids(records)[i] == id);
    i
}

/// A record is in the table under its identifier.
pub proof fn lemma_record_in_table(records: Seq<MemoryRecordView>, i: int)
    requires
        store::sound(records),
        0 <= i < records.len(),
    ensures
        store::table(records).dom().contains(records[i].id),
        store::table(records)[records[i].id] == records[i],
{
    assert(store::ids(records)[i] == records[i].id);
    keyed::lemma_at(store::ids(records), records, i);
}

proof fn lemma_first_id_found(
    records: Seq<MemoryRecordView>,
    holds: spec_fn(MemoryRecordView) -> bool,
    i: int,
)
    requires
        0 <= i < records.len(),
        holds(records[i]),
    ensures
        store::first_id(records, holds) is Some,
    decreases records.len(),
{
    if !holds(records[0]) {
        assert(records.drop_first()[i - 1] == records[i]);
        lemma_first_id_found(records.drop_first(), holds, i - 1);
    }
}

/// What a lookup by property finds is a record that has the property.
pub proof fn lemma_first_id_holds(
    records: Seq<MemoryRecordView>,
    holds: spec_fn(MemoryRecordView) -> bool,
) -> (i: int)
    requires
        store::first_id(records, holds) is Some,
    ensures
        0 <= i < records.len(),
        holds(records[i]),
        store::first_id(records, holds) == Some(records[i].id),
    decreases records.len(),
{
    if holds(records[0]) {
        0
    } else {
        let j = lemma_first_id_holds(records.drop_first(), holds);
        assert(records.drop_first()[j] == records[j + 1]);
        j + 1
    }
}

/// A memory that applies is among those that a filter returns.
pub proof fn lemma_applicable_has(records: Seq<MemoryRecordView>, sig: IntentView, i: int)
    requires
        0 <= i < records.len(),
        records[i].body.applicability.applies_to(sig),
    ensures
        store::applicable(records, sig).contains(records[i].body),
    decreases records.len(),
{
    let init = records.drop_last();
    let rest = store::applicable(init, sig);
    if i == records.len() - 1 {
        assert(store::applicable(records, sig).last() == records[i].body);
    } else {
        assert(init[i] == records[i]);
        lemma_applicable_has(init, sig, i);
        let j = choose|j: int| 0 <= j < rest.len() && rest[j] == records[i].body;
        assert(store::applicable(records, sig)[j] == records[i].body);
    }
}

/// A filter returns memories of the store, each once.
pub proof fn lemma_applicable_distinct(records: Seq<MemoryRecordView>, sig: IntentView)
    requires
        store::sound(records),
    ensures
        store::applicable(records, sig).map_values(|m: MemoryView| m.id).no_duplicates(),
        forall|i: int|
            0 <= i < store::applicable(records, sig).len() ==> store::ids(records).contains(
                (#[trigger] store::applicable(records, sig)[i]).id,
            ),
    decreases records.len(),
{
    let id = |m: MemoryView| m.id;
    let found = store::applicable(records, sig);
    if records.len() > 0 {
        let init = records.drop_last();
        let last = records.last();
        let known = store::ids(records);
        assert(store::ids(init) =~= known.drop_last());
        assert(store::mirrors(records[records.len() - 1]));
        assert forall|i: int| 0 <= i < init.len() implies store::mirrors(
            #[trigger] init[i],
        ) by {
            assert(init[i] == records[i]);
        }
        assert forall|i: int| 0 <= i < init.len() implies store::fault(
            (#[trigger] init[i]).body,
        ) is None by {
            assert(init[i] == records[i]);
        }
        lemma_applicable_distinct(init, sig);
        let rest = store::applicable(init, sig);
        assert forall|i: int| 0 <= i < found.len() implies known.contains(
            (#[trigger] found[i]).id,
        ) by {
            if i < rest.len() {
                assert(found[i] == rest[i]);
                let j = store::ids(init).index_of(rest[i].id);
                assert(known[j] == rest[i].id);
            } else {
                assert(known[records.len() - 1] == last.id);
            }
        }
        if last.body.applicability.applies_to(sig) {
            assert forall|i: int, j: int|
                0 <= i < found.len() && 0 <= j < found.len() && i != j implies #[trigger] found[i].id
                != #[trigger] found[j].id by {
                let a = if i < j {
                    i
                } else {
                    j
                };
                let b = if i < j {
                    j
                } else {
                    i
                };
                assert(found[a] == rest[a]);
                if b < rest.len() {
                    assert(found[b] == rest[b]);
                    assert(rest.map_values(id)[a] != rest.map_values(id)[b]);
                } else {
                    assert(store::ids(init).contains(rest[a].id));
                    let k = store::ids(init).index_of(rest[a].id);
                    assert(known[k] == rest[a].id);
                    assert(known[k] != known[records.len() - 1]);
                }
            }
        } else {
            assert(found == rest);
        }
        assert forall|i: int, j: int|
            0 <= i < found.len() && 0 <= j < found.len() && i != j implies found.map_values(id)[i]
            != found.map_values(id)[j] by {
            if !last.body.applicability.applies_to(sig) {
                assert(rest.map_values(id)[i] != rest.map_values(id)[j]);
            } else {
                assert(found[i].id != found[j].id);
            }
        }
    }
}

/// A filter returns nothing that does not apply.
pub proof fn law_filter_returns_only_applicable(
    records: Seq<MemoryRecordView>,
    sig: IntentView,
    i: int,
)
    requires
        0 <= i < store::applicable(records, sig).len(),
    ensures
        store::applicable(records, sig)[i].applicability.applies_to(sig),
    decreases records.len(),
{
    let rest = store::applicable(records.drop_last(), sig);
    if i < rest.len() {
        law_filter_returns_only_applicable(records.drop_last(), sig, i);
        assert(store::applicable(records, sig)[i] == rest[i]);
    }
}

/// A memory that was written is found: by the subtree it was learned from, by
/// its intent and plan, and by every signature that it applies to.
pub proof fn law_written_memory_is_found(
    before: Seq<MemoryRecordView>,
    after: Seq<MemoryRecordView>,
    mem: MemoryView,
    node_id: Seq<char>,
    subtree_hash: Seq<char>,
    embedding: Seq<u32>,
    sig: IntentView,
)
    requires
        store::sound(after),
        store::table(after) == store::table(before).insert(
            mem.id,
            store::record_of(mem, node_id, subtree_hash, embedding, 0, 0),
        ),
    ensures
        store::first_id(after, store::learned_from(node_id, subtree_hash)) is Some,
        store::first_id(after, store::plans(mem.intent, mem.plan)) is Some,
        mem.applicability.applies_to(sig) ==> store::applicable(after, sig).contains(mem),
{
    let i = lemma_in_table(after, mem.id);
    assert(after[i].body == mem);
    lemma_first_id_found(after, store::learned_from(node_id, subtree_hash), i);
    lemma_first_id_found(after, store::plans(mem.intent, mem.plan), i);
    if mem.applicability.applies_to(sig) {
        lemma_applicable_has(after, sig, i);
    }
}

/// A write leaves every other memory as it was.
pub proof fn law_write_leaves_other_memories(
    before: Seq<MemoryRecordView>,
    after: Seq<MemoryRecordView>,
    id: Seq<char>,
    record: MemoryRecordView,
    other: Seq<char>,
)
    requires
        store::table(after) == store::table(before).insert(id, record),
        other != id,
    ensures
        store::table(after).dom().contains(other) == store::table(before).dom().contains(other),
        store::table(before).dom().contains(other) ==> store::table(after)[other] == store::table(
            before,
        )[other],
{
}

/// Merging keeps what is there in order, and adds what is new once.
pub proof fn law_origins_are_merged(
    origins: Seq<(Seq<char>, Seq<char>)>,
    more: Seq<(Seq<char>, Seq<char>)>,
)
    ensures
        origins.len() <= store::merged(origins, more).len(),
        store::merged(origins, more).take(origins.len() as int) == origins,
        forall|x: (Seq<char>, Seq<char>)| #[trigger]
            store::merged(origins, more).contains(x) <==> origins.contains(x) || more.contains(x),
        origins.no_duplicates() ==> store::merged(origins, more).no_duplicates(),
    decreases more.len(),
{
    let all = store::merged(origins, more);
    if more.len() == 0 {
        assert(origins.take(origins.len() as int) =~= origins);
    } else {
        let init = more.drop_last();
        let last = more.last();
        law_origins_are_merged(origins, init);
        let rest = store::merged(origins, init);
        assert(more =~= init.push(last));
        assert forall|x: (Seq<char>, Seq<char>)| #[trigger] all.contains(x) <==> origins.contains(
            x,
        ) || more.contains(x) by {
            lemma_contains_push(init, last, x);
            lemma_contains_push(rest, last, x);
        }
        assert(all.take(origins.len() as int) =~= rest.take(origins.len() as int));
        if origins.no_duplicates() && !rest.contains(last) {
            assert forall|i: int, j: int|
                0 <= i < all.len() && 0 <= j < all.len() && i != j implies all[i] != all[j] by {
                if i < rest.len() {
                    assert(rest.contains(rest[i]));
                }
                if j < rest.len() {
                    assert(rest.contains(rest[j]));
                }
            }
        }
    }
}

proof fn lemma_contains_push<A>(s: Seq<A>, x: A, y: A)
    ensures
        s.push(x).contains(y) <==> s.contains(y) || x == y,
{
    assert(s.push(x)[s.len() as int] == x);
    if s.contains(y) {
        let i = s.index_of(y);
        assert(s.push(x)[i] == y);
    }
    if s.push(x).contains(y) {
        let i = s.push(x).index_of(y);
        if i < s.len() {
            assert(s[i] == y);
        }
    }
}

/// Reinforcing a known memory counts, advances its time, adds the candidate's
/// origins to its own and changes nothing else; it keeps no second memory.
pub proof fn law_reinforcing_counts_and_merges_origins(
    before: Seq<MemoryRecordView>,
    after: Seq<MemoryRecordView>,
    id: Seq<char>,
    candidate: MemoryView,
)
    requires
        store::table(before).dom().contains(id),
        store::reinforced(before, id, candidate, after),
    ensures
        store::table(after).dom() == store::table(before).dom(),
        ({
            let old_record = store::table(before)[id];
            let new_record = store::table(after)[id];
            &&& new_record.body.plan == old_record.body.plan
            &&& new_record.body.intent == old_record.body.intent
            &&& new_record.body.kind == old_record.body.kind
            &&& new_record.body.cached_outcome == old_record.body.cached_outcome
            &&& new_record.body.evidence_contract == old_record.body.evidence_contract
            &&& new_record.body.provenance.origins == store::merged(
                old_record.body.provenance.origins,
                candidate.provenance.origins,
            )
            &&& new_record.body.parameter_schema == old_record.body.parameter_schema
            &&& new_record.body.applicability == old_record.body.applicability
            &&& new_record.body.outcome_shape == old_record.body.outcome_shape
            &&& new_record.body.version == old_record.body.version
            &&& new_record.embedding == old_record.embedding
            &&& new_record.node_id == old_record.node_id
            &&& new_record.subtree_hash == old_record.subtree_hash
            &&& new_record.created_at == old_record.created_at
            &&& new_record.body.reinforcement.contradicts
                == old_record.body.reinforcement.contradicts
            &&& old_record.body.reinforcement.hits < u64::MAX
                ==> new_record.body.reinforcement.hits == old_record.body.reinforcement.hits + 1
            &&& old_record.body.reinforcement.confirms < u64::MAX
                ==> new_record.body.reinforcement.confirms
                == old_record.body.reinforcement.confirms + 1
            &&& new_record.updated_at >= old_record.updated_at
            &&& new_record.body.reinforcement.last_updated.0 == new_record.updated_at
        }),
{
    assert(store::table(after).dom() =~= store::table(before).dom());
}

/// A recall returns at most `limit` memories, and all of them, in some order,
/// when the limit allows.
pub proof fn law_recall_respects_limit(
    records: Seq<MemoryRecordView>,
    distances: Seq<u32>,
    limit: nat,
)
    requires
        distances.len() == records.len(),
    ensures
        store::nearest(records, distances, limit).len() == if limit < records.len() {
            limit
        } else {
            records.len()
        },
        limit >= records.len() ==> store::nearest(records, distances, limit).to_multiset()
            == records.map_values(|r: MemoryRecordView| r.body).to_multiset(),
{
    let entries = store::scored(records, distances);
    ranking::law_ranking_is_an_ordered_rearrangement(entries);
    if limit >= records.len() {
        let all = ranking::ranked(entries);
        assert(all.take(entries.len() as int) =~= all);
        lemma_values_multiset(all, entries);
        assert(ranking::values(entries) =~= records.map_values(|r: MemoryRecordView| r.body));
    }
}

proof fn lemma_values_multiset(a: Seq<(u32, MemoryView)>, b: Seq<(u32, MemoryView)>)
    requires
        a.to_multiset() == b.to_multiset(),
    ensures
        ranking::values(a).to_multiset() == ranking::values(b).to_multiset(),
    decreases a.len(),
{
    a.to_multiset_ensures();
    b.to_multiset_ensures();
    let va = ranking::values(a);
    let vb = ranking::values(b);
    assert(a.len() == b.len());
    if a.len() == 0 {
        assert(a =~= b);
    } else {
        let i = a.len() - 1;
        assert(a.contains(a[i]));
        assert(b.to_multiset().count(a[i]) > 0);
        let j = choose|j: int| 0 <= j < b.len() && b[j] == a[i];
        assert(a.remove(i).to_multiset() =~= a.to_multiset().remove(a[i]));
        assert(b.remove(j).to_multiset() =~= b.to_multiset().remove(a[i]));
        lemma_values_multiset(a.remove(i), b.remove(j));
        va.to_multiset_ensures();
        vb.to_multiset_ensures();
        assert(va.remove(i) =~= ranking::values(a.remove(i)));
        assert(vb.remove(j) =~= ranking::values(b.remove(j)));
        assert(va[i] == vb[j]);
        assert(va.contains(va[i]));
        assert(vb.contains(vb[j]));
        assert(va.to_multiset() =~= va.remove(i).to_multiset().insert(va[i]));
        assert(vb.to_multiset() =~= vb.remove(j).to_multiset().insert(vb[j]));
    }
}

/// The distances of a recall rise: of two memories recalled, the nearer comes
/// first, and nothing that was left out is nearer than what was recalled.
pub proof fn law_recall_is_nearest_first(
    records: Seq<MemoryRecordView>,
    distances: Seq<u32>,
    i: int,
    j: int,
)
    requires
        distances.len() == records.len(),
        0 <= i < j < records.len(),
    ensures
        ({
            let order = ranking::ranked(store::scored(records, distances));
            order[i].0 <= order[j].0
        }),
{
    ranking::law_ranking_is_an_ordered_rearrangement(store::scored(records, distances));
}

/// Every memory in a store is valid.
pub proof fn law_kept_memories_are_valid(records: Seq<MemoryRecordView>, id: Seq<char>)
    requires
        store::sound(records),
        store::table(records).dom().contains(id),
    ensures
        store::fault(store::table(records)[id].body) is None,
        store::table(records)[id].body.id == id,
{
    let i = lemma_in_table(records, id);
    assert(store::mirrors(records[i]));
}

/// A lookup by subtree finds a memory that the store holds under that subtree,
/// and finds nothing only where there is none.
pub proof fn law_lookup_by_subtree(
    records: Seq<MemoryRecordView>,
    node_id: Seq<char>,
    subtree_hash: Seq<char>,
)
    requires
        store::sound(records),
    ensures
        store::first_id(records, store::learned_from(node_id, subtree_hash)) matches Some(id)
            ==> store::table(records).dom().contains(id) && store::table(records)[id].node_id
            == node_id && store::table(records)[id].subtree_hash == subtree_hash,
        store::first_id(records, store::learned_from(node_id, subtree_hash)) is None
            ==> forall|i: int|
            0 <= i < records.len() ==> (#[trigger] records[i]).node_id != node_id
                || records[i].subtree_hash != subtree_hash,
{
    let holds = store::learned_from(node_id, subtree_hash);
    if store::first_id(records, holds) is Some {
        let i = lemma_first_id_holds(records, holds);
        lemma_record_in_table(records, i);
    } else {
        assert forall|i: int| 0 <= i < records.len() implies (#[trigger] records[i]).node_id
            != node_id || records[i].subtree_hash != subtree_hash by {
            if holds(records[i]) {
                lemma_first_id_found(records, holds, i);
            }
        }
    }
}

/// A store in memory always answers.
pub proof fn law_store_in_memory_always_answers(memories: InMemoryMemoryStore)
    ensures
        memories.available(),
{
}

} // verus!
