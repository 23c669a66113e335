//! In which order memories are recalled and origins are kept.

use vstd::prelude::*;

use crate::tier2::memory::{MemoryRecordView, MemoryView};
use crate::tier2::ranking;
use crate::tier2::retrieval;
use crate::tier2::store;
use crate::tier2::store_laws;

verus! {

/// The first places with their keys.
spec fn numbered(keys: Seq<u32>) -> Seq<(u32, int)> {
    Seq::new(keys.len(), |i: int| (keys[i], i))
}

/// Whether one place comes before another: by key, and among equal keys by place.
pub open spec fn comes_before(keys: Seq<u32>, a: int, b: int) -> bool {
    keys[a] < keys[b] || (keys[a] == keys[b] && a < b)
}

spec fn entry_before(x: (u32, int), y: (u32, int)) -> bool {
    x.0 < y.0 || (x.0 == y.0 && x.1 < y.1)
}

proof fn lemma_numbered_ranked(keys: Seq<u32>)
    ensures
        ({
            let order = ranking::ranked(numbered(keys));
            &&& order.len() == keys.len()
            &&& forall|i: int|
                0 <= i < order.len() ==> 0 <= (#[trigger] order[i]).1 < keys.len() && order[i].0
                    == keys[order[i].1]
            &&& forall|i: int, j: int|
                0 <= i < j < order.len() ==> entry_before(#[trigger] order[i], #[trigger] order[j])
        }),
    decreases keys.len(),
{
    let entries = numbered(keys);
    let order = ranking::ranked(entries);
    if keys.len() > 0 {
        let n = (keys.len() - 1) as int;
        let init = keys.drop_last();
        lemma_numbered_ranked(init);
        assert(entries.drop_last() =~= numbered(init));
        let rest = ranking::ranked(numbered(init));
        let last = entries.last();
        assert(last == (keys[n], n));
        ranking::lemma_place(rest, last.0);
        let at = ranking::place(rest, last.0);
        assert(order == rest.insert(at, last));
        assert forall|i: int| 0 <= i < order.len() implies 0 <= (#[trigger] order[i]).1
            < keys.len() && order[i].0 == keys[order[i].1] by {
            if i < at {
                assert(order[i] == rest[i]);
            } else if i > at {
                assert(order[i] == rest[i - 1]);
            }
        }
        assert forall|i: int, j: int| 0 <= i < j < order.len() implies entry_before(
            #[trigger] order[i],
            #[trigger] order[j],
        ) by {
            let a = if i < at {
                i
            } else {
                i - 1
            };
            let b = if j < at {
                j
            } else {
                j - 1
            };
            if i != at && j != at {
                assert(entry_before(rest[a], rest[b]));
            } else if j == at {
                assert(rest[i].0 <= last.0);
                assert(rest[i].1 < n);
            } else {
                assert(rest[at].0 > last.0);
                if b > at {
                    assert(entry_before(rest[at], rest[b]));
                }
            }
        }
    }
}

/// The same entries with places in place of values.
proof fn lemma_ranked_by_place<V>(entries: Seq<(u32, V)>, keys: Seq<u32>)
    requires
        keys == entries.map_values(|e: (u32, V)| e.0),
    ensures
        ({
            let order = ranking::ranked(numbered(keys));
            &&& ranking::ranked(entries).len() == order.len()
            &&& order.len() == entries.len()
            &&& forall|i: int|
                0 <= i < order.len() ==> #[trigger] ranking::ranked(entries)[i]
                    == entries[order[i].1]
        }),
    decreases entries.len(),
{
    lemma_numbered_ranked(keys);
    ranking::law_ranking_is_an_ordered_rearrangement(entries);
    let order = ranking::ranked(numbered(keys));
    if entries.len() > 0 {
        let init = entries.drop_last();
        let init_keys = keys.drop_last();
        assert(init_keys =~= init.map_values(|e: (u32, V)| e.0));
        lemma_ranked_by_place(init, init_keys);
        lemma_numbered_ranked(init_keys);
        assert(numbered(keys).drop_last() =~= numbered(init_keys));
        let rest = ranking::ranked(init);
        let places = ranking::ranked(numbered(init_keys));
        let key = entries.last().0;
        ranking::lemma_place(places, key);
        let at = ranking::place(places, key);
        assert forall|i: int| 0 <= i < at implies (#[trigger] rest[i]).0 <= key by {
            assert(places[i].0 <= key);
            assert(rest[i] == init[places[i].1]);
            assert(init_keys[places[i].1] == init[places[i].1].0);
        }
        if at < rest.len() {
            assert(places[at].0 > key);
            assert(rest[at] == init[places[at].1]);
            assert(init_keys[places[at].1] == init[places[at].1].0);
        }
        ranking::lemma_place_unique(rest, key, at);
        assert forall|i: int| 0 <= i < order.len() implies #[trigger] ranking::ranked(entries)[i]
            == entries[order[i].1] by {
            if i < at {
                assert(order[i] == places[i]);
                assert(ranking::ranked(entries)[i] == rest[i]);
            } else if i > at {
                assert(order[i] == places[i - 1]);
                assert(ranking::ranked(entries)[i] == rest[i - 1]);
            }
        }
    }
}

/// Whether these places are the first `count` of all in the order of their keys,
/// equal keys in the order of the places: each comes before the next, and before
/// every place that was left out.
pub open spec fn first_in_order(keys: Seq<u32>, picks: Seq<int>, count: int) -> bool {
    &&& picks.len() == count
    &&& forall|i: int| 0 <= i < picks.len() ==> 0 <= #[trigger] picks[i] < keys.len()
    &&& forall|i: int, j: int|
        0 <= i < j < picks.len() ==> comes_before(keys, #[trigger] picks[i], #[trigger] picks[j])
    &&& forall|i: int, k: int|
        0 <= i < picks.len() && 0 <= k < keys.len() && !picks.contains(k) ==> #[trigger] comes_before(
            keys,
            picks[i],
            k,
        )
}

/// A recall gives the nearest memories, at most as many as asked for, the nearest
/// first and equally near ones in the order of the records; every record left out
/// comes later in that order.
pub proof fn law_recall_gives_the_nearest(
    records: Seq<MemoryRecordView>,
    distances: Seq<u32>,
    limit: nat,
) -> (picks: Seq<int>)
    requires
        distances.len() == records.len(),
    ensures
        ({
            let keys = distances.map_values(|d: u32| store::total_order(d));
            let found = store::nearest(records, distances, limit);
            &&& found.len() == picks.len()
            &&& first_in_order(
                keys,
                picks,
                if limit < records.len() {
                    limit as int
                } else {
                    records.len() as int
                },
            )
            &&& forall|i: int|
                0 <= i < picks.len() ==> #[trigger] found[i] == records[picks[i]].body
        }),
{
    let keys = distances.map_values(|d: u32| store::total_order(d));
    let entries = store::scored(records, distances);
    assert(keys =~= entries.map_values(|e: (u32, MemoryView)| e.0));
    lemma_ranked_by_place(entries, keys);
    lemma_numbered_ranked(keys);
    let order = ranking::ranked(numbered(keys));
    let count = if limit < records.len() {
        limit as int
    } else {
        records.len() as int
    };
    let picks = Seq::new(count as nat, |i: int| order[i].1);
    let found = store::nearest(records, distances, limit);
    assert forall|i: int, j: int| 0 <= i < j < picks.len() implies comes_before(
        keys,
        #[trigger] picks[i],
        #[trigger] picks[j],
    ) by {
        assert(entry_before(order[i], order[j]));
    }
    assert forall|i: int, k: int|
        0 <= i < picks.len() && 0 <= k < keys.len() && !picks.contains(
            k,
        ) implies #[trigger] comes_before(keys, picks[i], k) by {
        let at = lemma_every_place_is_ranked(keys, k);
        if at < count {
            assert(picks[at] == k);
        }
        assert(entry_before(order[i], order[at]));
    }
    assert forall|i: int| 0 <= i < picks.len() implies #[trigger] found[i]
        == records[picks[i]].body by {
        assert(ranking::ranked(entries)[i] == entries[order[i].1]);
    }
    picks
}

proof fn lemma_every_place_is_ranked(keys: Seq<u32>, k: int) -> (at: int)
    requires
        0 <= k < keys.len(),
    ensures
        0 <= at < ranking::ranked(numbered(keys)).len(),
        ranking::ranked(numbered(keys))[at].1 == k,
{
    let entries = numbered(keys);
    let order = ranking::ranked(entries);
    ranking::law_ranking_is_an_ordered_rearrangement(entries);
    order.to_multiset_ensures();
    entries.to_multiset_ensures();
    assert(entries[k] == (keys[k], k));
    assert(entries.contains(entries[k]));
    assert(order.to_multiset().count(entries[k]) > 0);
    assert(order.contains(entries[k]));
    let at = choose|at: int| 0 <= at < order.len() && order[at] == entries[k];
    at
}

/// Whether the added origins are those at these places: each new one where it first
/// occurs, in order, and all of them.
pub open spec fn added_once(
    origins: Seq<(Seq<char>, Seq<char>)>,
    more: Seq<(Seq<char>, Seq<char>)>,
    places: Seq<int>,
) -> bool {
    &&& forall|k: int|
        #![trigger places[k]]
        0 <= k < places.len() ==> 0 <= places[k] < more.len() && !origins.contains(
            more[places[k]],
        ) && forall|m: int| 0 <= m < places[k] ==> #[trigger] more[m] != more[places[k]]
    &&& forall|i: int, j: int|
        0 <= i < j < places.len() ==> #[trigger] places[i] < #[trigger] places[j]
}

/// Merged origins are the old ones, then each new one once, in the order in which
/// they first occur.
pub proof fn law_new_origins_follow_in_order(
    origins: Seq<(Seq<char>, Seq<char>)>,
    more: Seq<(Seq<char>, Seq<char>)>,
) -> (places: Seq<int>)
    ensures
        added_once(origins, more, places),
        store::merged(origins, more) == origins + places.map_values(|p: int| more[p]),
        forall|x: (Seq<char>, Seq<char>)| #[trigger]
            store::merged(origins, more).contains(x) <==> origins.contains(x) || more.contains(x),
    decreases more.len(),
{
    store_laws::law_origins_are_merged(origins, more);
    if more.len() == 0 {
        let places = Seq::<int>::empty();
        assert(store::merged(origins, more) =~= origins + places.map_values(|p: int| more[p]));
        places
    } else {
        let init = more.drop_last();
        let last = more.last();
        let before = law_new_origins_follow_in_order(origins, init);
        store_laws::law_origins_are_merged(origins, init);
        let rest = store::merged(origins, init);
        assert(before.map_values(|p: int| init[p]) =~= before.map_values(|p: int| more[p])) by {
            assert forall|k: int| 0 <= k < before.len() implies init[#[trigger] before[k]]
                == more[before[k]] by {}
        }
        assert forall|k: int|
            #![trigger before[k]]
            0 <= k < before.len() implies 0 <= before[k] < more.len() && !origins.contains(
            more[before[k]],
        ) && forall|m: int| 0 <= m < before[k] ==> #[trigger] more[m] != more[before[k]] by {
            assert(more[before[k]] == init[before[k]]);
            assert forall|m: int| 0 <= m < before[k] implies #[trigger] more[m]
                != more[before[k]] by {
                assert(init[m] == more[m]);
            }
        }
        if rest.contains(last) {
            before
        } else {
            let n = more.len() - 1;
            let places = before.push(n);
            assert(!origins.contains(last) && !init.contains(last));
            assert forall|m: int| 0 <= m < n implies #[trigger] more[m] != more[n] by {
                assert(init[m] == more[m]);
                assert(init.contains(init[m]));
            }
            assert(places.map_values(|p: int| more[p]) =~= before.map_values(
                |p: int| more[p],
            ).push(last));
            assert(store::merged(origins, more) =~= origins + places.map_values(|p: int| more[p]));
            assert forall|k: int|
                #![trigger places[k]]
                0 <= k < places.len() implies 0 <= places[k] < more.len() && !origins.contains(
                more[places[k]],
            ) && forall|m: int| 0 <= m < places[k] ==> #[trigger] more[m] != more[places[k]] by {
                if k < before.len() {
                    assert(places[k] == before[k]);
                }
            }
            assert forall|i: int, j: int| 0 <= i < j < places.len() implies #[trigger] places[i]
                < #[trigger] places[j] by {
                assert(places[i] == before[i]);
                if j < before.len() {
                    assert(places[j] == before[j]);
                }
            }
            places
        }
    }
}

/// Reinforcing a memory that the store knows raises its two counts and its time by
/// one each, as far as they go, and leaves every other memory as it is.
pub proof fn law_reinforcing_counts_one_more(
    before: Seq<MemoryRecordView>,
    after: Seq<MemoryRecordView>,
    id: Seq<char>,
    candidate: MemoryView,
    other: Seq<char>,
)
    requires
        store::table(before).dom().contains(id),
        store::reinforced(before, id, candidate, after),
        other != id,
    ensures
        ({
            let was = store::table(before)[id];
            let now = store::table(after)[id];
            let (counts, grown) = (was.body.reinforcement, now.body.reinforcement);
            &&& grown.hits as int == if counts.hits == u64::MAX {
                u64::MAX as int
            } else {
                counts.hits + 1
            }
            &&& grown.confirms as int == if counts.confirms == u64::MAX {
                u64::MAX as int
            } else {
                counts.confirms + 1
            }
            &&& grown.contradicts == counts.contradicts
            &&& now.updated_at as int == if was.updated_at == u64::MAX {
                u64::MAX as int
            } else {
                was.updated_at + 1
            }
            &&& grown.last_updated.0 == now.updated_at
            &&& now.id == was.id
            &&& now.body.id == was.body.id
            &&& now.intent_type == was.intent_type
            &&& now.target_type == was.target_type
            &&& now.target_ref == was.target_ref
            &&& now.scope == was.scope
            &&& now.kind == was.kind
            &&& store::table(after).dom() == store::table(before).dom()
            &&& store::table(before).dom().contains(other) ==> store::table(after)[other]
                == store::table(before)[other]
        }),
{
    assert(store::table(after).dom() =~= store::table(before).dom());
}

/// The table of records has exactly their identifiers, and under each the first
/// record with it.
pub proof fn law_table_shows_the_records(records: Seq<MemoryRecordView>, id: Seq<char>)
    ensures
        store::table(records).dom().contains(id) <==> exists|i: int|
            0 <= i < records.len() && (#[trigger] records[i]).id == id,
        store::table(records).dom().contains(id) && store::sound(records) ==> exists|i: int|
            0 <= i < records.len() && (#[trigger] records[i]).id == id && store::table(
                records,
            )[id] == records[i],
{
    if store::table(records).dom().contains(id) {
        let i = store::ids(records).index_of(id);
        assert(store::ids(records)[i] == id);
        assert(records[i].id == id);
        assert(store::table(records)[id] == records[i]);
    }
    if exists|i: int| 0 <= i < records.len() && (#[trigger] records[i]).id == id {
        let i = choose|i: int| 0 <= i < records.len() && (#[trigger] records[i]).id == id;
        assert(store::ids(records)[i] == id);
    }
}

/// Whether the identifier of a memory is at one of these places.
pub open spec fn named_at(memories: Seq<MemoryView>, places: Seq<int>, m: int) -> bool {
    exists|k: int| 0 <= k < places.len() && memories[#[trigger] places[k]].id == memories[m].id
}

/// Whether no memory before this place has the same identifier.
pub open spec fn first_named(memories: Seq<MemoryView>, p: int) -> bool {
    0 <= p < memories.len() && forall|m: int|
        0 <= m < p ==> (#[trigger] memories[m]).id != memories[p].id
}

/// Whether these are the places at which an identifier first occurs, in order and
/// all of them.
pub open spec fn first_places(memories: Seq<MemoryView>, places: Seq<int>) -> bool {
    &&& forall|k: int| 0 <= k < places.len() ==> first_named(memories, #[trigger] places[k])
    &&& forall|i: int, j: int|
        0 <= i < j < places.len() ==> #[trigger] places[i] < #[trigger] places[j]
    &&& forall|m: int| 0 <= m < memories.len() ==> #[trigger] named_at(memories, places, m)
}

proof fn lemma_first_named_longer(init: Seq<MemoryView>, last: MemoryView, p: int)
    requires
        first_named(init, p),
    ensures
        first_named(init.push(last), p),
{
    let all = init.push(last);
    assert forall|m: int| 0 <= m < p implies (#[trigger] all[m]).id != all[p].id by {
        assert(all[m] == init[m] && all[p] == init[p]);
    }
}

proof fn lemma_named_longer(
    init: Seq<MemoryView>,
    last: MemoryView,
    before: Seq<int>,
    places: Seq<int>,
    m: int,
)
    requires
        0 <= m < init.len(),
        named_at(init, before, m),
        before.len() <= places.len(),
        forall|k: int| 0 <= k < before.len() ==> 0 <= #[trigger] before[k] < init.len(),
        forall|k: int| 0 <= k < before.len() ==> #[trigger] places[k] == before[k],
    ensures
        named_at(init.push(last), places, m),
{
    let k = choose|k: int|
        0 <= k < before.len() && init[#[trigger] before[k]].id == init[m].id;
    let all = init.push(last);
    assert(places[k] == before[k]);
    assert(all[places[k]] == init[before[k]] && all[m] == init[m]);
}

/// Of memories with the same identifier the first is kept, and no memory is lost
/// whose identifier is new.
pub proof fn law_first_memory_of_each_identifier_is_kept(memories: Seq<MemoryView>) -> (places: Seq<
    int,
>)
    ensures
        first_places(memories, places),
        retrieval::distinct(memories) == places.map_values(|p: int| memories[p]),
    decreases memories.len(),
{
    if memories.len() == 0 {
        let places = Seq::<int>::empty();
        assert(retrieval::distinct(memories) =~= places.map_values(|p: int| memories[p]));
        places
    } else {
        let init = memories.drop_last();
        let last = memories.last();
        let n = init.len() as int;
        assert(init.push(last) =~= memories);
        let before = law_first_memory_of_each_identifier_is_kept(init);
        let rest = retrieval::distinct(init);
        let ids = retrieval::memory_ids(rest);
        assert forall|k: int| 0 <= k < before.len() implies {
            &&& 0 <= #[trigger] before[k] < n
            &&& ids[k] == init[before[k]].id
            &&& rest[k] == init[before[k]]
        } by {
            assert(first_named(init, before[k]));
            assert(rest[k] == init[before[k]]);
        }
        let places = if ids.contains(last.id) {
            before
        } else {
            before.push(n)
        };
        assert forall|k: int| 0 <= k < before.len() implies #[trigger] places[k] == before[k] by {}
        assert forall|k: int| 0 <= k < places.len() implies first_named(
            memories,
            #[trigger] places[k],
        ) by {
            if k < before.len() {
                lemma_first_named_longer(init, last, before[k]);
            } else {
                assert forall|m: int| 0 <= m < n implies (#[trigger] memories[m]).id
                    != memories[n].id by {
                    assert(named_at(init, before, m));
                    let j = choose|j: int|
                        0 <= j < before.len() && init[#[trigger] before[j]].id == init[m].id;
                    assert(ids[j] == init[m].id);
                    assert(ids.contains(ids[j]));
                    assert(memories[m] == init[m]);
                }
            }
        }
        assert forall|m: int| 0 <= m < memories.len() implies #[trigger] named_at(
            memories,
            places,
            m,
        ) by {
            if m < n {
                assert(named_at(init, before, m));
                lemma_named_longer(init, last, before, places, m);
            } else if ids.contains(last.id) {
                let at = ids.index_of(last.id);
                assert(ids[at] == last.id);
                assert(init[before[at]].id == last.id);
                assert(memories[places[at]].id == memories[m].id);
            } else {
                assert(places[before.len() as int] == n);
            }
        }
        assert(retrieval::distinct(memories) =~= places.map_values(|p: int| memories[p]));
        places
    }
}

/// Memories recalled by vector are added only where the filter gave fewer than the
/// minimum and a vector is at hand; they are then added behind the others, each
/// identifier once.
pub proof fn law_vector_is_used_below_the_minimum(
    head: Seq<MemoryView>,
    tail: Option<Seq<MemoryView>>,
    head_min: nat,
)
    ensures
        retrieval::thin(head, head_min) <==> head.len() < head_min,
        head.len() >= head_min || tail is None ==> retrieval::candidates(head, tail, head_min)
            == head,
        head.len() < head_min && tail is Some ==> retrieval::candidates(head, tail, head_min)
            == retrieval::distinct(head + tail->0),
{
}

} // verus!
