//! Ranking by an integer key: the lowest first, equal keys in the order given.

use vstd::prelude::*;

use crate::views;

verus! {

/// The place of a key in a ranking: after every entry up to the first greater
/// key.
pub open spec fn place<V>(ranked: Seq<(u32, V)>, key: u32) -> int
    decreases ranked.len(),
{
    if ranked.len() == 0 || ranked[0].0 > key {
        0
    } else {
        1 + place(ranked.drop_first(), key)
    }
}

/// The entries by ascending key, equal keys in the order given.
pub open spec fn ranked<V>(entries: Seq<(u32, V)>) -> Seq<(u32, V)>
    decreases entries.len(),
{
    if entries.len() == 0 {
        Seq::empty()
    } else {
        let rest = ranked(entries.drop_last());
        rest.insert(place(rest, entries.last().0), entries.last())
    }
}

/// What the entries hold, without their keys.
pub open spec fn values<V>(entries: Seq<(u32, V)>) -> Seq<V> {
    entries.map_values(|e: (u32, V)| e.1)
}

/// The entries whose key is `key`, in order.
pub open spec fn with_key<V>(entries: Seq<(u32, V)>, key: u32) -> Seq<(u32, V)> {
    entries.filter(|e: (u32, V)| e.0 == key)
}

/// Whether the keys ascend.
pub open spec fn ascends<V>(entries: Seq<(u32, V)>) -> bool {
    forall|i: int, j: int|
        0 <= i < j < entries.len() ==> (#[trigger] entries[i]).0 <= (#[trigger] entries[j]).0
}

/// Everything before the place of a key is at most the key, the next entry is
/// greater.
pub proof fn lemma_place<V>(entries: Seq<(u32, V)>, key: u32)
    ensures
        0 <= place(entries, key) <= entries.len(),
        forall|i: int| 0 <= i < place(entries, key) ==> (#[trigger] entries[i]).0 <= key,
        place(entries, key) < entries.len() ==> entries[place(entries, key)].0 > key,
    decreases entries.len(),
{
    if entries.len() > 0 && entries[0].0 <= key {
        let rest = entries.drop_first();
        lemma_place(rest, key);
        let p = place(rest, key);
        assert forall|i: int| 0 <= i < 1 + p implies (#[trigger] entries[i]).0 <= key by {
            if i > 0 {
                assert(entries[i] == rest[i - 1]);
            }
        }
        if p < rest.len() {
            assert(entries[1 + p] == rest[p]);
        }
    }
}

/// A place with nothing greater before it and nothing up to the key behind it is
/// the place of the key.
pub proof fn lemma_place_unique<V>(entries: Seq<(u32, V)>, key: u32, at: int)
    requires
        0 <= at <= entries.len(),
        forall|i: int| 0 <= i < at ==> (#[trigger] entries[i]).0 <= key,
        at < entries.len() ==> entries[at].0 > key,
    ensures
        place(entries, key) == at,
{
    lemma_place(entries, key);
    let p = place(entries, key);
    if p < at {
        assert(entries[p].0 <= key);
    } else if at < p {
        assert(entries[at].0 <= key);
    }
}

/// A ranking has the same entries, in ascending order of their keys.
pub proof fn law_ranking_is_an_ordered_rearrangement<V>(entries: Seq<(u32, V)>)
    ensures
        ranked(entries).len() == entries.len(),
        ranked(entries).to_multiset() == entries.to_multiset(),
        ascends(ranked(entries)),
    decreases entries.len(),
{
    if entries.len() > 0 {
        let init = entries.drop_last();
        let last = entries.last();
        law_ranking_is_an_ordered_rearrangement(init);
        let rest = ranked(init);
        let at = place(rest, last.0);
        lemma_place(rest, last.0);
        let all = rest.insert(at, last);
        vstd::seq_lib::to_multiset_insert(rest, at, last);
        vstd::seq_lib::to_multiset_build(init, last);
        assert(init.push(last) =~= entries);
        assert forall|i: int, j: int| 0 <= i < j < all.len() implies (#[trigger] all[i]).0 <= (
        #[trigger] all[j]).0 by {
            let p = if i < at {
                i
            } else {
                i - 1
            };
            let q = if j < at {
                j
            } else {
                j - 1
            };
            if i != at && j != at {
                assert(all[i] == rest[p]);
                assert(all[j] == rest[q]);
            } else if j == at {
                assert(all[i] == rest[i]);
            } else {
                assert(all[j] == rest[q]);
                if q > at {
                    assert(rest[at].0 <= rest[q].0);
                }
            }
        }
    } else {
        assert(ranked(entries) =~= entries);
    }
}

proof fn lemma_filter_insert<V>(entries: Seq<(u32, V)>, at: int, entry: (u32, V), key: u32)
    requires
        0 <= at <= entries.len(),
        forall|i: int| at <= i < entries.len() ==> (#[trigger] entries[i]).0 > entry.0,
    ensures
        with_key(entries.insert(at, entry), key) == if entry.0 == key {
            with_key(entries, key).push(entry)
        } else {
            with_key(entries, key)
        },
    decreases entries.len() - at,
{
    reveal(Seq::filter);
    let same = |e: (u32, V)| e.0 == key;
    if at == entries.len() {
        assert(entries.insert(at, entry) =~= entries.push(entry));
        assert(entries.push(entry).drop_last() =~= entries);
    } else {
        let init = entries.drop_last();
        let last = entries.last();
        assert(entries[entries.len() - 1].0 > entry.0);
        assert forall|i: int| at <= i < init.len() implies (#[trigger] init[i]).0 > entry.0 by {
            assert(init[i] == entries[i]);
        }
        lemma_filter_insert(init, at, entry, key);
        assert(entries.insert(at, entry).drop_last() =~= init.insert(at, entry));
        assert(entries.insert(at, entry).last() == last);
        if entry.0 == key {
            assert(last.0 != key);
        }
    }
}

/// A ranking keeps the order of entries with equal keys.
pub proof fn law_ranking_is_stable<V>(entries: Seq<(u32, V)>, key: u32)
    ensures
        with_key(ranked(entries), key) == with_key(entries, key),
    decreases entries.len(),
{
    reveal(Seq::filter);
    if entries.len() > 0 {
        let init = entries.drop_last();
        let last = entries.last();
        law_ranking_is_stable(init, key);
        law_ranking_is_an_ordered_rearrangement(init);
        let rest = ranked(init);
        let at = place(rest, last.0);
        lemma_place(rest, last.0);
        assert forall|i: int| at <= i < rest.len() implies (#[trigger] rest[i]).0 > last.0 by {
            if i > at {
                assert(rest[at].0 <= rest[i].0);
            }
        }
        lemma_filter_insert(rest, at, last, key);
    }
}

/// Ranks the entries.
pub fn rank<V>(entries: Vec<(u32, V)>) -> (r: Vec<(u32, V)>)
    ensures
        r@ == ranked(entries@),
{
    let ghost all = entries@;
    let mut left = entries;
    let mut r: Vec<(u32, V)> = Vec::new();
    let ghost mut done: int = 0;
    while left.len() > 0
        invariant
            0 <= done <= all.len(),
            left@ == all.skip(done),
            r@ == ranked(all.take(done)),
        decreases left@.len(),
    {
        let entry = left.remove(0);
        let mut at: usize = 0;
        while at < r.len() && r[at].0 <= entry.0
            invariant
                at <= r@.len(),
                forall|i: int| 0 <= i < at ==> (#[trigger] r@[i]).0 <= entry.0,
            decreases r@.len() - at,
        {
            at += 1;
        }
        proof {
            assert(entry == all[done]);
            lemma_place_unique(r@, entry.0, at as int);
            assert(all.take(done + 1).drop_last() =~= all.take(done));
            assert(all.take(done + 1).last() == entry);
            assert(all.skip(done).remove(0) =~= all.skip(done + 1));
            done = done + 1;
        }
        r.insert(at, entry);
    }
    assert(all.take(done) =~= all);
    r
}

/// The values of a ranking's first `limit` entries.
pub open spec fn first_values<V>(entries: Seq<(u32, V)>, limit: nat) -> Seq<V> {
    values(
        ranked(entries).take(
            if limit < entries.len() {
                limit as int
            } else {
                entries.len() as int
            },
        ),
    )
}

/// The entries with their values viewed.
pub open spec fn viewed<V: View>(entries: Seq<(u32, V)>) -> Seq<(u32, V::V)> {
    entries.map_values(|e: (u32, V)| (e.0, e.1@))
}

proof fn lemma_ranked_viewed<V: View>(entries: Seq<(u32, V)>)
    ensures
        ranked(viewed(entries)) == viewed(ranked(entries)),
    decreases entries.len(),
{
    if entries.len() > 0 {
        let init = entries.drop_last();
        let key = entries.last().0;
        lemma_ranked_viewed(init);
        assert(viewed(entries).drop_last() =~= viewed(init));
        let rest = ranked(init);
        lemma_place(rest, key);
        let at = place(rest, key);
        assert forall|i: int| 0 <= i < at implies (#[trigger] viewed(rest)[i]).0 <= key by {
            assert(rest[i].0 <= key);
        }
        lemma_place_unique(viewed(rest), key, at);
        assert(viewed(rest.insert(at, entries.last())) =~= viewed(rest).insert(
            at,
            viewed(entries).last(),
        ));
    } else {
        assert(ranked(viewed(entries)) =~= viewed(ranked(entries)));
    }
}

/// Ranks the entries and keeps the values of the first `limit`.
pub fn take_first<V: View>(entries: Vec<(u32, V)>, limit: usize) -> (r: Vec<V>)
    ensures
        views::of_seq(r@) == first_values(viewed(entries@), limit as nat),
{
    let ghost all = entries@;
    proof {
        lemma_ranked_viewed(all);
    }
    proof {
        law_ranking_is_an_ordered_rearrangement(all);
    }
    let mut left = rank(entries);
    let mut r: Vec<V> = Vec::new();
    while left.len() > 0 && r.len() < limit
        invariant
            r@.len() <= ranked(all).len(),
            r@.len() <= limit,
            left@ == ranked(all).skip(r@.len() as int),
            r@ == values(ranked(all).take(r@.len() as int)),
        decreases left@.len(),
    {
        let ghost done = r@.len() as int;
        let entry = left.remove(0);
        r.push(entry.1);
        proof {
            assert(entry == ranked(all)[done]);
            assert(ranked(all).skip(done).remove(0) =~= ranked(all).skip(done + 1));
            assert(r@ =~= values(ranked(all).take(done + 1)));
        }
    }
    assert(views::of_seq(r@) =~= first_values(viewed(all), limit as nat));
    r
}

} // verus!
