//! A map kept as a list of keys and a list of values.

use vstd::prelude::*;

verus! {

/// The map from each key to the value at the same place.
pub open spec fn map_of<K, V>(keys: Seq<K>, values: Seq<V>) -> Map<K, V> {
    Map::new(|k: K| keys.contains(k), |k: K| values[keys.index_of(k)])
}

/// The key at a place leads to the value there.
pub proof fn lemma_at<K, V>(keys: Seq<K>, values: Seq<V>, i: int)
    requires
        keys.no_duplicates(),
        0 <= i < keys.len(),
    ensures
        map_of(keys, values).dom().contains(keys[i]),
        map_of(keys, values)[keys[i]] == values[i],
{
    assert(keys.contains(keys[i]));
    let j = keys.index_of(keys[i]);
    assert(keys[j] == keys[i]);
}

/// A new key and its value at the end are put into the map.
pub proof fn lemma_push<K, V>(keys: Seq<K>, values: Seq<V>, k: K, v: V)
    requires
        keys.no_duplicates(),
        keys.len() == values.len(),
        !keys.contains(k),
    ensures
        keys.push(k).no_duplicates(),
        map_of(keys.push(k), values.push(v)) == map_of(keys, values).insert(k, v),
{
    let more = keys.push(k);
    assert forall|i: int, j: int| 0 <= i < more.len() && 0 <= j < more.len() && i != j implies more[i]
        != more[j] by {
        if i < keys.len() {
            assert(keys.contains(keys[i]));
        }
        if j < keys.len() {
            assert(keys.contains(keys[j]));
        }
    }
    let a = map_of(more, values.push(v));
    let b = map_of(keys, values).insert(k, v);
    assert forall|x: K| a.dom().contains(x) == b.dom().contains(x) by {
        assert(more[keys.len() as int] == k);
        if keys.contains(x) {
            let i = keys.index_of(x);
            assert(more[i] == x);
        }
        if more.contains(x) {
            let i = more.index_of(x);
            if i < keys.len() {
                assert(keys[i] == x);
            }
        }
    }
    assert forall|x: K| #[trigger] a.dom().contains(x) implies a[x] == b[x] by {
        let i = more.index_of(x);
        if x == k {
            assert(more[keys.len() as int] == k);
        } else {
            assert(keys[i] == x);
            lemma_at(keys, values, i);
        }
    }
    assert(a =~= b);
}

/// Another value at the place of a key is put into the map.
pub proof fn lemma_update<K, V>(keys: Seq<K>, values: Seq<V>, i: int, v: V)
    requires
        keys.no_duplicates(),
        keys.len() == values.len(),
        0 <= i < keys.len(),
    ensures
        map_of(keys, values.update(i, v)) == map_of(keys, values).insert(keys[i], v),
{
    let a = map_of(keys, values.update(i, v));
    let b = map_of(keys, values).insert(keys[i], v);
    assert(keys.contains(keys[i]));
    assert forall|x: K| #[trigger] a.dom().contains(x) implies a[x] == b[x] by {
        let j = keys.index_of(x);
        assert(keys[j] == x);
        if x == keys[i] {
            assert(i == j);
        }
    }
    assert(a =~= b);
}

} // verus!
