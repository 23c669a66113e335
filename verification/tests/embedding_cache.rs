//! The cache of vectors.

use halter_goals::tier2::{Embedding, EmbeddingCache, EmbeddingCacheKey};

fn key(model: &str, input: &str) -> EmbeddingCacheKey {
    EmbeddingCacheKey {
        model: model.to_owned(),
        input: input.to_owned(),
    }
}

fn emb(values: &[f32]) -> Embedding {
    Embedding(values.iter().map(|v| v.to_bits()).collect())
}

#[test]
fn get_returns_stored_value_and_reports_presence_on_put() {
    let mut cache = EmbeddingCache::new(4);
    let k = key("text-embedding-3-small", "a");
    assert!(cache.get(&k).is_none(), "empty cache misses");

    let present = cache.put(k.clone(), emb(&[0.1, 0.2]));
    assert!(present, "non-zero-capacity put retains the entry");
    assert_eq!(cache.get(&k), Some(emb(&[0.1, 0.2])));
}

#[test]
fn key_equality_is_by_model_and_input() {
    let mut cache = EmbeddingCache::new(4);
    cache.put(key("model-a", "input"), emb(&[1.0]));

    assert_eq!(cache.get(&key("model-a", "input")), Some(emb(&[1.0])));
    assert!(
        cache.get(&key("model-b", "input")).is_none(),
        "different model is a different key",
    );
    assert!(
        cache.get(&key("model-a", "other")).is_none(),
        "different input is a different key",
    );
}

#[test]
fn zero_capacity_retains_nothing_and_reports_absence() {
    let mut cache = EmbeddingCache::new(0);
    let k = key("m", "i");
    let present = cache.put(k.clone(), emb(&[0.5]));
    assert!(!present, "zero-capacity put reports absence");
    assert!(cache.get(&k).is_none(), "zero-capacity cache stores nothing");
}

#[test]
fn eviction_removes_least_recently_accessed_entry() {
    let mut cache = EmbeddingCache::new(2);
    cache.put(key("m", "a"), emb(&[1.0]));
    cache.put(key("m", "b"), emb(&[2.0]));

    assert_eq!(cache.get(&key("m", "a")), Some(emb(&[1.0])));

    cache.put(key("m", "c"), emb(&[3.0]));

    assert_eq!(cache.get(&key("m", "a")), Some(emb(&[1.0])), "a retained");
    assert_eq!(cache.get(&key("m", "c")), Some(emb(&[3.0])), "c inserted");
    assert!(
        cache.get(&key("m", "b")).is_none(),
        "least-recently-accessed b evicted",
    );
}

#[test]
fn putting_again_replaces_and_refreshes() {
    let mut cache = EmbeddingCache::new(2);
    cache.put(key("m", "a"), emb(&[1.0]));
    cache.put(key("m", "b"), emb(&[2.0]));
    assert!(cache.put(key("m", "a"), emb(&[9.0])));
    cache.put(key("m", "c"), emb(&[3.0]));
    assert_eq!(cache.get(&key("m", "a")), Some(emb(&[9.0])));
    assert!(cache.get(&key("m", "b")).is_none());
}

#[test]
fn a_miss_evicts_nothing() {
    let mut cache = EmbeddingCache::new(1);
    cache.put(key("m", "a"), emb(&[1.0]));
    assert!(cache.get(&key("m", "z")).is_none());
    assert_eq!(cache.get(&key("m", "a")), Some(emb(&[1.0])));
}
