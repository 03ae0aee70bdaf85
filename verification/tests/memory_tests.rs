//! Tests for the vector store and the memory facade.

use cortex::config::MemoryConfig;
use cortex::math::SCALE;
use cortex::memory::Memory;
use cortex::vector::{cosine_similarity, MemoryEntry, VectorStore};
use cortex::CortexError;

/// 1.0 in fixed-point score/component units.
const ONE: i32 = 1_000_000;

fn make_entry(key: &str, embedding: Vec<i32>) -> MemoryEntry {
    MemoryEntry {
        key: key.to_string(),
        content: format!("Content for {}", key),
        embedding,
        metadata: Vec::new(),
        created_at: 0,
    }
}

/// Quantize a float to a fixed-point component.
fn q(x: f32) -> i32 {
    (x * 1_000_000.0) as i32
}

fn make_embedding(dim: usize, seed: f32) -> Vec<i32> {
    (0..dim).map(|i| q((i as f32 * seed).sin())).collect()
}

#[test]
fn test_cosine_similarity() {
    let a = vec![ONE, 0, 0];
    let b = vec![ONE, 0, 0];
    assert_eq!(cosine_similarity(&a, &b), SCALE);

    let c = vec![0, ONE, 0];
    assert_eq!(cosine_similarity(&a, &c), 0);

    let d = vec![-ONE, 0, 0];
    assert_eq!(cosine_similarity(&a, &d), -SCALE);
}

#[test]
fn test_cosine_self_exact_for_unnormalized() {
    // the similarity of any non-zero vector with itself is exactly 1.0
    let v = vec![123_456, -789, 42, 1_000_000, 7];
    assert_eq!(cosine_similarity(&v, &v), SCALE);
    let neg: Vec<i32> = v.iter().map(|x| -x).collect();
    assert_eq!(cosine_similarity(&v, &neg), -SCALE);
}

#[test]
fn test_cosine_symmetric() {
    // cosine similarity is symmetric in its arguments, also for vectors
    // with very different magnitudes
    let a = vec![3, 0, 0];
    let b = vec![1, 4, 0];
    // norms 3 and 4 (isqrt of 17), so 3 * SCALE / 12
    assert_eq!(cosine_similarity(&a, &b), 250_000);
    assert_eq!(cosine_similarity(&b, &a), 250_000);

    let v = vec![ONE, ONE, 0];
    let w = vec![ONE, 0, 0];
    assert_eq!(cosine_similarity(&v, &w), cosine_similarity(&w, &v));
}

#[test]
fn test_cosine_zero_vector() {
    let z = vec![0, 0, 0];
    let v = vec![ONE, 0, 0];
    assert_eq!(cosine_similarity(&z, &v), 0);
    assert_eq!(cosine_similarity(&v, &z), 0);
    // mismatched lengths score 0 as well
    assert_eq!(cosine_similarity(&v, &[ONE, 0]), 0);
}

#[test]
fn test_insert_search() {
    let mut store = VectorStore::new(3, 100);

    store.insert(make_entry("a", vec![ONE, 0, 0]));
    store.insert(make_entry("b", vec![0, ONE, 0]));
    store.insert(make_entry("c", vec![0, 0, ONE]));

    let results = store.search(&[ONE, 0, 0], 2);
    assert_eq!(results.len(), 2);
    assert_eq!(results[0].entry.key, "a");
    assert_eq!(results[0].score, SCALE);
}

#[test]
fn test_capacity() {
    let mut store = VectorStore::new(3, 2);

    store.insert(make_entry("a", vec![ONE, 0, 0]));
    store.insert(make_entry("b", vec![0, ONE, 0]));
    assert_eq!(store.len(), 2);

    // This should evict "a"
    store.insert(make_entry("c", vec![0, 0, ONE]));
    assert_eq!(store.len(), 2);
    assert!(store.get("a").is_none());
    assert!(store.get("b").is_some());
    assert!(store.get("c").is_some());
}

#[test]
fn test_write_read() {
    let config = MemoryConfig { embedding_dim: 64, ..Default::default() };
    let mut mem = Memory::new(config);

    let emb = make_embedding(64, 1.0);
    mem.write("test", "Hello world", emb).unwrap();

    let entry = mem.read("test").unwrap();
    assert_eq!(entry.content, "Hello world");
}

#[test]
fn test_search() {
    let config = MemoryConfig { embedding_dim: 64, similarity_threshold: 0, ..Default::default() };
    let mut mem = Memory::new(config);

    // Add some entries
    for i in 0..10 {
        let emb = make_embedding(64, i as f32);
        mem.write(&format!("entry_{}", i), &format!("Content {}", i), emb).unwrap();
    }

    // Search with similar embedding
    let query = make_embedding(64, 5.0);
    let results = mem.search(&query, 3);

    assert_eq!(results.len(), 3);
    assert_eq!(results[0].entry.key, "entry_5"); // Should be exact match
}

#[test]
fn test_dimension_mismatch() {
    let config = MemoryConfig { embedding_dim: 64, ..Default::default() };
    let mut mem = Memory::new(config);

    let err = mem.write("k", "v", vec![ONE, 0, 0]).unwrap_err();
    match err {
        CortexError::DimensionMismatch { expected, actual } => {
            assert_eq!(expected, 64);
            assert_eq!(actual, 3);
        }
        other => panic!("unexpected error: {:?}", other),
    }
    assert_eq!(mem.len(), 0);
}

#[test]
fn test_oldest_insertion_eviction() {
    // capacity 3: writing 4 distinct keys evicts exactly the first
    let config = MemoryConfig { embedding_dim: 2, max_entries: 3, ..Default::default() };
    let mut mem = Memory::new(config);

    mem.write("k1", "v1", vec![ONE, 0]).unwrap();
    mem.write("k2", "v2", vec![0, ONE]).unwrap();
    mem.write("k3", "v3", vec![ONE, ONE]).unwrap();
    mem.write("k4", "v4", vec![-ONE, 0]).unwrap();

    assert_eq!(mem.len(), 3);
    assert!(mem.read("k1").is_none());
    assert!(mem.read("k2").is_some());
    assert!(mem.read("k3").is_some());
    assert!(mem.read("k4").is_some());
}

#[test]
fn test_write_twice_same_key() {
    let config = MemoryConfig { embedding_dim: 2, ..Default::default() };
    let mut mem = Memory::new(config);

    mem.write("k", "first", vec![ONE, 0]).unwrap();
    let before = mem.len();
    mem.write("k", "second", vec![0, ONE]).unwrap();

    assert_eq!(mem.len(), before);
    let entry = mem.read("k").unwrap();
    assert_eq!(entry.content, "second");
    assert_eq!(entry.embedding, vec![0, ONE]);
}

#[test]
fn test_search_with_threshold_unbounded() {
    // with the lowest possible threshold, exactly min(k, len) results come
    // back, sorted by non-increasing score
    let config = MemoryConfig { embedding_dim: 2, ..Default::default() };
    let mut mem = Memory::new(config);

    mem.write("pos", "aligned", vec![ONE, 0]).unwrap();
    mem.write("orth", "orthogonal", vec![0, ONE]).unwrap();
    mem.write("neg", "opposed", vec![-ONE, 0]).unwrap();

    let results = mem.search_with_threshold(&[ONE, 0], 10, i64::MIN);
    assert_eq!(results.len(), 3);
    assert!(results[0].score >= results[1].score);
    assert!(results[1].score >= results[2].score);
    assert_eq!(results[0].entry.key, "pos");
    assert_eq!(results[2].entry.key, "neg");

    let top2 = mem.search_with_threshold(&[ONE, 0], 2, i64::MIN);
    assert_eq!(top2.len(), 2);
}

#[test]
fn test_search_threshold_filters() {
    let config = MemoryConfig { embedding_dim: 2, ..Default::default() };
    let mut mem = Memory::new(config);

    mem.write("pos", "aligned", vec![ONE, 0]).unwrap();
    mem.write("neg", "opposed", vec![-ONE, 0]).unwrap();

    let results = mem.search_with_threshold(&[ONE, 0], 10, 500_000);
    assert_eq!(results.len(), 1);
    assert_eq!(results[0].entry.key, "pos");
}

#[test]
fn test_search_empty_store() {
    let config = MemoryConfig { embedding_dim: 2, ..Default::default() };
    let mem = Memory::new(config);
    assert!(mem.is_empty());
    let results = mem.search_with_threshold(&[ONE, 0], 5, i64::MIN);
    assert_eq!(results.len(), 0);
}

#[test]
fn test_delete_and_clear() {
    let config = MemoryConfig { embedding_dim: 2, ..Default::default() };
    let mut mem = Memory::new(config);

    mem.write("a", "x", vec![ONE, 0]).unwrap();
    mem.write("b", "y", vec![0, ONE]).unwrap();
    assert!(mem.delete("a"));
    assert!(!mem.delete("a"));
    assert_eq!(mem.len(), 1);
    mem.clear();
    assert!(mem.is_empty());
}

#[test]
fn test_entries_in_insertion_order() {
    let config = MemoryConfig { embedding_dim: 2, ..Default::default() };
    let mut mem = Memory::new(config);

    mem.write("a", "x", vec![ONE, 0]).unwrap();
    mem.write("b", "y", vec![0, ONE]).unwrap();
    mem.write("c", "z", vec![ONE, ONE]).unwrap();

    let keys: Vec<&str> = mem.entries().iter().map(|e| e.key.as_str()).collect();
    assert_eq!(keys, vec!["a", "b", "c"]);
}

#[test]
fn test_state_snapshot_roundtrip() {
    // the in-process equivalent of persist/load: set_state(get_state())
    // reproduces the store exactly
    let config = MemoryConfig { embedding_dim: 2, max_entries: 5, ..Default::default() };
    let mut mem = Memory::new(config);
    mem.write("a", "x", vec![ONE, 0]).unwrap();
    mem.write("b", "y", vec![0, ONE]).unwrap();

    let snapshot = mem.get_state();
    let other_config = MemoryConfig { embedding_dim: 9, max_entries: 1, ..Default::default() };
    let mut other = Memory::new(other_config);
    other.set_state(snapshot);

    assert_eq!(other.len(), 2);
    let keys: Vec<&str> = other.entries().iter().map(|e| e.key.as_str()).collect();
    assert_eq!(keys, vec!["a", "b"]);
    assert_eq!(other.read("a").unwrap().content, "x");
}

#[test]
fn test_metadata_write() {
    let config = MemoryConfig { embedding_dim: 2, ..Default::default() };
    let mut mem = Memory::new(config);

    let metadata = vec![("lang".to_string(), "en".to_string())];
    mem.write_with_metadata("k", "v", vec![ONE, 0], metadata).unwrap();
    let entry = mem.read("k").unwrap();
    assert_eq!(entry.metadata.len(), 1);
    assert_eq!(entry.metadata[0].0, "lang");
    assert_eq!(entry.metadata[0].1, "en");
}
