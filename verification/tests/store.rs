use tuckdb::embedding::store::{Embedding, EmbeddingStore};

fn bits(v: &[f64]) -> Vec<u64> {
    v.iter().map(|f| f.to_bits()).collect()
}

fn sample(document_id: i64, chunk_id: u32, version: u64) -> Embedding {
    Embedding {
        document_id,
        chunk_id,
        source_version: version,
        model_id: "model-v1".to_string(),
        vector: bits(&[1.0, 2.0, 3.0]),
    }
}

#[test]
fn insert_get_remove() {
    let mut store = EmbeddingStore::new();
    store.insert(sample(1, 0, 1));
    assert_eq!(store.len(), 1);
    assert!(store.get(1, 0).is_some());
    assert!(store.get(1, 1).is_none());
    assert!(store.remove(1, 0).is_some());
    assert!(store.get(1, 0).is_none());
    assert!(store.is_empty());
}

#[test]
fn overwrite_updates_embedding() {
    let mut store = EmbeddingStore::new();
    store.insert(sample(1, 1, 1));
    store.insert(sample(1, 1, 2));
    assert_eq!(store.len(), 1);
    assert_eq!(store.get(1, 1).unwrap().source_version, 2);
}

#[test]
fn iter_yields_all_embeddings() {
    let mut store = EmbeddingStore::new();
    store.insert(sample(1, 0, 1));
    store.insert(sample(1, 1, 1));
    store.insert(sample(2, 0, 1));
    assert_eq!(store.iter().iter().count(), 3);
}

#[test]
fn roundtrip_serialization() {
    let mut store = EmbeddingStore::new();
    store.insert(sample(1, 0, 3));
    store.insert(sample(2, 5, 1));
    let bytes = store.to_bytes();
    let loaded = EmbeddingStore::from_bytes(&bytes).unwrap();
    assert_eq!(loaded.len(), 2);
    let e = loaded.get(1, 0).unwrap();
    assert_eq!(e.source_version, 3);
    assert_eq!(e.model_id, "model-v1");
    assert_eq!(e.vector, bits(&[1.0, 2.0, 3.0]));
    assert_eq!(loaded.get(2, 5).unwrap().document_id, 2);
}

#[test]
fn store_from_bytes_rejects_bad_magic() {
    assert!(EmbeddingStore::from_bytes(b"XXXX").is_none());
}

#[test]
fn empty_store_roundtrip() {
    let store = EmbeddingStore::new();
    let loaded = EmbeddingStore::from_bytes(&store.to_bytes()).unwrap();
    assert!(loaded.is_empty());
}
