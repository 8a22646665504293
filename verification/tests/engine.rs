use tuckdb::embedding::provider::EmbeddingProvider;
use tuckdb::embedding::store::Embedding;
use tuckdb::incremental::IncrementalEngine;
use tuckdb::lifecycle::state::LifecycleState;

/// A deterministic provider: each coordinate hashes the text with it.
struct TestProvider {
    model: String,
    dim: usize,
}

impl TestProvider {
    fn new(model: &str) -> TestProvider {
        TestProvider { model: model.to_string(), dim: 8 }
    }
}

impl EmbeddingProvider for TestProvider {
    fn embed(&self, text: &str) -> Vec<u64> {
        (0..self.dim)
            .map(|i| {
                let mut h: u64 = 0xcbf2_9ce4_8422_2325 ^ i as u64;
                for b in text.bytes() {
                    h ^= b as u64;
                    h = h.wrapping_mul(0x0000_0100_0000_01b3);
                }
                ((h % 1000) as f64 / 1000.0).to_bits()
            })
            .collect()
    }

    fn model_id(&self) -> &str {
        &self.model
    }

    fn dimension(&self) -> usize {
        self.dim
    }
}

fn content(id: usize) -> String {
    format!(
        "Section 1 of document {id}.\n\nSection 2 of document {id}.\n\nSection 3 of document {id}.\n\nSection 4 of document {id}.\n\nSection 5 of document {id}."
    )
}

fn updated(id: usize) -> String {
    format!(
        "Section 1 of document {id}.\n\nSection 2 of document {id} REVISED.\n\nSection 3 of document {id}.\n\nSection 4 of document {id}.\n\nSection 5 of document {id}."
    )
}

fn engine() -> IncrementalEngine<TestProvider> {
    IncrementalEngine::new(TestProvider::new("model-v1"))
}

fn work_avoided(total: usize, generated: usize) -> f64 {
    if total == 0 {
        0.0
    } else {
        (1.0 - generated as f64 / total as f64) * 100.0
    }
}

#[test]
fn ingest_indexes_all_chunks() {
    let mut e = engine();
    let report = e.ingest(1, &content(1));
    assert_eq!(report.chunks, 5);
    assert_eq!(e.store().len(), 5);
    assert_eq!(e.chunks().get(1).unwrap().len(), 5);
    let state = e.lifecycle().get(1).unwrap();
    assert_eq!(state.version, 1);
    assert_eq!(state.state, LifecycleState::Active);
}

#[test]
fn update_unchanged_content_does_no_work() {
    let mut e = engine();
    e.ingest(1, &content(1));
    let report = e.update(1, &content(1)).unwrap();
    assert_eq!(report.changed_chunks, 0);
    assert_eq!(report.embeddings_generated, 0);
    assert_eq!(report.embeddings_skipped, 5);
    let pct = if report.total_chunks == 0 { 0.0 } else { 100.0 };
    assert!(pct > 99.9);
}

#[test]
fn update_changed_content_regenerates_only_changed_chunk() {
    let mut e = engine();
    e.ingest(1, &content(1));
    let report = e.update(1, &updated(1)).unwrap();
    assert_eq!(report.total_chunks, 5);
    assert_eq!(report.changed_chunks, 1);
    assert_eq!(report.embeddings_generated, 1);
    assert_eq!(report.embeddings_skipped, 4);
    assert!((work_avoided(report.total_chunks, report.embeddings_generated) - 80.0).abs() < 1e-9);
    assert_eq!(e.store().get(1, 0).unwrap().source_version, 1);
    assert_eq!(e.store().get(1, 1).unwrap().source_version, 2);
    assert_eq!(e.store().get(1, 2).unwrap().source_version, 1);
}

#[test]
fn update_removes_embeddings_for_removed_chunks() {
    let mut e = engine();
    e.ingest(1, &content(1));
    let shrunk = format!("Section 1 of document 1.\n\nSection 2 of document 1.");
    let report = e.update(1, &shrunk).unwrap();
    assert_eq!(report.embeddings_generated, 0);
    assert_eq!(report.embeddings_removed, 3);
    assert_eq!(e.store().len(), 2);
}

#[test]
fn mod_update_untracked_document_errors() {
    let mut e = engine();
    assert!(e.update(99, "hello").is_err());
}

#[test]
fn multi_document_update_only_reprocesses_changed_chunks() {
    let mut e = engine();
    let docs = 1000usize;
    let changed = 100usize;
    for i in 0..docs {
        e.ingest(i as i64, &content(i));
    }
    assert_eq!(e.store().len(), docs * 5);

    let mut generated = 0usize;
    for i in 0..changed {
        let report = e.update(i as i64, &updated(i)).unwrap();
        assert_eq!(report.embeddings_generated, 1);
        generated += report.embeddings_generated;
    }
    assert_eq!(generated, changed);
    assert_eq!(e.store().len(), docs * 5);

    let avoided = (1.0 - generated as f64 / (docs * 5) as f64) * 100.0;
    assert!((avoided - 98.0).abs() < 1e-9);
}

#[test]
fn delete_removes_all_derived_data() {
    let mut e = engine();
    e.ingest(1, &content(1));
    assert_eq!(e.store().len(), 5);

    let report = e.delete(1).unwrap();
    assert_eq!(report.affected_chunks, 5);
    assert_eq!(report.affected_vectors, 5);
    assert_eq!(report.vectors_remaining, 0);
    assert_eq!(report.cleanup_work, 5);
    assert_eq!(e.store().len(), 0);
    assert!(e.lifecycle().get(1).is_none());
    assert!(e.chunks().get(1).is_none());
}

#[test]
fn delete_only_affects_target_document() {
    let mut e = engine();
    for i in 0..3 {
        e.ingest(i as i64, &content(i));
    }
    assert_eq!(e.store().len(), 15);

    let report = e.delete(1).unwrap();
    assert_eq!(report.affected_vectors, 5);
    assert_eq!(report.vectors_remaining, 10);
    assert_eq!(e.store().len(), 10);
    assert!(e.store().get(1, 0).is_none());
    assert!(e.store().get(0, 0).is_some());
    assert!(e.store().get(2, 0).is_some());
    assert!(e.chunks().get(1).is_none());
    assert!(e.lifecycle().get(1).is_none());
}

#[test]
fn delete_untracked_document_errors() {
    let mut e = engine();
    assert!(e.delete(99).is_err());
}

#[test]
fn delete_then_reingest_is_clean() {
    let mut e = engine();
    e.ingest(1, &content(1));
    e.delete(1).unwrap();
    assert_eq!(e.store().len(), 0);

    let report = e.ingest(1, &content(1));
    assert_eq!(report.chunks, 5);
    assert_eq!(e.store().len(), 5);
    assert_eq!(e.lifecycle().get(1).unwrap().version, 1);
    assert_eq!(e.lifecycle().get(1).unwrap().state, LifecycleState::Active);
}

#[test]
fn migrate_all_embeddings_to_new_model() {
    let mut e = engine();
    e.ingest(1, &content(1));

    let report = e.migrate_model(TestProvider::new("model-v2"));

    assert_eq!(report.old_model, "model-v1");
    assert_eq!(report.new_model, "model-v2");
    assert_eq!(report.total_vectors, 5);
    assert_eq!(report.candidates, 5);
    assert_eq!(report.migrated, 5);
    assert_eq!(report.skipped, 0);

    for chunk_id in 0..5 {
        let embedding = e.store().get(1, chunk_id).unwrap();
        assert_eq!(embedding.model_id, "model-v2");
        assert_eq!(embedding.source_version, 1);
    }
}

#[test]
fn migrate_skips_embeddings_already_on_target_model() {
    let mut e = engine();
    e.ingest(1, &content(1));

    let v2 = TestProvider::new("model-v2");
    let chunk0 = e.chunks().get(1).unwrap()[0].clone();
    let vector = v2.embed(&chunk0.content);
    e.store_mut().insert(Embedding {
        document_id: 1,
        chunk_id: 0,
        source_version: chunk0.source_version,
        model_id: "model-v2".to_string(),
        vector,
    });

    let report = e.migrate_model(v2);
    assert_eq!(report.candidates, 4);
    assert_eq!(report.migrated, 4);
    assert_eq!(report.skipped, 1);
    assert_eq!(e.store().get(1, 0).unwrap().model_id, "model-v2");
    assert_eq!(e.store().get(1, 1).unwrap().model_id, "model-v2");
}

#[test]
fn migrate_again_is_noop() {
    let mut e = engine();
    e.ingest(1, &content(1));
    e.migrate_model(TestProvider::new("model-v2"));

    let report = e.migrate_model(TestProvider::new("model-v2"));
    assert_eq!(report.candidates, 0);
    assert_eq!(report.migrated, 0);
    assert_eq!(report.skipped, 5);
}

#[test]
fn migration_preserves_source_version_after_update() {
    let mut e = engine();
    e.ingest(1, &content(1));
    e.update(1, &updated(1)).unwrap();

    e.migrate_model(TestProvider::new("model-v2"));

    let embedding = e.store().get(1, 1).unwrap();
    assert_eq!(embedding.model_id, "model-v2");
    assert_eq!(embedding.source_version, 2, "source version must survive model migration");
}

#[test]
fn engine_roundtrip_persistence() {
    let mut e = engine();
    e.ingest(1, &content(1));
    e.update(1, &updated(1)).unwrap();
    e.ingest(2, &content(2));

    let bytes = e.to_bytes();
    let loaded = IncrementalEngine::from_bytes(&bytes, |m: &str| TestProvider::new(m)).unwrap();
    assert_eq!(loaded.store().len(), e.store().len());
    assert_eq!(loaded.lifecycle().get(1).unwrap().version, 2);
    assert_eq!(loaded.chunks().get(1).unwrap().len(), 5);
    assert_eq!(loaded.chunks().get(2).unwrap().len(), 5);
}

#[test]
fn add_after_load_is_incremental() {
    let mut e = engine();
    e.ingest(1, &content(1));
    let mut loaded = IncrementalEngine::from_bytes(&e.to_bytes(), |m: &str| TestProvider::new(m)).unwrap();

    let before = loaded.store().len();
    let report = loaded.ingest(2, &content(2));
    assert_eq!(report.chunks, 5);
    assert_eq!(loaded.store().len(), before + 5, "only the new document is processed");
}

#[test]
fn delete_after_load_is_incremental() {
    let mut e = engine();
    e.ingest(1, &content(1));
    e.ingest(2, &content(2));
    let mut loaded = IncrementalEngine::from_bytes(&e.to_bytes(), |m: &str| TestProvider::new(m)).unwrap();

    let before = loaded.store().len();
    let report = loaded.delete(1).unwrap();
    assert_eq!(report.affected_vectors, 5);
    assert_eq!(loaded.store().len(), before - 5);
    assert!(loaded.store().get(2, 0).is_some(), "unrelated document untouched");
}

#[test]
fn mod_from_bytes_rejects_bad_magic() {
    assert!(IncrementalEngine::from_bytes(b"XXXX", |m: &str| TestProvider::new(m)).is_none());
}

#[test]
fn untracked_documents_are_named_in_errors() {
    let mut e = engine();
    assert_eq!(e.delete(-42).unwrap_err(), "document -42 is not tracked");
    assert_eq!(e.update(7, "text").unwrap_err(), "document 7 is not tracked; register it before update");
}

#[test]
fn updates_embed_the_changed_text() {
    let mut e = engine();
    e.ingest(1, "first paragraph\n\nsecond paragraph");
    e.update(1, "first paragraph\n\nsecond, changed").unwrap();
    let provider = TestProvider::new("m");
    let changed = e.store().get(1, 1).unwrap();
    assert_eq!(changed.vector, provider.embed("second, changed"));
    let kept = e.store().get(1, 0).unwrap();
    assert_eq!(kept.vector, provider.embed("first paragraph"));
}
