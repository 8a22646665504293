use tuckdb::lifecycle::chunk::{chunk_document, chunk_text, ChunkChange, ChunkTracker, DEFAULT_CHUNK_SIZE};
use tuckdb::lifecycle::dedup::{ContentDedup, DedupOutcome};
use tuckdb::lifecycle::state::{content_hash, LifecycleManager, LifecycleState};

const V1: &str = "Q1: What is RAII?\nA1: RAII binds resource lifetime to object lifetime.\n\nQ2: What is a move constructor?\nA2: A move constructor transfers resources from another object.\n\nQ3: What is a virtual function?\nA3: A virtual function enables runtime polymorphism.";

const V2: &str = "Q1: What is RAII?\nA1: RAII binds resource lifetime to object lifetime.\n\nQ2: What is a move constructor?\nA2: A move constructor transfers ownership by moving resources instead of copying them.\n\nQ3: What is a virtual function?\nA3: A virtual function enables runtime polymorphism.";

fn avoided_pct(total: usize, changed: usize) -> f64 {
    if total == 0 {
        0.0
    } else {
        (1.0 - changed as f64 / total as f64) * 100.0
    }
}

#[test]
fn chunk_text_splits_paragraphs() {
    let chunks = chunk_text(V1, DEFAULT_CHUNK_SIZE);
    assert_eq!(chunks.len(), 3);
    assert!(chunks[0].starts_with("Q1:"));
    assert!(chunks[1].starts_with("Q2:"));
    assert!(chunks[2].starts_with("Q3:"));
}

#[test]
fn chunk_document_has_sequential_ids_and_hashes() {
    let chunks = chunk_document(1, 1, V1);
    assert_eq!(chunks.len(), 3);
    for (i, chunk) in chunks.iter().enumerate() {
        assert_eq!(chunk.chunk_id, i as u32);
        assert_eq!(chunk.source_version, 1);
        assert_eq!(chunk.document_id, 1);
        assert_ne!(chunk.content_hash, 0);
    }
}

#[test]
fn unchanged_chunks_share_hashes() {
    let v1 = chunk_document(1, 1, V1);
    let v2 = chunk_document(1, 2, V1);
    for (a, b) in v1.iter().zip(v2.iter()) {
        assert_eq!(a.content_hash, b.content_hash);
    }
}

#[test]
fn update_with_unchanged_content_skips_all() {
    let mut tracker = ChunkTracker::new();
    tracker.register(1, 1, V1);
    let report = tracker.apply_update(1, 2, V1).unwrap();
    assert_eq!(report.total_chunks, 3);
    assert_eq!(report.changed_chunks, 0);
    assert_eq!(report.reprocessed_chunks, 0);
    assert!(avoided_pct(report.total_chunks, report.changed_chunks) > 99.9);
    assert!(report.diffs.iter().all(|d| d.change == ChunkChange::Skip));
}

#[test]
fn update_changing_one_section_reprocesses_only_it() {
    let mut tracker = ChunkTracker::new();
    tracker.register(1, 1, V1);
    let report = tracker.apply_update(1, 2, V2).unwrap();
    assert_eq!(report.total_chunks, 3);
    assert_eq!(report.changed_chunks, 1);
    assert_eq!(report.unchanged_chunks, 2);
    assert_eq!(report.reprocessed_chunks, 1);
    assert!((avoided_pct(report.total_chunks, report.changed_chunks) - 66.6666).abs() < 0.1);
    let changes: Vec<(u32, ChunkChange)> = report.diffs.iter().map(|d| (d.chunk_id, d.change)).collect();
    assert_eq!(
        changes,
        vec![(0, ChunkChange::Skip), (1, ChunkChange::Process), (2, ChunkChange::Skip)]
    );
}

#[test]
fn chunk_update_untracked_document_errors() {
    let mut tracker = ChunkTracker::new();
    assert!(tracker.apply_update(99, 2, V1).is_err());
}

#[test]
fn first_insert_is_unique() {
    let mut dedup = ContentDedup::new();
    assert_eq!(dedup.insert(&["What is RAII?"]), DedupOutcome::NewUnique);
}

#[test]
fn exact_duplicate_is_detected_by_hash() {
    let mut dedup = ContentDedup::new();
    dedup.insert(&["What is RAII?"]);
    assert_eq!(dedup.insert(&["What is RAII?"]), DedupOutcome::Duplicate);
    assert_eq!(dedup.insert(&["What is a move constructor?"]), DedupOutcome::NewUnique);
}

#[test]
fn lookup_returns_canonical_content() {
    let mut dedup = ContentDedup::new();
    dedup.insert(&["a", "b", "c"]);
    let canonical = dedup.lookup(&["a", "b", "c"]).unwrap();
    assert_eq!(canonical, &["a", "b", "c"]);
    assert!(dedup.lookup(&["x", "y", "z"]).is_none());
}

#[test]
fn report_counts_are_correct() {
    let mut dedup = ContentDedup::new();
    for i in 0..9000 {
        dedup.insert(&[&format!("unique_content_{}", i)]);
    }
    for i in 0..1000 {
        dedup.insert(&[&format!("unique_content_{}", i)]);
    }
    let report = dedup.report();
    assert_eq!(report.total_inputs, 10_000);
    assert_eq!(report.unique_contents, 9_000);
    assert_eq!(report.duplicates_detected, 1_000);
    assert_eq!(report.processing_avoided, 1_000);
    let ratio = report.duplicates_detected as f64 / report.total_inputs as f64;
    assert!((ratio - 0.1).abs() < 1e-9);
}

#[test]
fn empty_registry_reports_zero() {
    let dedup = ContentDedup::new();
    let report = dedup.report();
    assert_eq!(report.total_inputs, 0);
    assert_eq!(report.unique_contents, 0);
    assert_eq!(report.duplicates_detected, 0);
}

#[test]
fn hash_is_deterministic() {
    let parts = ["What is RAII?", "RAII binds resource lifetime to object lifetime.", "memory"];
    assert_eq!(content_hash(&parts), content_hash(&parts));
}

#[test]
fn hash_differs_for_different_content() {
    let a = content_hash(&["What is RAII?"]);
    let b = content_hash(&["What is a move constructor?"]);
    assert_ne!(a, b);
}

#[test]
fn register_creates_active_version_one() {
    let mut lm = LifecycleManager::new();
    lm.register(1001, &["hello", "world"]);
    let state = lm.get(1001).unwrap();
    assert_eq!(state.version, 1);
    assert_eq!(state.state, LifecycleState::Active);
    assert_ne!(state.content_hash, 0);
}

#[test]
fn identical_update_does_no_work() {
    let mut lm = LifecycleManager::new();
    lm.register(1, &["a", "b", "c"]);
    let report = lm.apply_update(1, &["a", "b", "c"]).unwrap();
    assert!(!report.content_changed);
    assert_eq!(report.previous_version, 1);
    assert_eq!(report.new_version, 1);
    assert_eq!(report.derived_state, LifecycleState::Active);
}

#[test]
fn changed_update_increments_version_and_marks_stale() {
    let mut lm = LifecycleManager::new();
    lm.register(1, &["a", "b", "c"]);
    let report = lm.apply_update(1, &["a", "CHANGED", "c"]).unwrap();
    assert!(report.content_changed);
    assert_eq!(report.previous_version, 1);
    assert_eq!(report.new_version, 2);
    assert_eq!(report.derived_state, LifecycleState::Stale);
    assert_ne!(report.previous_hash, report.new_hash);
    let state = lm.get(1).unwrap();
    assert_eq!(state.version, 2);
    assert_eq!(state.state, LifecycleState::Stale);
}

#[test]
fn state_update_untracked_document_errors() {
    let mut lm = LifecycleManager::new();
    assert!(lm.apply_update(999, &["x"]).is_err());
}

#[test]
fn chunking_drops_only_whitespace() {
    let long: String = (0..60).map(|i| format!("word{} ", i)).collect();
    let text = format!("  Intro line\n\n\n{}\n\n\tTail  \u{a0}end\n", long);
    let chunks = chunk_text(&text, 64);
    assert!(chunks.len() > 3);
    let visible = |s: &str| s.chars().filter(|c| !c.is_whitespace()).collect::<String>();
    let joined: String = chunks.iter().map(|c| visible(c)).collect();
    assert_eq!(joined, visible(&text));
}

#[test]
fn dedup_history_counts_duplicate_outcomes() {
    let mut d = ContentDedup::new();
    let history = ["a", "b", "a", "c", "b", "a", "d"];
    let mut duplicates = 0;
    for (i, c) in history.iter().enumerate() {
        let outcome = d.insert(&[c]);
        let seen_before = history[..i].contains(c);
        assert_eq!(outcome == DedupOutcome::Duplicate, seen_before);
        if outcome == DedupOutcome::Duplicate {
            duplicates += 1;
        }
    }
    assert_eq!(d.total(), history.len());
    assert_eq!(d.unique_count(), 4);
    assert_eq!(d.duplicates_detected(), duplicates);
    assert_eq!(duplicates, 3);
    assert_eq!(d.lookup(&["a"]).unwrap(), &["a".to_string()][..]);
}

#[test]
fn untracked_updates_name_the_document() {
    let mut tracker = ChunkTracker::new();
    assert_eq!(tracker.apply_update(99, 2, "x").unwrap_err(), "document 99 is not tracked");
    let mut lm = LifecycleManager::new();
    assert_eq!(lm.apply_update(-9223372036854775808, &["x"]).unwrap_err(), "document -9223372036854775808 is not tracked; register it before update");
}
