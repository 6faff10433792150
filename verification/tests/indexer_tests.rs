//! Indexer planning, progress, and the similarity-ranking facade.

use notemancy_core::db::FileRecord;
use notemancy_core::vec_indexer::{
    default_max_results, default_similarity_threshold, embedding_id, overfetch_limit,
    plan_index_run, progress_summary, rank_similar, IndexProgress,
};
use notemancy_core::vectordb::{
    plan_after_create, plan_collection_check, CollectionAction, CollectionCheck,
};

fn record(path: &str, vpath: &str) -> FileRecord {
    FileRecord {
        path: path.to_string(),
        virtual_path: vpath.to_string(),
        metadata: "{}".to_string(),
    }
}

#[test]
fn embedding_id_joins_both_paths() {
    assert_eq!(embedding_id("notes/a.md", "/v/notes/a.md"), "notes/a.md|/v/notes/a.md");
}

#[test]
fn plan_filters_and_deduplicates() {
    let records = vec![
        record("/v/a.md", "a.md"),
        record("/v/pic.png", "pic.png"),
        record("/v/a.md", "elsewhere/a.md"),
        record("/v/b.markdown", "b.markdown"),
    ];
    let tasks = plan_index_run(&records);
    assert_eq!(tasks.len(), 2);
    assert_eq!(tasks[0].path, "/v/a.md");
    // The first record with the duplicated physical path wins.
    assert_eq!(tasks[0].virtual_path, "a.md");
    assert_eq!(tasks[0].embedding_id, "a.md|/v/a.md");
    assert_eq!(tasks[1].path, "/v/b.markdown");
}

#[test]
fn progress_counters_add_up() {
    let mut p = IndexProgress::new();
    p.record_success();
    p.record_success();
    p.record_failure();
    assert_eq!(p.processed, 3);
    assert_eq!(p.succeeded, 2);
    assert_eq!(p.failed, 1);
    assert_eq!(
        progress_summary(&p),
        "Indexing complete: 3 files processed (2 succeeded, 1 failed)"
    );
}

#[test]
fn rank_similar_distance_conversion() {
    // Distances are mirrored into similarities, thresholded, sorted, cut.
    let candidates = vec![
        ("far.md".to_string(), 950_000i64),
        ("near.md".to_string(), 100_000i64),
        ("mid.md".to_string(), 500_000i64),
    ];
    let r = rank_similar(&candidates, true, 100_000, 10);
    assert_eq!(r.len(), 2);
    assert_eq!(r[0], ("near.md".to_string(), 900_000i64));
    assert_eq!(r[1], ("mid.md".to_string(), 500_000i64));
}

#[test]
fn rank_similar_respects_limit() {
    let candidates = vec![
        ("a".to_string(), 900_000i64),
        ("b".to_string(), 800_000i64),
        ("c".to_string(), 700_000i64),
    ];
    let r = rank_similar(&candidates, false, 0, 2);
    assert_eq!(r.len(), 2);
    assert_eq!(r[0].0, "a");
    assert_eq!(r[1].0, "b");
}

#[test]
fn rank_similar_defaults() {
    assert_eq!(default_similarity_threshold(), 100_000);
    assert_eq!(default_max_results(), 20);
}

#[test]
fn overfetch_adds_half() {
    assert_eq!(overfetch_limit(20), 30);
    assert_eq!(overfetch_limit(0), 0);
    assert_eq!(overfetch_limit(5), 7);
}

#[test]
fn collection_check_decisions() {
    assert!(plan_collection_check(&CollectionCheck::Status { status: 0 }) == CollectionAction::Ready);
    assert!(plan_collection_check(&CollectionCheck::Status { status: 1 }) == CollectionAction::Ready);
    assert!(plan_collection_check(&CollectionCheck::Status { status: 2 }) == CollectionAction::Fail);
    assert!(plan_collection_check(&CollectionCheck::Missing) == CollectionAction::Create);
    assert!(plan_collection_check(&CollectionCheck::LookupFailed) == CollectionAction::Fail);
    assert!(plan_after_create(&CollectionCheck::Status { status: 1 }) == CollectionAction::Ready);
    assert!(plan_after_create(&CollectionCheck::Missing) == CollectionAction::Fail);
}
