//! Embedding store behaviour: lifecycle, dimension checks, deletion and
//! similarity search.

use notemancy_core::ann::{isqrt, partition_count, probe_count, round_sqrt, AnnParams};
use notemancy_core::embeddings::{
    create_store, DocumentEmbedding, EmbeddingMetadata, EmbeddingsStore, FilterField,
    MetadataFilter, StoreError, SCALE,
};
use rand::RngExt;

fn emb(id: &str, vector: Vec<i64>) -> DocumentEmbedding {
    DocumentEmbedding {
        vector,
        metadata: EmbeddingMetadata {
            id: id.to_string(),
            title: format!("doc {}", id),
            path: format!("/tmp/{}", id),
        },
    }
}

fn small_store() -> EmbeddingsStore {
    let mut store = EmbeddingsStore::new(3, AnnParams::default());
    store.create_table("embeddings");
    store
}

#[test]
fn create_store_has_default_table() {
    let store = create_store();
    assert!(store.table_exists("embeddings"));
    assert!(!store.table_exists("other"));
    assert_eq!(store.embedding_dim(), 768);
}

#[test]
fn create_table_is_idempotent() {
    let mut store = small_store();
    store.create_table("embeddings");
    assert!(store.table_exists("embeddings"));
    let r = store.add_embeddings("embeddings", vec![emb("a", vec![1, 2, 3])]);
    assert!(r.is_ok());
}

#[test]
fn drop_table_removes_it() {
    let mut store = small_store();
    store.drop_table("embeddings");
    assert!(!store.table_exists("embeddings"));
}

#[test]
fn dimension_invariant_on_add() {
    // A vector of the wrong length never results in a stored row of its
    // identifier.
    let mut store = small_store();
    let r = store.add_embeddings("embeddings", vec![emb("bad", vec![1, 2])]);
    assert!(matches!(r, Err(StoreError::DimensionMismatch { expected: 3, actual: 2 })));
    assert_eq!(store.get_embedding_by_path("embeddings", "/tmp/bad").unwrap().is_some(), false);
}

#[test]
fn dimension_invariant_on_search() {
    let mut store = small_store();
    store
        .add_embeddings("embeddings", vec![emb("a", vec![1, 2, 3])])
        .unwrap();
    let r = store.similarity_search("embeddings", &vec![1, 2], 10, None);
    assert!(matches!(r, Err(StoreError::DimensionMismatch { .. })));
}

#[test]
fn component_out_of_range_is_rejected() {
    let mut store = small_store();
    let r = store.add_embeddings("embeddings", vec![emb("big", vec![SCALE + 1, 0, 0])]);
    assert!(matches!(r, Err(StoreError::ConversionError)));
    let r2 = store.similarity_search("embeddings", &vec![SCALE + 1, 0, 0], 10, None);
    assert!(matches!(r2, Err(StoreError::ConversionError)));
}

#[test]
fn missing_table_is_not_found() {
    let mut store = small_store();
    let r = store.add_embeddings("nowhere", vec![emb("a", vec![1, 2, 3])]);
    match r {
        Err(e @ StoreError::NotFound { .. }) => {
            assert_eq!(e.message(), "table not found: nowhere");
        }
        _ => panic!("expected NotFound"),
    }
}

#[test]
fn reindex_idempotence_scenario() {
    // Indexing the same document twice, with a delete before each insert,
    // leaves exactly one row for its identifier.
    let mut store = small_store();
    let id = "a.md|/v/a.md".to_string();
    for _round in 0..2 {
        store.delete_embeddings("embeddings", &vec![id.clone()]).unwrap();
        store
            .add_embeddings("embeddings", vec![emb(&id, vec![10, 20, 30])])
            .unwrap();
    }
    let filter = MetadataFilter {
        field: FilterField::Id,
        value: id.clone(),
    };
    let hits = store
        .similarity_search("embeddings", &vec![1, 1, 1], 100, Some(&filter))
        .unwrap();
    assert_eq!(hits.len(), 1);
    assert_eq!(hits[0].0.metadata.id, id);
}

#[test]
fn score_ordering_and_limit() {
    // Results come back sorted by non-increasing cosine similarity and
    // never exceed the limit.
    let mut store = small_store();
    store
        .add_embeddings(
            "embeddings",
            vec![
                emb("side", vec![0, SCALE, 0]),
                emb("parallel", vec![SCALE, 0, 0]),
                emb("diagonal", vec![707_107, 707_107, 0]),
            ],
        )
        .unwrap();
    let hits = store
        .similarity_search("embeddings", &vec![SCALE, 0, 0], 2, None)
        .unwrap();
    assert_eq!(hits.len(), 2);
    assert_eq!(hits[0].0.metadata.id, "parallel");
    assert_eq!(hits[1].0.metadata.id, "diagonal");
    assert_eq!(hits[0].1, SCALE);
    assert_eq!(hits[1].1, 707_107);
    assert!(hits[0].1 >= hits[1].1);
}

#[test]
fn empty_batch_is_a_no_op() {
    // An empty batch succeeds before the table is even looked up.
    let mut store = small_store();
    assert!(store.add_embeddings("embeddings", Vec::new()).is_ok());
    assert!(store.add_embeddings("no-such-table", Vec::new()).is_ok());
    assert!(!store.table_exists("no-such-table"));
}

#[test]
fn exact_match_reaches_the_top() {
    // A row whose vector equals the query scores the full unit and comes
    // back first.
    let mut store = small_store();
    store
        .add_embeddings(
            "embeddings",
            vec![
                emb("other", vec![0, SCALE, 0]),
                emb("itself", vec![300_000, 400_000, 0]),
                emb("close", vec![SCALE, 0, 0]),
            ],
        )
        .unwrap();
    let hits = store
        .similarity_search("embeddings", &vec![300_000, 400_000, 0], 3, None)
        .unwrap();
    assert_eq!(hits[0].0.metadata.id, "itself");
    assert_eq!(hits[0].1, SCALE);
}

#[test]
fn delete_visibility() {
    // After deleting an identifier, a search with a high limit never
    // returns it.
    let mut store = small_store();
    store
        .add_embeddings(
            "embeddings",
            vec![emb("keep", vec![5, 5, 5]), emb("gone", vec![9, 9, 9])],
        )
        .unwrap();
    store
        .delete_embeddings("embeddings", &vec!["gone".to_string()])
        .unwrap();
    let hits = store
        .similarity_search("embeddings", &vec![1, 1, 1], 1000, None)
        .unwrap();
    assert_eq!(hits.len(), 1);
    for (doc, _score) in &hits {
        assert_ne!(doc.metadata.id, "gone");
    }
}

#[test]
fn filter_restricts_results() {
    let mut store = small_store();
    store
        .add_embeddings(
            "embeddings",
            vec![emb("a", vec![1, 0, 0]), emb("b", vec![2, 0, 0])],
        )
        .unwrap();
    let filter = MetadataFilter {
        field: FilterField::Path,
        value: "/tmp/a".to_string(),
    };
    let hits = store
        .similarity_search("embeddings", &vec![1, 0, 0], 10, Some(&filter))
        .unwrap();
    assert_eq!(hits.len(), 1);
    assert_eq!(hits[0].0.metadata.path, "/tmp/a");
}

#[test]
fn delete_by_path_removes_matching_rows() {
    let mut store = small_store();
    store
        .add_embeddings(
            "embeddings",
            vec![emb("a", vec![1, 0, 0]), emb("b", vec![2, 0, 0])],
        )
        .unwrap();
    store.delete_embedding_by_path("embeddings", "/tmp/a").unwrap();
    assert!(store.get_embedding_by_path("embeddings", "/tmp/a").unwrap().is_none());
    assert!(store.get_embedding_by_path("embeddings", "/tmp/b").unwrap().is_some());
}

#[test]
fn get_embedding_by_path_finds_row() {
    let mut store = small_store();
    store
        .add_embeddings("embeddings", vec![emb("a", vec![1, 2, 3])])
        .unwrap();
    let hit = store.get_embedding_by_path("embeddings", "/tmp/a").unwrap().unwrap();
    assert_eq!(hit.metadata.id, "a");
    assert_eq!(hit.vector, vec![1, 2, 3]);
}

#[test]
fn query_probes_follow_index_sizing() {
    let mut store = small_store();
    assert_eq!(store.query_probes("embeddings").unwrap(), 0);
    let batch: Vec<DocumentEmbedding> = (0..144).map(|i| emb(&i.to_string(), vec![1, 2, 3])).collect();
    store.add_embeddings("embeddings", batch).unwrap();
    // 144 rows size the index at 12 partitions; ten percent rounds to one
    // probe, clamped up to ten.
    assert_eq!(store.query_probes("embeddings").unwrap(), 10);
    assert!(store.query_probes("gone").is_err());
}

#[test]
fn isqrt_exact_values() {
    assert_eq!(isqrt(0), 0);
    assert_eq!(isqrt(1), 1);
    assert_eq!(isqrt(15), 3);
    assert_eq!(isqrt(16), 4);
    assert_eq!(isqrt(1_000_000_000_000), 1_000_000);
}

#[test]
fn round_sqrt_exact_values() {
    assert_eq!(round_sqrt(12), 3);
    assert_eq!(round_sqrt(15), 4);
    assert_eq!(round_sqrt(100), 10);
}

#[test]
fn partition_count_heuristic() {
    let p = AnnParams::default();
    assert_eq!(partition_count(0, &p), 10);
    assert_eq!(partition_count(100, &p), 10);
    assert_eq!(partition_count(144, &p), 12);
    assert_eq!(partition_count(1_000_000, &p), 1000);
    assert_eq!(partition_count(10_000_000, &p), 1000);
}

#[test]
fn probe_count_heuristic() {
    let p = AnnParams::default();
    assert_eq!(probe_count(5, &p), 10);
    assert_eq!(probe_count(500, &p), 50);
    assert_eq!(probe_count(505, &p), 51);
    assert_eq!(probe_count(2000, &p), 100);
}

#[test]
fn test_random_vectors_index_and_search() {
    // Forty random vectors of the stock dimension; the query vector itself
    // must come back among the ten best matches.
    let mut store = create_store();
    let mut rng = rand::rng();
    let embeddings: Vec<DocumentEmbedding> = (0..40)
        .map(|i| {
            let v: Vec<i64> = (0..768)
                .map(|_| {
                    let x: f64 = rng.random_range(0.0..1.0);
                    (x * 1_000_000.0) as i64
                })
                .collect();
            emb(&i.to_string(), v)
        })
        .collect();
    let query = embeddings[0].vector.clone();
    store.add_embeddings("embeddings", embeddings).unwrap();
    let results = store
        .similarity_search("embeddings", &query, 10, None)
        .unwrap();
    assert!(!results.is_empty(), "Search results should not be empty");
    let found = results.iter().any(|(doc, _)| doc.metadata.id == "0");
    assert!(found, "Expected to find document with id '0' in the search results");
}
