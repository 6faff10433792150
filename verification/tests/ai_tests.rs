//! Semantic scoring, tag generation, candidate phrases, configuration and
//! the record ledger.

use notemancy_core::ai::{cosine_similarity, generate_tags};
use notemancy_core::config::{default_ef_construction, default_max_connections, Config};
use notemancy_core::dbapi::{
    AddRecordStatus, Record, RecordIdentifier, RecordStore, RecordUpdate,
};
use notemancy_core::embedding_config::{
    default_db_dir, default_embedding_dim, default_table_prefix, EmbeddingConfig,
    EmbeddingManager,
};
use notemancy_core::nlputils::{extract_candidate_phrases, TokenInfo};
use notemancy_core::db::Database;
use notemancy_core::fetch::Fetch;
use notemancy_core::vectordb::{point_id_to_u64, PointIdValue};

const UNIT: i64 = 1_000_000;

fn tok(text: &str, pos: &str) -> TokenInfo {
    TokenInfo {
        text: text.to_string(),
        pos: pos.to_string(),
    }
}

#[test]
fn cosine_of_parallel_vectors_is_one_unit() {
    let a = vec![UNIT, 0];
    let b = vec![UNIT, 0];
    assert_eq!(cosine_similarity(&a, &b), UNIT);
}

#[test]
fn cosine_of_orthogonal_vectors_is_zero() {
    let a = vec![UNIT, 0];
    let b = vec![0, UNIT];
    assert_eq!(cosine_similarity(&a, &b), 0);
}

#[test]
fn cosine_of_opposed_vectors_is_minus_one_unit() {
    let a = vec![UNIT, 0];
    let b = vec![-UNIT, 0];
    assert_eq!(cosine_similarity(&a, &b), -UNIT);
}

#[test]
fn cosine_of_zero_vector_is_zero() {
    let a = vec![0, 0];
    let b = vec![UNIT, UNIT];
    assert_eq!(cosine_similarity(&a, &b), 0);
}

#[test]
fn generate_tags_picks_three_best() {
    let overall = vec![UNIT, 0];
    let candidates = vec![
        ("opposite".to_string(), vec![-UNIT, 0]),
        ("aligned".to_string(), vec![UNIT, 0]),
        ("sideways".to_string(), vec![0, UNIT]),
        ("leaning".to_string(), vec![UNIT, UNIT]),
    ];
    let tags = generate_tags(&overall, &candidates);
    assert_eq!(tags.len(), 3);
    assert_eq!(tags[0], "aligned");
    assert_eq!(tags[1], "leaning");
    assert_eq!(tags[2], "sideways");
}

#[test]
fn generate_tags_with_few_candidates() {
    let overall = vec![UNIT];
    let candidates = vec![("only".to_string(), vec![UNIT])];
    let tags = generate_tags(&overall, &candidates);
    assert_eq!(tags, vec!["only".to_string()]);
}

#[test]
fn candidate_phrases_unigrams_and_bigrams() {
    let sentences = vec![vec![
        tok("Fast", "JJ"),
        tok("language", "NN"),
        tok("runs", "VBZ"),
    ]];
    let phrases = extract_candidate_phrases(&sentences);
    // Sorted ascending: "fast" before "fast language" before "language".
    assert_eq!(
        phrases,
        vec![
            "fast".to_string(),
            "fast language".to_string(),
            "language".to_string()
        ]
    );
    assert!(!phrases.contains(&"runs".to_string()));
}

#[test]
fn candidate_phrases_skip_noun_noun_bigrams() {
    let sentences = vec![vec![tok("systems", "NNS"), tok("language", "NN")]];
    let phrases = extract_candidate_phrases(&sentences);
    assert!(!phrases.iter().any(|p| p.contains(' ')));
}

#[test]
fn collection_point_id_conversion() {
    assert_eq!(point_id_to_u64(&PointIdValue::Numeric { id: 7 }), Ok(7));
    assert_eq!(
        point_id_to_u64(&PointIdValue::Text { value: "x".to_string() }),
        Err("Expected numeric id but got text".to_string())
    );
    assert_eq!(
        point_id_to_u64(&PointIdValue::Absent),
        Err("Missing point id".to_string())
    );
}

#[test]
fn candidate_phrases_deduplicate_by_stem() {
    let sentences = vec![vec![
        tok("certificates", "NNS"),
        tok("of", "IN"),
        tok("certificate", "NN"),
    ]];
    let phrases = extract_candidate_phrases(&sentences);
    assert_eq!(phrases.len(), 1);
    assert_eq!(phrases[0], "certificate");
}

#[test]
fn config_default_values() {
    let c = Config::default();
    let general = c.general.unwrap();
    assert_eq!(general.indicator.unwrap(), "notesy");
    let vaults = c.vaults.unwrap();
    assert_eq!(vaults.len(), 1);
    assert_eq!(vaults[0].0, "main");
    assert_eq!(vaults[0].1.default, Some(true));
    let ai = c.ai.unwrap();
    assert_eq!(ai.ef_construction, 800);
    assert_eq!(ai.max_connections, 24);
    assert_eq!(default_ef_construction(), 800);
    assert_eq!(default_max_connections(), 24);
}

#[test]
fn embedding_config_defaults() {
    assert_eq!(default_embedding_dim(), 384);
    assert_eq!(default_db_dir(), "embeddings");
    assert_eq!(default_table_prefix(), "notemancy_");
    let c = EmbeddingConfig::default();
    assert_eq!(c.embedding_dim, 384);
}

#[test]
fn embedding_manager_names_and_dims() {
    let manager = EmbeddingManager::new(EmbeddingConfig::default());
    assert_eq!(manager.get_table_name("embeddings"), "notemancy_embeddings");
    assert_eq!(manager.embedding_dim(), 384);
    assert!(!manager.store().table_exists("notemancy_embeddings"));
}

#[test]
fn record_store_insert_and_ignore() {
    let mut store = RecordStore::new();
    let rec = Record {
        lpath: "/v/a.md".to_string(),
        title: "A".to_string(),
        timestamp: "t".to_string(),
        vpath: "a.md".to_string(),
        project: None,
    };
    assert!(store.add_record(&rec) == AddRecordStatus::Inserted);
    assert!(store.add_record(&rec) == AddRecordStatus::AlreadyExists);
    assert!(store.record_exists("/v/a.md"));
    assert!(!store.record_exists("/v/b.md"));
    assert_eq!(store.get_lpath("a.md").unwrap(), "/v/a.md");
}

#[test]
fn record_store_update_patches_fields() {
    let mut store = RecordStore::new();
    let rec = Record {
        lpath: "/v/a.md".to_string(),
        title: "A".to_string(),
        timestamp: "t1".to_string(),
        vpath: "a.md".to_string(),
        project: None,
    };
    store.add_record(&rec);
    store.update_record(
        RecordIdentifier::Lpath("/v/a.md".to_string()),
        RecordUpdate {
            lpath: None,
            title: Some("Renamed".to_string()),
            timestamp: None,
            vpath: Some("moved/a.md".to_string()),
            project: Some("p1".to_string()),
        },
    );
    assert_eq!(store.get_lpath("moved/a.md").unwrap(), "/v/a.md");
    assert!(store.get_lpath("a.md").is_none());
}

#[test]
fn record_store_delete_and_paths() {
    let mut store = RecordStore::new();
    for (l, v) in [("/v/a.md", "a.md"), ("/v/b.md", "b.md")] {
        store.add_record(&Record {
            lpath: l.to_string(),
            title: "T".to_string(),
            timestamp: "t".to_string(),
            vpath: v.to_string(),
            project: None,
        });
    }
    assert_eq!(
        store.get_all_paths(true, true),
        vec![
            "/v/a.md".to_string(),
            "a.md".to_string(),
            "/v/b.md".to_string(),
            "b.md".to_string()
        ]
    );
    assert_eq!(
        store.get_all_paths(false, true),
        vec!["a.md".to_string(), "b.md".to_string()]
    );
    store.delete_record(RecordIdentifier::Lpath("/v/a.md".to_string()));
    assert!(!store.record_exists("/v/a.md"));
    assert!(store.record_exists("/v/b.md"));
}

#[test]
fn record_store_column_projection() {
    let mut store = RecordStore::new();
    store.add_record(&Record {
        lpath: "/v/a.md".to_string(),
        title: "A".to_string(),
        timestamp: "t".to_string(),
        vpath: "a.md".to_string(),
        project: None,
    });
    let cols = vec!["id".to_string(), "lpath".to_string(), "project".to_string()];
    let rows = store.get_records_by_column(&cols).unwrap();
    assert_eq!(rows.len(), 1);
    assert_eq!(rows[0][0], ("id".to_string(), Some("0".to_string())));
    assert_eq!(rows[0][1], ("lpath".to_string(), Some("/v/a.md".to_string())));
    assert_eq!(rows[0][2], ("project".to_string(), None));
    let bad = vec!["owner".to_string()];
    assert_eq!(store.get_records_by_column(&bad).unwrap_err(), "Invalid column: owner");
}

#[test]
fn fetch_resolves_pages_and_attachments() {
    let mut db = Database::new();
    db.add_page("main", "/v/a.md", "a.md", "{}", "t", "c");
    db.add_attachment("/v/i.png", "i.png", "image");
    let fetch = Fetch::new(db);
    assert_eq!(fetch.get_file_tree().len(), 1);
    let page = fetch.resolve_page("a.md").unwrap();
    assert_eq!(page.path, "/v/a.md");
    let (path, mime) = fetch.attachment_location("i.png").unwrap();
    assert_eq!(path, "/v/i.png");
    assert_eq!(mime, "image/png");
    assert!(fetch.attachment_location("missing.png").is_none());
}
