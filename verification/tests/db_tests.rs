//! Metadata store behaviour: upsert semantics, queries, cleanup.

use notemancy_core::db::{Database, DbError};

#[test]
fn idempotent_upsert_single_row() {
    // Scanning the same physical path twice yields exactly one row whose
    // fields reflect the latest scan.
    let mut db = Database::new();
    db.add_page("main", "/v/a.md", "a.md", "{}", "t1", "c1");
    db.add_page("main", "/v/a.md", "a-moved.md", "{\"k\":\"v\"}", "t2", "c1");
    let tree = db.get_file_tree();
    assert_eq!(tree.len(), 1);
    assert_eq!(tree[0].path, "/v/a.md");
    assert_eq!(tree[0].virtual_path, "a-moved.md");
    assert_eq!(tree[0].metadata, "{\"k\":\"v\"}");
}

#[test]
fn upsert_keeps_stored_vault() {
    let mut db = Database::new();
    db.add_page("first", "/v/a.md", "a.md", "", "t1", "c1");
    db.add_page("second", "/v/a.md", "a.md", "", "t2", "c2");
    assert_eq!(db.count_pages("first"), 1);
    assert_eq!(db.count_pages("second"), 0);
}

#[test]
fn distinct_paths_stay_separate() {
    let mut db = Database::new();
    db.add_page("main", "/v/a.md", "a.md", "", "t", "c");
    db.add_page("main", "/v/b.md", "b.md", "", "t", "c");
    assert_eq!(db.get_file_tree().len(), 2);
    assert_eq!(db.count_pages("main"), 2);
}

#[test]
fn attachment_upsert_and_lookup() {
    let mut db = Database::new();
    db.add_attachment("/v/i.png", "i.png", "image");
    db.add_attachment("/v/i.png", "pics/i.png", "image");
    let rec = db.get_attachment_by_virtual_path("pics/i.png").unwrap();
    assert_eq!(rec.path, "/v/i.png");
    assert_eq!(rec.file_type, "image");
    assert!(db.get_attachment_by_virtual_path("i.png").is_none());
}

#[test]
fn query_by_fields_values() {
    let mut db = Database::new();
    db.add_page("main", "/v/a.md", "a.md", "{}", "mod1", "cr1");
    let fields = vec!["path".to_string(), "virtualPath".to_string(), "vault".to_string()];
    let rows = db.query_by_fields(&fields).unwrap();
    assert_eq!(rows.len(), 1);
    assert_eq!(rows[0].len(), 3);
    assert_eq!(rows[0][0], ("path".to_string(), "/v/a.md".to_string()));
    assert_eq!(rows[0][1], ("virtualPath".to_string(), "a.md".to_string()));
    assert_eq!(rows[0][2], ("vault".to_string(), "main".to_string()));
}

#[test]
fn query_by_fields_unknown_column() {
    let db = Database::new();
    let fields = vec!["path".to_string(), "id".to_string()];
    match db.query_by_fields(&fields) {
        Err(e) => {
            assert_eq!(e.message(), "unknown column: id");
            assert!(matches!(e, DbError::UnknownColumn { .. }));
        }
        Ok(_) => panic!("expected an unknown-column failure"),
    }
}

#[test]
fn cleanup_removes_stale_rows() {
    let mut db = Database::new();
    db.add_page("main", "/v/a.md", "a.md", "", "t", "c");
    db.add_page("main", "/v/b.md", "b.md", "", "t", "c");
    db.add_page("main", "/v/c.md", "c.md", "", "t", "c");
    let existing = vec!["/v/a.md".to_string(), "/v/c.md".to_string()];
    db.cleanup_stale_records(&existing);
    let tree = db.get_file_tree();
    assert_eq!(tree.len(), 2);
    assert_eq!(tree[0].path, "/v/a.md");
    assert_eq!(tree[1].path, "/v/c.md");
}

#[test]
fn list_files_filters_by_vault() {
    let mut db = Database::new();
    db.add_page("main", "/v/a.md", "a.md", "", "t", "c");
    db.add_page("work", "/w/x.md", "x.md", "", "t", "c");
    db.add_page("main", "/v/b.md", "b.md", "", "t", "c");
    let files = db.list_files("main");
    assert_eq!(files, vec!["/v/a.md".to_string(), "/v/b.md".to_string()]);
}

#[test]
fn file_tree_sorted_by_virtual_path() {
    // Rows inserted out of order come back ordered ascending by virtual
    // path, one record per row.
    let mut db = Database::new();
    db.add_page("main", "/v/z.md", "z.md", "", "t", "c");
    db.add_page("main", "/v/a.md", "a.md", "", "t", "c");
    db.add_page("main", "/v/m.md", "m.md", "", "t", "c");
    let tree = db.get_file_tree();
    assert_eq!(tree.len(), 3);
    assert_eq!(tree[0].virtual_path, "a.md");
    assert_eq!(tree[1].virtual_path, "m.md");
    assert_eq!(tree[2].virtual_path, "z.md");
    assert_eq!(tree[0].path, "/v/a.md");
}

#[test]
fn full_rows_keep_every_column() {
    let mut db = Database::new();
    db.add_page("main", "/v/a.md", "a.md", "{}", "mod1", "cr1");
    let rows = db.all_pages();
    assert_eq!(rows.len(), 1);
    assert_eq!(rows[0].vault, "main");
    assert_eq!(rows[0].last_modified, "mod1");
    assert_eq!(rows[0].created, "cr1");
}

#[test]
fn page_lookup_by_virtual_path() {
    let mut db = Database::new();
    db.add_page("main", "/v/a.md", "notes/a.md", "{}", "t", "c");
    let rec = db.get_page_by_virtual_path("notes/a.md").unwrap();
    assert_eq!(rec.path, "/v/a.md");
    assert!(db.get_page_by_virtual_path("missing.md").is_none());
}
