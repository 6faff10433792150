//! Scanner behaviour: virtual paths, frontmatter, reports.

use notemancy_core::config::{Config, GeneralConfig, VaultProperties};
use notemancy_core::frontmatter::{extract_frontmatter, lookup_value, without_frontmatter};
use notemancy_core::scan::{
    build_report, metadata_string, path_components, process_file, strip_trailing_slashes,
    virtual_path_of, ScanError, Scanner, ScannedFile,
};
use notemancy_core::utils::{get_metadata, read_file_content};

fn scanned(vault: &str, path: &str, vpath: &str) -> ScannedFile {
    ScannedFile {
        vault: vault.to_string(),
        local_path: path.to_string(),
        virtual_path: vpath.to_string(),
        metadata: None,
        last_modified: "m".to_string(),
        created: "c".to_string(),
    }
}

#[test]
fn virtual_path_basic() {
    let r = virtual_path_of("/home/user/vault/notes/a.md", "vault");
    assert_eq!(r.unwrap(), "notes/a.md");
}

#[test]
fn virtual_path_missing_indicator() {
    assert!(virtual_path_of("/home/user/docs/a.md", "vault").is_none());
}

#[test]
fn virtual_path_uses_first_occurrence() {
    let r = virtual_path_of("/v/x/v/a.md", "v");
    assert_eq!(r.unwrap(), "x/v/a.md");
}

#[test]
fn path_components_drop_empty() {
    let c = path_components("//a//b/");
    assert_eq!(c, vec!["a".to_string(), "b".to_string()]);
}

#[test]
fn frontmatter_override_absent() {
    // Given indicator "vault", a file without frontmatter keeps the
    // physical tail as its virtual path.
    let r = process_file(
        "/home/u/vault/notes/a.md",
        "vault",
        "main",
        "# Title\nbody\n",
        "2024",
        "2023",
    )
    .unwrap();
    assert_eq!(r.virtual_path, "notes/a.md");
    assert!(r.metadata.is_none());
    assert_eq!(r.vault, "main");
    assert_eq!(r.local_path, "/home/u/vault/notes/a.md");
}

#[test]
fn frontmatter_override_present() {
    // The same file with `folder: projects` moves under that folder.
    let content = "---\nfolder: projects\n---\n# Title\nbody\n";
    let r = process_file("/home/u/vault/notes/a.md", "vault", "main", content, "m", "c").unwrap();
    assert_eq!(r.virtual_path, "projects/notes/a.md");
    let pairs = r.metadata.unwrap();
    assert_eq!(pairs.len(), 1);
    assert_eq!(pairs[0].0, "folder");
    assert_eq!(pairs[0].1, "projects");
}

#[test]
fn frontmatter_override_strips_slashes() {
    let content = "---\nfolder: projects///\n---\nbody\n";
    let r = process_file("/x/vault/a.md", "vault", "main", content, "m", "c").unwrap();
    assert_eq!(r.virtual_path, "projects/a.md");
}

#[test]
fn process_file_indicator_not_found() {
    let r = process_file("/home/u/docs/a.md", "vault", "main", "body", "m", "c");
    match r {
        Err(ScanError::IndicatorNotFound { indicator, path }) => {
            assert_eq!(indicator, "vault");
            assert_eq!(path, "/home/u/docs/a.md");
        }
        _ => panic!("expected IndicatorNotFound"),
    }
}

#[test]
fn scan_error_message_text() {
    let e = ScanError::IndicatorNotFound {
        indicator: "v".to_string(),
        path: "p.md".to_string(),
    };
    assert_eq!(e.message(), "Indicator 'v' not found in path p.md");
}

#[test]
fn extract_frontmatter_pairs() {
    let fm = extract_frontmatter("---\ntitle: Hello\n\ntags: a, b\n---\nbody").unwrap();
    assert_eq!(fm.len(), 2);
    assert_eq!(fm[0], ("title".to_string(), "Hello".to_string()));
    assert_eq!(fm[1], ("tags".to_string(), "a, b".to_string()));
}

#[test]
fn extract_frontmatter_rejects_bad_line() {
    assert!(extract_frontmatter("---\nno colon here\n---\nbody").is_none());
}

#[test]
fn extract_frontmatter_needs_both_fences() {
    assert!(extract_frontmatter("---\ntitle: x\nbody").is_none());
    assert!(extract_frontmatter("title: x\n---\nbody").is_none());
}

#[test]
fn lookup_value_first_match() {
    let pairs = vec![
        ("a".to_string(), "1".to_string()),
        ("b".to_string(), "2".to_string()),
        ("a".to_string(), "3".to_string()),
    ];
    assert_eq!(lookup_value(&pairs, "a").unwrap(), "1");
    assert!(lookup_value(&pairs, "c").is_none());
}

#[test]
fn strip_trailing_slashes_behaviour() {
    assert_eq!(strip_trailing_slashes("a/b///"), "a/b");
    assert_eq!(strip_trailing_slashes("abc"), "abc");
    assert_eq!(strip_trailing_slashes("///"), "");
}

#[test]
fn without_frontmatter_strips_block() {
    let body = without_frontmatter("---\ntitle: x\n---\nreal body\nmore");
    assert_eq!(body, "real body\nmore");
    assert_eq!(without_frontmatter("plain text"), "plain text");
}

#[test]
fn test_read_file_without_metadata() {
    let content = "---\ntitle: Test Document\ndate: 2025-03-08\n---\nThis is the body of the document.\n";
    let body = read_file_content(content, false);
    assert!(body.contains("This is the body"));
    assert!(!body.contains("title:"));
}

#[test]
fn test_get_metadata() {
    let content = "---\ntitle: Metadata Test\ntags: [rust, testing]\n---\nDocument body here.\n";
    let metadata = get_metadata(content);
    assert!(metadata.is_some());
    let meta_str = metadata.unwrap();
    assert!(meta_str.contains("Metadata Test"));
}

#[test]
fn metadata_json_renders_pairs() {
    let mut sf = scanned("v", "p", "vp");
    sf.metadata = Some(vec![
        ("b".to_string(), "2".to_string()),
        ("a".to_string(), "1".to_string()),
    ]);
    // serde_json object keys come out ordered.
    assert_eq!(metadata_string(&sf), "{\"a\":\"1\",\"b\":\"2\"}");
}

#[test]
fn metadata_string_empty_without_frontmatter() {
    let sf = scanned("v", "p", "vp");
    assert_eq!(metadata_string(&sf), "");
}

#[test]
fn scanner_from_settings_prefers_defaults() {
    let config = Config {
        general: Some(GeneralConfig {
            indicator: Some("mark".to_string()),
        }),
        vaults: Some(vec![
            (
                "work".to_string(),
                VaultProperties {
                    default: None,
                    paths: Some(vec!["/w".to_string()]),
                },
            ),
            (
                "main".to_string(),
                VaultProperties {
                    default: Some(true),
                    paths: Some(vec!["/m".to_string()]),
                },
            ),
        ]),
        ai: None,
    };
    let s = Scanner::from_settings(&config);
    assert_eq!(s.indicator, "mark");
    assert_eq!(s.vaults.len(), 1);
    assert_eq!(s.vaults[0].0, "main");
    assert_eq!(s.vaults[0].1, vec!["/m".to_string()]);
}

#[test]
fn scanner_from_settings_falls_back_to_all() {
    let config = Config {
        general: None,
        vaults: Some(vec![
            (
                "one".to_string(),
                VaultProperties {
                    default: None,
                    paths: Some(vec!["/1".to_string()]),
                },
            ),
            (
                "two".to_string(),
                VaultProperties {
                    default: Some(false),
                    paths: Some(vec!["/2".to_string()]),
                },
            ),
            (
                "hollow".to_string(),
                VaultProperties {
                    default: None,
                    paths: None,
                },
            ),
        ]),
        ai: None,
    };
    let s = Scanner::from_settings(&config);
    assert_eq!(s.indicator, "notesy");
    assert_eq!(s.vaults.len(), 2);
    assert_eq!(s.vaults[0].0, "one");
    assert_eq!(s.vaults[1].0, "two");
}

#[test]
fn report_render_no_errors() {
    let scanned_files = vec![scanned("main", "p1", "v1"), scanned("main", "p2", "v2")];
    let report = build_report(&scanned_files, Vec::new());
    let text = report.render();
    assert_eq!(
        text,
        "No errors during markdown scanning.\n\nMarkdown scanning summary:\nVault main: 2 markdown files scanned.\n"
    );
}

#[test]
fn report_render_with_errors() {
    let scanned_files = vec![scanned("a", "p1", "v1"), scanned("b", "p2", "v2")];
    let failures = vec![("bad.md".to_string(), "boom".to_string())];
    let report = build_report(&scanned_files, failures);
    let text = report.render();
    assert_eq!(
        text,
        "The following errors occurred during markdown scanning:\nFile bad.md: boom\n\nMarkdown scanning summary:\nVault a: 1 markdown files scanned.\nVault b: 1 markdown files scanned.\n"
    );
}
