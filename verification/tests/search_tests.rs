//! Snippets, titles, previews and the shared text utilities.

use notemancy_core::search::{
    extract_relevant_snippet, extract_title_from_markdown, paragraphs_of, preview_snippet,
    term_score, words_of,
};
use notemancy_core::text::{
    contains_sub, has_prefix, has_suffix, join_with, split_str, trim_str, usize_to_string,
};
use notemancy_core::db::Database;
use notemancy_core::scan::{metadata_string, process_file};

fn terms(ts: &[&str]) -> Vec<String> {
    ts.iter().map(|t| t.to_string()).collect()
}

#[test]
fn snippet_empty_inputs() {
    assert!(extract_relevant_snippet("", &terms(&["x"]), 150).is_none());
    assert!(extract_relevant_snippet("text", &terms(&[]), 150).is_none());
    assert!(extract_relevant_snippet("# only a heading", &terms(&["x"]), 150).is_none());
}

#[test]
fn snippet_short_winning_paragraph() {
    let content = "# Title\n\nfirst paragraph without it\n\nthe wiki word lives here\n";
    let s = extract_relevant_snippet(content, &terms(&["wiki"]), 150).unwrap();
    assert_eq!(s, "the wiki word lives here");
}

#[test]
fn snippet_no_match_returns_first_paragraph() {
    let content = "alpha beta\n\ngamma delta\n";
    let s = extract_relevant_snippet(content, &terms(&["zzz"]), 150).unwrap();
    assert_eq!(s, "alpha beta");
}

#[test]
fn snippet_no_match_truncates_first_paragraph() {
    let content = "abcdefghij klmnopqrst\n\nshort\n";
    let s = extract_relevant_snippet(content, &terms(&["zzz"]), 10).unwrap();
    assert_eq!(s, "abcdefg...");
    assert_eq!(s.chars().count(), 10);
}

#[test]
fn snippet_window_selection() {
    // Fifteen words, the term at position twelve: the first best window
    // starts at three, expands two words left, and reaches the end.
    let content = "w0 w1 w2 w3 w4 w5 w6 w7 w8 w9 w10 w11 wiki w13 w14";
    let s = extract_relevant_snippet(content, &terms(&["wiki"]), 500).unwrap();
    assert_eq!(s, "... w1 w2 w3 w4 w5 w6 w7 w8 w9 w10 w11 wiki w13 w14");
}

#[test]
fn snippet_matching_is_case_insensitive() {
    let content = "one two\n\nthe WIKI word is here\n";
    let s = extract_relevant_snippet(content, &terms(&["wiki"]), 150).unwrap();
    assert_eq!(s, "the WIKI word is here");
    assert_eq!(term_score("the WIKI word", &terms(&["wiki", "word", "absent"])), 2);
}

#[test]
fn paragraphs_group_lines() {
    let ps = paragraphs_of("a\nb\n\n\nc\n");
    assert_eq!(ps, vec!["a\nb".to_string(), "c".to_string()]);
}

#[test]
fn title_from_first_heading() {
    assert_eq!(extract_title_from_markdown("# Hello\nworld", "/v/a.md"), "Hello");
    assert_eq!(extract_title_from_markdown("intro\n# Later\n", "/v/a.md"), "Later");
}

#[test]
fn title_falls_back_to_file_stem() {
    assert_eq!(extract_title_from_markdown("no heading", "/v/notes/report.md"), "report");
    assert_eq!(extract_title_from_markdown("no heading", ""), "Untitled");
}

#[test]
fn preview_takes_three_plain_lines() {
    let p = preview_snippet("# head\none\ntwo\nthree\nfour");
    assert_eq!(p, "one two three");
}

#[test]
fn preview_truncates_long_text() {
    let long_line = "a".repeat(200);
    let p = preview_snippet(&long_line);
    assert_eq!(p.chars().count(), 150);
    assert!(p.ends_with("..."));
}

#[test]
fn words_split_on_any_whitespace() {
    let w = words_of("one\ttwo\nthree  four ");
    assert_eq!(
        w,
        vec!["one".to_string(), "two".to_string(), "three".to_string(), "four".to_string()]
    );
}

#[test]
fn text_contains_and_affixes() {
    assert!(contains_sub("hello world", "lo wo"));
    assert!(!contains_sub("hello", "world"));
    assert!(contains_sub("abc", ""));
    assert!(has_prefix("markdown", "mark"));
    assert!(!has_prefix("mark", "markdown"));
    assert!(has_suffix("notes/a.md", ".md"));
    assert!(!has_suffix("notes/a.txt", ".md"));
}

#[test]
fn text_split_join_trim() {
    let parts = split_str("a,b,,c", ',');
    assert_eq!(
        parts,
        vec!["a".to_string(), "b".to_string(), "".to_string(), "c".to_string()]
    );
    assert_eq!(join_with(&parts, ','), "a,b,,c");
    assert_eq!(trim_str("  padded\t\n"), "padded");
}

#[test]
fn decimal_rendering() {
    assert_eq!(usize_to_string(0), "0");
    assert_eq!(usize_to_string(7), "7");
    assert_eq!(usize_to_string(9041), "9041");
}

#[test]
fn scenario_two_documents() {
    // Vault `main` with indicator "main": two files land under their bare
    // names, and a search for "wiki" points at the first document only,
    // with a snippet that holds the word.
    let a = process_file("/root/main/a.md", "main", "main", "# Hello\nworld wiki", "t", "c")
        .unwrap();
    let b = process_file("/root/main/b.md", "main", "main", "# Bye\nlinks here", "t", "c")
        .unwrap();
    let mut db = Database::new();
    db.add_page("main", &a.local_path, &a.virtual_path, &metadata_string(&a), "t", "c");
    db.add_page("main", &b.local_path, &b.virtual_path, &metadata_string(&b), "t", "c");
    let tree = db.get_file_tree();
    assert_eq!(tree.len(), 2);
    assert_eq!(tree[0].virtual_path, "a.md");
    assert_eq!(tree[1].virtual_path, "b.md");

    let q = terms(&["wiki"]);
    assert_eq!(term_score("# Hello\nworld wiki", &q), 1);
    assert_eq!(term_score("# Bye\nlinks here", &q), 0);
    let snippet = preview_snippet("# Hello\nworld wiki");
    assert!(!snippet.is_empty());
    assert!(snippet.contains("wiki"));
}
