use mdpeek::db::DocRow;
use mdpeek::index::{listing, render_text, truncate};

fn row(dir: &str, id: &str, title: &str, tokens: i64, mtime: i64) -> DocRow {
    DocRow {
        doc_id: id.into(),
        rel_path: format!("{dir}/{id}.md").trim_start_matches('/').into(),
        dir: dir.into(),
        title: title.into(),
        tokens,
        mtime_unix: mtime,
        size_bytes: 0,
        is_markdown: true,
    }
}

#[test]
fn text_groups_by_dir_with_headers() {
    let rows = vec![
        (row("", "aaaaaaaa", "Root doc", 10, 0), 1),
        (row("docs", "bbbbbbbb", "Intro", 20, 0), 2),
        (row("docs", "cccccccc", "Deep Dive", 30, 0), 3),
    ];
    let out = render_text(&rows);
    assert!(out.contains("./\n"));
    assert!(out.contains("docs/\n"));
    assert!(out.contains("aaaaaaaa"));
    assert!(out.contains("Intro"));
    assert_eq!(out.matches("| ID       |").count(), 2);
    assert!(out.contains("| File"));
    assert!(out.contains("aaaaaaaa.md"));
}

#[test]
fn listing_shape_matches_design() {
    let rows = vec![(row("docs", "a3f1b208", "Getting Started", 1243, 0), 3)];
    let v = listing(&rows);
    assert_eq!(v.total_docs, 1);
    assert_eq!(v.total_tokens, 1243);
    assert_eq!(v.groups[0].dir, "docs");
    assert_eq!(v.groups[0].docs[0].id, "a3f1b208");
    assert_eq!(v.groups[0].docs[0].file, "a3f1b208.md");
    assert_eq!(v.groups[0].docs[0].title, "Getting Started");
    assert_eq!(v.groups[0].docs[0].section_count, 3);
    assert_eq!(v.groups[0].docs[0].modified, "1970-01-01T00:00:00Z");
}

#[test]
fn truncate_ellipsizes() {
    assert_eq!(truncate("hello", 10), "hello");
    let t = truncate("abcdefghij", 5);
    assert_eq!(t.chars().count(), 5);
    assert!(t.ends_with('…'));
}

#[test]
fn truncate_edges() {
    assert_eq!(truncate("abcde", 5), "abcde");
    assert_eq!(truncate("abcdef", 5), "abcd…");
    assert_eq!(truncate("ab", 0), "…");
    assert_eq!(truncate("", 0), "");
    assert_eq!(truncate("héllo wörld", 6), "héllo…");
}

#[test]
fn text_exact_layout() {
    let rows = vec![(row("", "aaaaaaaa", "Root doc", 10, 1_709_164_800), 1)];
    let out = render_text(&rows);
    let expected = "./\n\
| ID       | File                 | Title                          | Tokens | Modified   |\n\
|----------|----------------------|--------------------------------|--------|------------|\n\
| aaaaaaaa | aaaaaaaa.md          | Root doc                       |     10 | 2024-02-29 |\n";
    assert_eq!(out, expected);
}

#[test]
fn text_separates_groups_with_blank_line() {
    let rows = vec![
        (row("a", "11111111", "One", 1, 0), 0),
        (row("b", "22222222", "Two", 2, 0), 0),
    ];
    let out = render_text(&rows);
    assert!(out.contains("|\n\nb/\n"));
    assert!(out.starts_with("a/\n"));
}

#[test]
fn listing_groups_runs_and_sums_tokens() {
    let rows = vec![
        (row("", "aaaaaaaa", "Root", 10, 0), 1),
        (row("docs", "bbbbbbbb", "B", 20, 0), 2),
        (row("docs", "cccccccc", "C", 30, 0), 3),
    ];
    let v = listing(&rows);
    assert_eq!(v.total_docs, 3);
    assert_eq!(v.total_tokens, 60);
    assert_eq!(v.groups.len(), 2);
    assert_eq!(v.groups[0].dir, "");
    assert_eq!(v.groups[1].docs.len(), 2);
    assert_eq!(v.groups[1].docs[1].id, "cccccccc");
    assert_eq!(v.groups[1].docs[1].path, "docs/cccccccc.md");
}

#[test]
fn empty_listing() {
    let rows: Vec<(DocRow, i64)> = Vec::new();
    assert_eq!(render_text(&rows), "");
    let v = listing(&rows);
    assert_eq!(v.total_docs, 0);
    assert_eq!(v.total_tokens, 0);
    assert!(v.groups.is_empty());
}

#[test]
fn search_table_layout() {
    let h = mdpeek::search::header();
    assert!(h.starts_with("| Doc      | Sec    | Path                           |"));
    assert_eq!(h.lines().count(), 2);
    let line = mdpeek::search::hit_line(
        "452a5c75",
        "0a4365",
        "hack/tools/golangci-lint/sort/README.md",
        "Installation",
        3,
        "39.02",
    );
    assert_eq!(
        line,
        "| 452a5c75 | 0a4365 | hack/tools/golangci-lint/sort… | Installation                   |      3 | 39.02 |\n"
    );
}
