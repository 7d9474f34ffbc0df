use mdpeek::db::SectionRow;

fn sec(level: i64, heading: &str, id: &str, tokens: i64, code: i64, snippet: &str) -> SectionRow {
    SectionRow {
        doc_id: "aaaaaaaa".into(),
        section_id: id.into(),
        seq: 0,
        level,
        heading: heading.into(),
        heading_path: "".into(),
        snippet: snippet.into(),
        tokens,
        code_tokens: code,
        content: vec![],
    }
}

#[test]
fn outline_text_lists_sections_with_snippets() {
    let secs = vec![sec(1, "Intro", "7e4af3", 274, 0, "Hello there."), sec(2, "Build", "9c9999", 92, 40, "")];
    let out = mdpeek::outline::render_text("b3356305", "README.md", 954, &secs);
    assert_eq!(
        out,
        "README.md  [b3356305]  954 tokens\n\n\
# Intro  [sec:7e4af3]  (274 tokens)\nHello there.\n\n\
## Build  [sec:9c9999]  (92 tokens, 40 code)\n\n"
    );
}

#[test]
fn root_sections_get_one_mark() {
    let secs = vec![sec(0, "notes", "abcdef", 3, 0, "")];
    let out = mdpeek::outline::render_text("11111111", "notes.txt", 3, &secs);
    assert!(out.contains("\n# notes  [sec:abcdef]  (3 tokens)\n"));
}

#[test]
fn toc_text_has_headings_only() {
    let secs = vec![sec(1, "Intro", "7e4af3", 274, 5, "Hello there."), sec(3, "Deep", "aaaaaa", 1, 0, "x")];
    let out = mdpeek::toc::render_text("b3356305", "README.md", 954, &secs);
    assert_eq!(
        out,
        "README.md  [b3356305]  954 tokens\n# Intro  [sec:7e4af3]  (274 tokens)\n### Deep  [sec:aaaaaa]  (1 tokens)\n"
    );
}
