use mdpeek::db::LookupError;
use mdpeek::show::{
    end_token, maybe_truncate, parse_targets, prepare, prepare_chars, resolve_section, strip_sec_prefix, Budget,
    SectionHit,
};

fn chars(s: &str) -> Vec<char> {
    s.chars().collect()
}

fn text(v: &[char]) -> String {
    v.iter().collect()
}

fn targets(ts: &[&str]) -> Vec<(String, Option<String>)> {
    let v: Vec<String> = ts.iter().map(|s| s.to_string()).collect();
    parse_targets(&v).into_iter().map(|t| (t.doc, t.section)).collect()
}

#[test]
fn targets_with_colon_split_into_doc_and_section() {
    assert_eq!(
        targets(&["a3f1:4f21", "b208"]),
        vec![("a3f1".to_string(), Some("4f21".to_string())), ("b208".to_string(), None)]
    );
    assert_eq!(targets(&["a3f1:sec:4f21"]), vec![("a3f1".to_string(), Some("4f21".to_string()))]);
}

#[test]
fn two_targets_as_doc_and_section() {
    assert_eq!(targets(&["a3f1b208", "sec:4f21a9"]), vec![("a3f1b208".to_string(), Some("4f21a9".to_string()))]);
    assert_eq!(targets(&["a3f1b208", "4f21a9"]), vec![("a3f1b208".to_string(), Some("4f21a9".to_string()))]);
    assert_eq!(
        targets(&["a3f1b208", "docs"]),
        vec![("a3f1b208".to_string(), None), ("docs".to_string(), None)]
    );
    assert_eq!(
        targets(&["a.md", "b/c.md"]),
        vec![("a.md".to_string(), None), ("b/c.md".to_string(), None)]
    );
}

#[test]
fn sec_prefix_is_stripped() {
    assert_eq!(text(&strip_sec_prefix(&chars("sec:abc"))), "abc");
    assert_eq!(text(&strip_sec_prefix(&chars("abc"))), "abc");
    assert_eq!(text(&strip_sec_prefix(&chars("sec"))), "sec");
}

#[test]
fn no_code_replaces_fenced_blocks() {
    let t = chars("intro\n```\nlet x = 1;\nlet y = 2;\n```\nafter\n");
    assert_eq!(text(&prepare_chars(&t, true)), "intro\n[code: 2 lines]\nafter\n");
    assert_eq!(text(&prepare_chars(&t, false)), "intro\n```\nlet x = 1;\nlet y = 2;\n```\nafter\n");
}

#[test]
fn no_code_unclosed_fence_reports_lines() {
    let t = chars("a\n~~~\nx\ny");
    assert_eq!(text(&prepare_chars(&t, true)), "a\n[code: 2 lines]\n");
    let empty = chars("a\n```\n");
    assert_eq!(text(&prepare_chars(&empty, true)), "a\n");
}

#[test]
fn budget_truncates_only_when_set() {
    let none = Budget { max_tokens: None, start_token: 0, no_code: false };
    assert_eq!(maybe_truncate("hello world", &none), "hello world");
    let one = Budget { max_tokens: Some(1), start_token: 0, no_code: false };
    assert_eq!(maybe_truncate("hello world", &one), "hello");
}

#[test]
fn end_token_counts_what_fits() {
    assert_eq!(end_token(0, 500, 120), 120);
    assert_eq!(end_token(100, 10, 120), 110);
    assert_eq!(end_token(200, 10, 120), 200);
}

fn hit(id: &str) -> SectionHit {
    SectionHit { section_id: id.into(), heading: "H".into(), tokens: 1, content: b"# H\n".to_vec() }
}

#[test]
fn section_resolution_needs_exactly_one_match() {
    let one = resolve_section("aaaaaaaa", "4f", vec![hit("4f21a9")]).unwrap();
    assert_eq!(one.section_id, "4f21a9");
    let none = resolve_section("aaaaaaaa", "zz", vec![]).unwrap_err();
    assert_eq!(none.message(), "no section matching 'zz' in doc aaaaaaaa");
    assert!(matches!(none, LookupError::NoSection { .. }));
    let many = resolve_section("aaaaaaaa", "4", vec![hit("4f21a9"), hit("4f99aa")]).unwrap_err();
    assert_eq!(many.message(), "section id '4' matches multiple: 4f21a9, 4f99aa");
}

#[test]
fn prepare_follows_the_budget() {
    let code = Budget { max_tokens: None, start_token: 0, no_code: true };
    let keep = Budget { max_tokens: None, start_token: 0, no_code: false };
    let t = "a\n```\nx\n```\n";
    assert_eq!(prepare(t, &code), "a\n[code: 1 lines]\n");
    assert_eq!(prepare(t, &keep), t);
}

#[test]
fn stored_sections_rejoin_into_the_document() {
    let md = b"intro\n\n# A\nbody\n\n## B\nmore\n";
    let secs = mdpeek::parse::parse(md, "x", true);
    let blobs: Vec<Vec<u8>> = secs.iter().map(|s| s.content.clone()).collect();
    assert_eq!(mdpeek::show::join_contents(&blobs), md.to_vec());
    assert_eq!(mdpeek::show::join_contents(&vec![]), Vec::<u8>::new());
}

#[test]
fn content_json_fields_follow_the_budget() {
    let none = Budget { max_tokens: None, start_token: 0, no_code: false };
    let c = mdpeek::show::content_json("aaaaaaaa", "a.md", Some("T".into()), None, None, 2, "hello world", &none);
    assert_eq!(c.content, "hello world");
    assert!(c.window.is_none());
    assert_eq!(c.title.as_deref(), Some("T"));
    let one = Budget { max_tokens: Some(1), start_token: 1, no_code: false };
    let c = mdpeek::show::content_json("aaaaaaaa", "a.md", None, Some("4f21a9".into()), Some("H".into()), 2, "hello world", &one);
    assert_eq!(c.content, " world");
    let w = c.window.unwrap();
    assert_eq!((w.start_token, w.end_token, w.truncated), (1, 2, false));
    let past = Budget { max_tokens: Some(5), start_token: 10, no_code: false };
    let c = mdpeek::show::content_json("aaaaaaaa", "a.md", None, None, None, 2, "hello world", &past);
    assert_eq!(c.content, "");
    let w = c.window.unwrap();
    assert_eq!((w.start_token, w.end_token, w.truncated), (10, 10, false));
}

#[test]
fn code_stripping_is_idempotent() {
    let code = Budget { max_tokens: None, start_token: 0, no_code: true };
    for t in ["a\n```\nx\n```\nb\n~~~\ny\nz", "```\n", "plain\ntext", "  ```rust\nfn f() {}\n  ```\n"] {
        let once = prepare(t, &code);
        assert_eq!(prepare(&once, &code), once);
        assert!(once.lines().all(|l| !l.trim_start().starts_with("```") && !l.trim_start().starts_with("~~~")));
    }
}
