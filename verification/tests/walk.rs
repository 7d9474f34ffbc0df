use mdpeek::repo::is_extra_ignored;
use mdpeek::walk::{path_components, select_docs, SelectError};

fn strings(v: &[&str]) -> Vec<String> {
    v.iter().map(|s| s.to_string()).collect()
}

fn file_names(docs: &[String]) -> Vec<String> {
    docs.iter()
        .map(|p| p.rsplit('/').next().unwrap().to_string())
        .collect()
}

#[test]
fn walk_docs_filters_by_extension() {
    let walked = strings(&[
        "/tmp/r/d.rs",
        "/tmp/r/sub/e.MD",
        "/tmp/r/c.txt",
        "/tmp/r/a.md",
        "/tmp/r/b.mdx",
    ]);
    let docs = select_docs("/tmp/r", &vec![], &walked).unwrap();
    assert_eq!(file_names(&docs), vec!["a.md", "b.mdx", "c.txt", "e.MD"]);
}

#[test]
fn walk_docs_skips_node_modules() {
    // The walk never descends into a directory whose name is skipped.
    let found = ["/tmp/r/README.md", "/tmp/r/node_modules/pkg/readme.md"];
    let walked: Vec<String> = found
        .iter()
        .filter(|p| !p.split('/').any(is_extra_ignored))
        .map(|p| p.to_string())
        .collect();
    let docs = select_docs("/tmp/r", &vec![], &walked).unwrap();
    assert_eq!(file_names(&docs), vec!["README.md"]);
}

#[test]
fn walk_docs_applies_user_ignores() {
    let walked = strings(&["/tmp/r/drafts/a.md", "/tmp/r/keep.md", "/tmp/r/drafts/b.md"]);
    let docs = select_docs("/tmp/r", &strings(&["drafts/**"]), &walked).unwrap();
    assert_eq!(file_names(&docs), vec!["keep.md"]);
}

#[test]
fn select_docs_sorts_by_component() {
    // `a/b.md` sorts before `a-c.md`: the component `a` is a prefix of `a-c.md`.
    let walked = strings(&["/r/a-c.md", "/r/a/b.md", "/r/A.md", "/r/a.md"]);
    let docs = select_docs("/r", &vec![], &walked).unwrap();
    assert_eq!(docs, strings(&["/r/A.md", "/r/a/b.md", "/r/a-c.md", "/r/a.md"]));
}

#[test]
fn select_docs_keeps_walk_duplicates_and_empty_input() {
    let walked = strings(&["/r/x.md", "/r/x.md"]);
    assert_eq!(select_docs("/r", &vec![], &walked).unwrap(), walked);
    assert_eq!(select_docs("/r", &vec![], &vec![]).unwrap(), Vec::<String>::new());
}

#[test]
fn select_docs_pattern_without_slash_matches_anywhere() {
    let walked = strings(&["/r/notes/todo.md", "/r/todo.md", "/r/done.md"]);
    let docs = select_docs("/r", &strings(&["todo.md"]), &walked).unwrap();
    assert_eq!(docs, strings(&["/r/done.md"]));
}

#[test]
fn select_docs_rejects_first_invalid_pattern() {
    let walked = strings(&["/r/a.md"]);
    let err = select_docs("/r", &strings(&["ok/**", "[z-a]", "{a"]), &walked).unwrap_err();
    assert_eq!(err, SelectError::InvalidPattern { pattern: "[z-a]".to_string() });
    assert_eq!(err.message(), "invalid user-ignore pattern: [z-a]");
    assert_eq!(SelectError::Matcher.message(), "build user-ignore matcher");
}

#[test]
fn path_components_skip_empty_and_dot_pieces() {
    let c = |s: &str| -> Vec<String> {
        path_components(&s.chars().collect())
            .iter()
            .map(|v| v.iter().collect())
            .collect()
    };
    assert_eq!(c("/a//./b/"), strings(&["", "a", "b"]));
    assert_eq!(c("a/b"), strings(&["a", "b"]));
    assert_eq!(c(""), Vec::<String>::new());
}
