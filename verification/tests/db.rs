use mdpeek::db::{resolve_doc_id, resolve_doc_id_or_path, LookupError, SCHEMA_VERSION};

fn ids(v: &[&str]) -> Vec<String> {
    v.iter().map(|s| s.to_string()).collect()
}

#[test]
fn resolve_doc_id_prefix_decisions() {
    // What the prefix query returns for docs abc12345 and abd67890.
    assert_eq!(resolve_doc_id("abc12345", ids(&["abc12345"])).unwrap(), "abc12345");
    assert_eq!(resolve_doc_id("abc", ids(&["abc12345"])).unwrap(), "abc12345");
    assert!(resolve_doc_id("ab", ids(&["abc12345", "abd67890"])).unwrap_err().message().contains("multiple"));
    assert!(resolve_doc_id("zz", ids(&[])).unwrap_err().message().contains("no doc"));
}

#[test]
fn lookup_messages() {
    assert_eq!(resolve_doc_id("zz", vec![]).unwrap_err().message(), "no doc matching 'zz'");
    assert_eq!(
        resolve_doc_id("ab", ids(&["abc12345", "abd67890"])).unwrap_err().message(),
        "doc id 'ab' matches multiple: abc12345, abd67890"
    );
    let e = resolve_doc_id("ab", ids(&["abc12345", "abd67890"])).unwrap_err();
    assert_eq!(
        e,
        LookupError::AmbiguousDoc { prefix: "ab".into(), candidates: ids(&["abc12345", "abd67890"]) }
    );
}

#[test]
fn path_is_tried_when_prefix_fails() {
    assert_eq!(resolve_doc_id_or_path("docs/a.md", vec![], Some("a3f1b208".into())).unwrap(), "a3f1b208");
    assert_eq!(
        resolve_doc_id_or_path("a3", ids(&["a3f1b208"]), Some("ffffffff".into())).unwrap(),
        "a3f1b208"
    );
    assert_eq!(
        resolve_doc_id_or_path("a", ids(&["a1", "a2"]), Some("cccccccc".into())).unwrap(),
        "cccccccc"
    );
    let e = resolve_doc_id_or_path("nope.md", vec![], None).unwrap_err();
    assert_eq!(e.message(), "no doc matching 'nope.md'");
}

#[test]
fn schema_version_is_one() {
    assert_eq!(SCHEMA_VERSION, 1);
}
