use mdpeek::cache::paths_for_in;
use mdpeek::id::repo_hash;

#[test]
fn paths_sit_under_the_repo_hash() {
    let p = paths_for_in("/home/u/repo", "/home/u/.cache/mdpeek");
    let h = repo_hash("/home/u/repo");
    assert_eq!(p.root, format!("/home/u/.cache/mdpeek/repos/{h}"));
    assert_eq!(p.db, format!("/home/u/.cache/mdpeek/repos/{h}/mdpeek.db"));
    assert_eq!(p.tantivy, format!("/home/u/.cache/mdpeek/repos/{h}/tantivy"));
}

#[test]
fn paths_are_stable_and_differ_per_repo() {
    let a1 = paths_for_in("/r/a", "/c");
    let a2 = paths_for_in("/r/a", "/c");
    let b = paths_for_in("/r/b", "/c");
    assert_eq!(a1.root, a2.root);
    assert_eq!(a1.db, a2.db);
    assert_ne!(a1.root, b.root);
}

#[test]
fn paths_for_in_is_idempotent() {
    let p1 = paths_for_in("/home/u/repo", "/tmp/xdg");
    let p2 = paths_for_in("/home/u/repo", "/tmp/xdg");
    assert_eq!(p1.root, p2.root);
    assert_eq!(p1.db, p2.db);
    assert_eq!(p1.tantivy, p2.tantivy);
}

#[test]
fn paths_for_uses_the_user_cache_dir() {
    if let Some(p) = mdpeek::cache::paths_for("/r/x") {
        assert!(p.root.contains("/mdpeek/repos/"));
        assert!(p.root.ends_with(&repo_hash("/r/x")));
        assert!(p.db.ends_with("/mdpeek.db"));
        assert!(p.tantivy.ends_with("/tantivy"));
    }
}

#[test]
fn paths_under_cache_follow_the_lookup() {
    assert!(mdpeek::cache::paths_under_cache("/r/x", None).is_none());
    let p = mdpeek::cache::paths_under_cache("/r/x", Some("/home/u/.cache")).unwrap();
    let h = repo_hash("/r/x");
    assert_eq!(p.root, format!("/home/u/.cache/mdpeek/repos/{h}"));
    assert_eq!(p.db, format!("/home/u/.cache/mdpeek/repos/{h}/mdpeek.db"));
}
