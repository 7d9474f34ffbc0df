use mdpeek::repo::{ancestors, find_root, is_doc_path, is_extra_ignored};

#[test]
fn ancestors_walk_up_to_root() {
    assert_eq!(ancestors("/a/b/c"), vec!["/a/b/c", "/a/b", "/a", "/"]);
    assert_eq!(ancestors("/"), vec!["/"]);
}

#[test]
fn find_root_picks_nearest_git_dir() {
    assert_eq!(find_root("/a/b/c", &vec![false, false, true, false]), "/a");
    assert_eq!(find_root("/a/b/c", &vec![false, true, true, false]), "/a/b");
    assert_eq!(find_root("/a/b/c", &vec![true, false, false, false]), "/a/b/c");
}

#[test]
fn find_root_falls_back_to_start_dir() {
    assert_eq!(find_root("/a/b/c", &vec![false, false, false, false]), "/a/b/c");
    assert_eq!(find_root("/a/b/c", &vec![]), "/a/b/c");
}

#[test]
fn doc_extensions() {
    assert!(is_doc_path("/r/a.md"));
    assert!(is_doc_path("/r/b.mdx"));
    assert!(is_doc_path("/r/c.txt"));
    assert!(is_doc_path("/r/sub/e.MD"));
    assert!(!is_doc_path("/r/d.rs"));
    assert!(!is_doc_path("/r/.md"));
    assert!(!is_doc_path("/r/md"));
}

#[test]
fn build_and_vendor_dirs_are_skipped() {
    for n in ["node_modules", "vendor", "target", "dist", "build"] {
        assert!(is_extra_ignored(n));
    }
    assert!(!is_extra_ignored("docs"));
    assert!(!is_extra_ignored("Build"));
}
