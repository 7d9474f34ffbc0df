use mdpeek::paths::{eq_ignore_case, file_name, join, rel_path, stem_and_extension, top_dir};

fn chars(s: &str) -> Vec<char> {
    s.chars().collect()
}

fn text(v: &[char]) -> String {
    v.iter().collect()
}

fn name(s: &str) -> String {
    text(&file_name(&chars(s)))
}

#[test]
fn file_names_follow_path_components() {
    assert_eq!(name("docs/guide.md"), "guide.md");
    assert_eq!(name("guide.md"), "guide.md");
    assert_eq!(name("a/b/"), "b");
    assert_eq!(name("a//b"), "b");
    assert_eq!(name("a/b/."), "b");
    assert_eq!(name("a/.."), "");
    assert_eq!(name("/"), "");
    assert_eq!(name(""), "");
    assert_eq!(name("."), "");
    assert_eq!(name("./x"), "x");
}

fn split(s: &str) -> (String, Option<String>) {
    let (stem, ext) = stem_and_extension(&chars(s));
    (text(&stem), ext.map(|e| text(&e)))
}

#[test]
fn stems_and_extensions() {
    assert_eq!(split("guide.md"), ("guide".to_string(), Some("md".to_string())));
    assert_eq!(split("archive.tar.gz"), ("archive.tar".to_string(), Some("gz".to_string())));
    assert_eq!(split(".bashrc"), (".bashrc".to_string(), None));
    assert_eq!(split("README"), ("README".to_string(), None));
    assert_eq!(split("a."), ("a".to_string(), Some("".to_string())));
}

#[test]
fn ascii_case_insensitive_comparison() {
    assert!(eq_ignore_case(&chars("MD"), &chars("md")));
    assert!(eq_ignore_case(&chars("mDx"), &chars("MdX")));
    assert!(!eq_ignore_case(&chars("md"), &chars("mdx")));
    assert!(!eq_ignore_case(&chars("é"), &chars("É")));
}

#[test]
fn top_dirs() {
    assert_eq!(text(&top_dir(&chars("docs/a/b.md"))), "docs");
    assert_eq!(text(&top_dir(&chars("README.md"))), "");
}

#[test]
fn joins_with_one_separator() {
    assert_eq!(text(&join(&chars("/cache"), &chars("repos"))), "/cache/repos");
    assert_eq!(text(&join(&chars("/cache/"), &chars("repos"))), "/cache/repos");
    assert_eq!(text(&join(&chars(""), &chars("repos"))), "repos");
}

#[test]
fn relative_paths_strip_the_root() {
    assert_eq!(rel_path("/repo", "/repo/docs/a.md"), "docs/a.md");
    assert_eq!(rel_path("/repo/", "/repo/a.md"), "a.md");
    assert_eq!(rel_path("/other", "/repo/a.md"), "/repo/a.md");
    assert_eq!(rel_path("/repo", "/repo/x\\y.md"), "x/y.md");
}
