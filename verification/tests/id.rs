use mdpeek::id::{doc_id, repo_hash, section_id};

#[test]
fn doc_id_is_8_hex() {
    let id = doc_id("docs/design.md");
    assert_eq!(id.len(), 8);
    assert!(id.chars().all(|c| c.is_ascii_hexdigit()));
}

#[test]
fn doc_id_is_stable() {
    assert_eq!(doc_id("a/b.md"), doc_id("a/b.md"));
}

#[test]
fn doc_id_differs_by_path() {
    assert_ne!(doc_id("a/b.md"), doc_id("a/c.md"));
}

#[test]
fn section_id_is_6_hex() {
    let id = section_id(b"# Heading\nbody text\n");
    assert_eq!(id.len(), 6);
    assert!(id.chars().all(|c| c.is_ascii_hexdigit()));
}

#[test]
fn section_id_differs_by_content() {
    assert_ne!(section_id(b"# A\nbody\n"), section_id(b"# B\nbody\n"));
}

#[test]
fn repo_hash_is_stable_per_path() {
    let a = repo_hash("/tmp/some/repo");
    let b = repo_hash("/tmp/some/repo");
    assert_eq!(a, b);
    assert_eq!(a.len(), 16);
}

#[test]
fn repo_hash_differs_for_different_paths() {
    assert_ne!(repo_hash("/tmp/repo-a"), repo_hash("/tmp/repo-b"));
}

#[test]
fn ids_are_lowercase_sha256_prefixes() {
    // SHA-256 of the empty input starts e3b0c442 98fc1c14...
    assert_eq!(doc_id(""), "e3b0c442");
    assert_eq!(section_id(b""), "e3b0c4");
    assert_eq!(repo_hash(""), "e3b0c44298fc1c14");
    // SHA-256("abc") = ba7816bf 8f01cfea...
    assert_eq!(doc_id("abc"), "ba7816bf");
}

#[test]
fn section_id_is_doc_id_prefix() {
    for p in ["docs/a.md", "", "README.md", "日本.md"] {
        assert_eq!(section_id(p.as_bytes()), doc_id(p)[..6]);
    }
}

#[test]
fn hex_prefix_shorter_is_prefix_of_longer() {
    let long = mdpeek::id::hex_prefix(b"notes/a.md", 64);
    assert_eq!(long.len(), 64);
    assert!(long.chars().all(|c| matches!(c, '0'..='9' | 'a'..='f')));
    for n in 0..=64 {
        assert_eq!(mdpeek::id::hex_prefix(b"notes/a.md", n), long[..n]);
    }
    assert_eq!(mdpeek::id::hex_prefix(b"notes/a.md", 8), mdpeek::id::doc_id("notes/a.md"));
}
