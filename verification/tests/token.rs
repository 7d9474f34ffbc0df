use mdpeek::token::{count, truncate};

#[test]
fn empty_is_zero() {
    assert_eq!(count(""), 0);
}

#[test]
fn ascii_hello_world() {
    // "hello world" encodes to 2 tokens in cl100k_base.
    assert_eq!(count("hello world"), 2);
}

#[test]
fn longer_text_scales() {
    let short = count("the quick brown fox");
    let long = count(&"the quick brown fox ".repeat(10));
    assert!(long > short * 5, "expected ~10x tokens, got {short} vs {long}");
}

#[test]
fn truncate_within_budget_not_truncated() {
    let t = truncate("hello world", 0, 100);
    assert_eq!(t.text, "hello world");
    assert!(!t.truncated);
    assert_eq!(t.total_tokens, 2);
}

#[test]
fn truncate_over_budget_is_truncated() {
    let long = "the quick brown fox jumps over the lazy dog";
    let total = count(long);
    let t = truncate(long, 0, 2);
    assert!(t.truncated);
    assert!(count(&t.text) <= 2);
    assert_eq!(t.total_tokens, total);
}

#[test]
fn truncate_start_skips_tokens() {
    let text = "alpha bravo charlie delta echo";
    let full = truncate(text, 0, 100);
    let skipped = truncate(text, 2, 100);
    assert!(skipped.text.len() < full.text.len());
    assert!(!skipped.text.starts_with("alpha"));
}

#[test]
fn truncate_start_past_end_returns_empty() {
    let t = truncate("hello world", 999, 100);
    assert_eq!(t.text, "");
    assert!(!t.truncated);
}

#[test]
fn truncate_window_pages_through_text() {
    let text = "hello world";
    let first = truncate(text, 0, 1);
    let second = truncate(text, 1, 1);
    assert_eq!(first.text, "hello");
    assert_eq!(second.text, " world");
    assert!(first.truncated);
    assert!(!second.truncated);
    assert_eq!(format!("{}{}", first.text, second.text), text);
}

#[test]
fn truncate_zero_budget_is_empty_and_truncated() {
    let t = truncate("hello world", 0, 0);
    assert_eq!(t.text, "");
    assert!(t.truncated);
}

#[test]
fn whole_window_gives_the_text_back() {
    for t in ["", "hello world", "naïve café — 日本語 🎉", "  spaced\n\nlines\t"] {
        let r = truncate(t, 0, usize::MAX);
        assert_eq!(r.text, t);
        assert!(!r.truncated);
    }
}
