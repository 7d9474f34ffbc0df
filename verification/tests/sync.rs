use mdpeek::db::DocStat;
use mdpeek::parse::parse;
use mdpeek::sync::{
    classify, derive_title, doc_rows, has_enough_words, parse_i64, plan_sync, recent_enough, Change,
    FileSeen, SyncReport,
};

fn stat(id: &str, rel: &str, mtime: i64, size: i64) -> DocStat {
    DocStat { doc_id: id.into(), rel_path: rel.into(), mtime_unix: mtime, size_bytes: size }
}

fn seen(rel: &str, mtime: i64, size: i64, utf8: bool) -> FileSeen {
    FileSeen { rel_path: rel.into(), mtime_unix: mtime, size_bytes: size, is_utf8: utf8 }
}

#[test]
fn plan_skips_binary_files() {
    let files = vec![seen("bad.txt", 1, 10, false), seen("good.md", 1, 12, true)];
    let plan = plan_sync(&vec![], &files);
    assert_eq!(plan.report.added, 1);
    assert_eq!(plan.report.skipped_binary.len(), 1);
    assert!(plan.report.skipped_binary[0].contains("bad.txt"));
    assert_eq!(plan.upserts, vec![1]);
}

#[test]
fn plan_adds_new_files() {
    let files = vec![seen("b.txt", 1, 5, true), seen("docs/a.md", 1, 9, true)];
    let plan = plan_sync(&vec![], &files);
    assert_eq!(plan.report.added, 2);
    assert_eq!(plan.report.changed, 0);
    assert_eq!(plan.report.removed, 0);
    assert_eq!(plan.upserts, vec![0, 1]);
}

#[test]
fn freshness_short_circuits() {
    assert!(recent_enough(Some("100"), 102, 60));
    assert!(!recent_enough(Some("100"), 200, 60));
    assert!(!recent_enough(None, 102, 60));
}

#[test]
fn plan_detects_changed_files() {
    let existing = vec![stat("aaaaaaaa", "a.md", 10, 8)];
    let files = vec![seen("a.md", 10, 20, true)];
    let plan = plan_sync(&existing, &files);
    assert_eq!(plan.report.changed, 1);
    assert_eq!(plan.report.added, 0);
    assert_eq!(classify(&existing, &files[0]), Change::Changed);
}

#[test]
fn plan_detects_removed_files() {
    let existing = vec![stat("aaaaaaaa", "a.md", 1, 4), stat("bbbbbbbb", "b.md", 1, 4)];
    let files = vec![seen("a.md", 1, 4, true)];
    let plan = plan_sync(&existing, &files);
    assert_eq!(plan.report.removed, 1);
    assert_eq!(plan.removed, vec!["bbbbbbbb".to_string()]);
    assert!(plan.upserts.is_empty());
}

#[test]
fn derives_title_from_h1_then_first_line_then_stem() {
    let h1 = doc_rows("/r/h1.md", "h1.md", b"# The Title\nbody\n", 0, 0).unwrap();
    let pre = doc_rows("/r/pre.md", "pre.md", b"leading paragraph\n\n## Sub\n", 0, 0).unwrap();
    let bare = doc_rows("/r/bare.txt", "bare.txt", b"", 0, 0).unwrap();
    assert_eq!(h1.row.title, "The Title");
    assert_eq!(pre.row.title, "leading paragraph");
    assert_eq!(bare.row.title, "bare");
}

#[test]
fn unchanged_files_are_left_alone() {
    let existing = vec![stat("aaaaaaaa", "a.md", 10, 8)];
    let files = vec![seen("a.md", 10, 8, true)];
    let plan = plan_sync(&existing, &files);
    assert_eq!(plan.report, SyncReport { added: 0, changed: 0, removed: 0, skipped_binary: vec![], skipped: false });
    assert!(plan.upserts.is_empty());
    assert!(plan.removed.is_empty());
}

#[test]
fn binary_file_keeps_its_stored_doc() {
    // A file that turned binary is seen, so its stored doc is not removed.
    let existing = vec![stat("aaaaaaaa", "a.md", 1, 1)];
    let plan = plan_sync(&existing, &vec![seen("a.md", 2, 2, false)]);
    assert_eq!(plan.report.removed, 0);
    assert_eq!(plan.report.skipped_binary, vec!["a.md".to_string()]);
}

#[test]
fn parse_i64_matches_std() {
    for s in ["0", "42", "-42", "+7", "", "-", "+", "1a", " 1", "9223372036854775807", "-9223372036854775808", "9223372036854775808", "-9223372036854775809", "00012"] {
        assert_eq!(parse_i64(s), s.parse::<i64>().ok(), "input {s:?}");
    }
}

#[test]
fn freshness_edges() {
    assert!(!recent_enough(Some("100"), 99, 60)); // clock went backwards
    assert!(recent_enough(Some("100"), 100, 1));
    assert!(!recent_enough(Some("100"), 100, 0));
    assert!(recent_enough(Some("garbage"), 3, 5)); // unreadable reads as 0
    assert!(!recent_enough(Some("0"), 3, u64::MAX));
}

#[test]
fn words_with_alphanumerics() {
    let c = |s: &str| s.chars().collect::<Vec<char>>();
    assert!(has_enough_words(&c("hello")));
    assert!(has_enough_words(&c("  ## 42 ")));
    assert!(!has_enough_words(&c("### --- !!")));
    assert!(!has_enough_words(&c("")));
}

#[test]
fn title_skips_empty_h1() {
    let bytes = b"# ---\nreal words here\n";
    let secs = parse(bytes, "stem", true);
    assert_eq!(derive_title(&secs, bytes, "stem"), "real words here");
}

#[test]
fn doc_rows_dedup_section_ids() {
    let bytes = b"# A\nsame\n# A\nsame\n";
    let d = doc_rows("/r/d.md", "docs/d.md", bytes, 5, 20).unwrap();
    assert_eq!(d.section_rows.len(), 2);
    let first = d.section_rows[0].section_id.clone();
    assert_eq!(first.len(), 6);
    assert_eq!(d.section_rows[1].section_id, format!("{first}_1"));
    assert_eq!(d.sections[1].id, first);
    assert_eq!(d.row.dir, "docs");
    assert_eq!(d.row.rel_path, "docs/d.md");
    assert_eq!(d.row.doc_id, mdpeek::id::doc_id("docs/d.md"));
    assert_eq!(d.row.mtime_unix, 5);
    assert_eq!(d.row.size_bytes, 20);
    assert!(d.row.is_markdown);
    assert_eq!(d.row.tokens, d.sections.iter().map(|s| s.tokens as i64).sum::<i64>());
    assert_eq!(d.section_rows[1].seq, 1);
}

#[test]
fn markdown_by_extension_any_case() {
    let txt = doc_rows("/r/notes.TXT", "notes.TXT", b"# not a heading\n", 0, 0).unwrap();
    assert!(!txt.row.is_markdown);
    assert_eq!(txt.sections.len(), 1);
    let md = doc_rows("/r/x.MdX", "x.MdX", b"# Heading\n", 0, 0).unwrap();
    assert!(md.row.is_markdown);
    assert_eq!(md.sections[0].level, 1);
}

#[test]
fn non_ascii_letters_count_as_words() {
    let c = |s: &str| s.chars().collect::<Vec<char>>();
    assert!(has_enough_words(&c("é")));
    assert!(has_enough_words(&c("日本")));
    assert!(!has_enough_words(&c("— …")));
}

#[test]
fn repeated_ids_stay_distinct() {
    let bytes = b"# A\nx\n# B\ny\n# A\nx\n# B\ny\n# A\nx\n";
    let d = doc_rows("/r/d.md", "d.md", bytes, 0, 0).unwrap();
    let ids: Vec<&str> = d.section_rows.iter().map(|r| r.section_id.as_str()).collect();
    assert_eq!(ids.len(), 5);
    for j in 0..ids.len() {
        for k in (j + 1)..ids.len() {
            assert_ne!(ids[j], ids[k]);
        }
    }
    assert_eq!(ids[2], format!("{}_1", ids[0]));
    assert_eq!(ids[4], format!("{}_2", ids[0]));
    assert_eq!(ids[3], format!("{}_1", ids[1]));
}

#[test]
fn written_scan_time_reads_back() {
    for v in [0i64, 7, -1, 1_700_000_000, i64::MAX, i64::MIN] {
        let text: String = mdpeek::text::fmt_i64(v).into_iter().collect();
        assert_eq!(text, v.to_string());
        assert_eq!(parse_i64(&text), Some(v));
    }
}
