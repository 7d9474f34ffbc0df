use mdpeek::parse::parse;

#[test]
fn txt_file_is_single_root_section() {
    let secs = parse(b"just some text\nmore text", "notes", false);
    assert_eq!(secs.len(), 1);
    assert_eq!(secs[0].level, 0);
    assert_eq!(secs[0].heading, "notes");
    assert_eq!(secs[0].heading_path, "");
}

#[test]
fn markdown_with_headings_splits() {
    let md = b"# Intro\nhello world.\n\n## Install\nrun cargo install.\n\n## Usage\ndo stuff.";
    let secs = parse(md, "readme", true);
    let headings: Vec<_> = secs.iter().map(|s| (s.level, s.heading.as_str())).collect();
    assert_eq!(headings, vec![(1, "Intro"), (2, "Install"), (2, "Usage")]);
}

#[test]
fn heading_path_tracks_nesting() {
    let md = b"# A\n\n## B\n\n### C\n\n## D\n";
    let secs = parse(md, "x", true);
    assert_eq!(secs[0].heading_path, "");
    assert_eq!(secs[1].heading_path, "A");
    assert_eq!(secs[2].heading_path, "A > B");
    assert_eq!(secs[3].heading_path, "A");
}

#[test]
fn preamble_becomes_root_section() {
    let md = b"intro paragraph.\n\n# First\nbody\n";
    let secs = parse(md, "readme", true);
    assert_eq!(secs.len(), 2);
    assert_eq!(secs[0].level, 0);
    assert_eq!(secs[0].heading, "readme");
    assert_eq!(secs[1].level, 1);
    assert_eq!(secs[1].heading, "First");
}

#[test]
fn snippet_skips_heading_and_takes_first_sentence() {
    let md = b"# Title\n\nFirst sentence here. Second one.\n";
    let secs = parse(md, "x", true);
    assert_eq!(secs[0].snippet, "First sentence here.");
}

#[test]
fn snippet_strips_code_fence() {
    let md = b"# T\n\n```\nlet x = 1;\n```\n\nReal sentence now.\n";
    let secs = parse(md, "x", true);
    assert_eq!(secs[0].snippet, "Real sentence now.");
}

#[test]
fn snippet_word_caps_at_25() {
    let body: String = "word ".repeat(40);
    let md = format!("# T\n\n{body}\n");
    let secs = parse(md.as_bytes(), "x", true);
    let snippet = &secs[0].snippet;
    let count = snippet.split_whitespace().count();
    assert_eq!(count, 25, "got: {snippet}");
    assert!(snippet.ends_with('…'));
}

#[test]
fn snippet_ignores_dots_in_code_spans_and_list_markers() {
    let md = b"# T\n\nRun `mdpeek ignore .` to add patterns.\n";
    let secs = parse(md, "x", true);
    assert_eq!(secs[0].snippet, "Run `mdpeek ignore .` to add patterns.");

    let md2 = b"# T\n\n1. First item of the list here.\n";
    let secs2 = parse(md2, "x", true);
    assert!(secs2[0].snippet.contains("First item"), "got: {}", secs2[0].snippet);
}

#[test]
fn section_ids_are_stable_and_unique() {
    let md = b"# A\nbody a\n\n# B\nbody b\n";
    let secs = parse(md, "x", true);
    assert_eq!(secs[0].id.len(), 6);
    assert_ne!(secs[0].id, secs[1].id);
    let again = parse(md, "x", true);
    assert_eq!(secs[0].id, again[0].id);
}

#[test]
fn token_counts_populated() {
    let secs = parse(b"# T\n\nsome text", "x", true);
    assert!(secs[0].tokens > 0);
}

#[test]
fn code_tokens_counts_only_fenced_body() {
    let md = b"# T\n\nprose here.\n\n```\nlet x = 1;\nlet y = 2;\n```\n\nafter.\n";
    let secs = parse(md, "x", true);
    assert!(secs[0].code_tokens > 0);
    assert!(secs[0].code_tokens < secs[0].tokens);
}

#[test]
fn code_tokens_zero_without_fences() {
    let secs = parse(b"# T\n\nprose only.\n", "x", true);
    assert_eq!(secs[0].code_tokens, 0);
}

#[test]
fn code_tokens_zero_for_txt_files() {
    let secs = parse(b"plain text only\n", "notes", false);
    assert_eq!(secs[0].code_tokens, 0);
}

#[test]
fn sections_cover_the_document() {
    let md = b"preamble\n\n# A\nbody a\n\n## B\nbody b\n\n# C\nlast\n";
    let secs = parse(md, "x", true);
    let joined: Vec<u8> = secs.iter().flat_map(|s| s.content.clone()).collect();
    assert_eq!(joined, md.to_vec());
    assert_eq!(secs[1].content, b"# A\nbody a\n\n".to_vec());
}

#[test]
fn non_utf8_markdown_has_no_sections() {
    let secs = parse(b"# T\n\xff\xfe\n", "x", true);
    assert!(secs.is_empty());
}

#[test]
fn empty_heading_does_not_split() {
    let md = b"#\nbody\n";
    let secs = parse(md, "stem", true);
    assert_eq!(secs.len(), 1);
    assert_eq!(secs[0].level, 0);
    assert_eq!(secs[0].heading, "stem");
}

#[test]
fn heading_text_spans_inline_markup() {
    let secs = parse(b"# Use **bold** here\nbody\n", "x", true);
    assert_eq!(secs[0].heading, "Use bold here");
    let secs = parse(b"## The `code` and *em* parts\n", "x", true);
    assert_eq!(secs[0].heading, "The code and em parts");
}

#[test]
fn abbreviations_do_not_end_a_sentence() {
    let c: Vec<char> = "Use e.g. this one.".chars().collect();
    assert_eq!(mdpeek::snippet::find_sentence_end(&c), Some(18));
    let secs = parse(b"# T\n\nUse e.g. this one. Then more.\n", "x", true);
    assert_eq!(secs[0].snippet, "Use e.g. this one.");
}

#[test]
fn strip_html_drops_tags() {
    let f = |s: &str| -> String {
        let c: Vec<char> = s.chars().collect();
        mdpeek::snippet::strip_html(&c).into_iter().collect()
    };
    assert_eq!(f("a <b>bold</b> c"), "a bold c");
    assert_eq!(f("a < b"), "a ");
    assert_eq!(f("plain"), "plain");
    assert_eq!(f(&f("x <i>y</i> z")), f("x <i>y</i> z"));
}
