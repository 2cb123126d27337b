use corpus::chunk::{
    chunk_file, chunk_markdown, chunk_plain, parse_sections, sections_of_events, window_text,
    windows_to_chunks, MarkdownEvent, Section, CHUNK_CHAR_CAP, CHUNK_LOOKBACK, CHUNK_OVERLAP,
};

#[test]
fn splits_on_headings_and_keeps_heading_path() {
    let src = "\
# Title

Intro text.

## Configuration

Config body.

### Executor kinds

Executor body here.
";
    let chunks = chunk_markdown("docs/guide.md", src);
    // One chunk per non-empty section.
    assert_eq!(chunks.len(), 3);
    assert_eq!(chunks[0].heading_path, vec!["Title"]);
    assert_eq!(chunks[1].heading_path, vec!["Title", "Configuration"]);
    assert_eq!(
        chunks[2].heading_path,
        vec!["Title", "Configuration", "Executor kinds"]
    );
    assert!(chunks[2].text.contains("Executor body"));
    assert_eq!(chunks[0].id, "docs/guide.md#0");
}

#[test]
fn sibling_headings_pop_the_stack() {
    let src = "\
# A

body a

## B1

body b1

## B2

body b2
";
    let chunks = chunk_markdown("f.md", src);
    assert_eq!(chunks[1].heading_path, vec!["A", "B1"]);
    // B2 is a sibling of B1: B1 must be popped.
    assert_eq!(chunks[2].heading_path, vec!["A", "B2"]);
}

#[test]
fn large_section_is_windowed_with_overlap() {
    let big = "word ".repeat(1000); // ~5000 chars, single section
    let src = format!("# H\n\n{big}");
    let chunks = chunk_markdown("big.md", &src);
    assert!(chunks.len() > 1, "expected multiple windows");
    for c in &chunks {
        assert!(c.text.chars().count() <= CHUNK_CHAR_CAP);
        assert_eq!(c.heading_path, vec!["H"]);
    }
}

#[test]
fn plain_text_has_empty_heading_path() {
    let chunks = chunk_plain("notes.txt", "just some plain notes");
    assert_eq!(chunks.len(), 1);
    assert!(chunks[0].heading_path.is_empty());
}

#[test]
fn chunk_ids_are_stable_across_runs() {
    let src = "# H\n\nbody";
    let a = chunk_markdown("x.md", src);
    let b = chunk_markdown("x.md", src);
    assert_eq!(a, b);
}

#[test]
fn extension_decides_how_a_file_is_cut() {
    let src = "# H\n\nbody";
    for md in ["a.md", "a.MD", "a.mdx", "dir/a.MdX", ".md"] {
        assert_eq!(chunk_file(md, src), chunk_markdown(md, src));
        assert_eq!(chunk_file(md, src)[0].heading_path, vec!["H"]);
    }
    for plain in ["a.txt", "a.adoc", "README", "a.md.txt", "", "md", "mdx", "docs/md", "a.md/md"] {
        assert_eq!(chunk_file(plain, src), chunk_plain(plain, src));
        assert_eq!(chunk_file(plain, src)[0].text, src);
    }
}

#[test]
fn headings_join_text_and_code_and_are_trimmed() {
    let sections = parse_sections("#  The `code` *heading*  \n\nbody `x`\nsecond line\n\nthird\n");
    assert_eq!(sections.len(), 1);
    assert_eq!(sections[0].heading_path, vec!["The code heading"]);
    assert_eq!(sections[0].body, "body x\nsecond line\nthird");
}

#[test]
fn headings_without_a_body_give_no_section() {
    let sections = parse_sections("preamble\n\n# A\n\n## B\n\n# C\n\ntext\n");
    assert_eq!(sections.len(), 2);
    assert!(sections[0].heading_path.is_empty());
    assert_eq!(sections[0].body, "preamble");
    assert_eq!(sections[1].heading_path, vec!["C"]);
}

#[test]
fn list_items_and_code_blocks_end_lines() {
    let sections = parse_sections("- one\n- two\n\n```\nlet x = 1;\n```\n");
    assert_eq!(sections[0].body, "one\ntwo\nlet x = 1;");
}

#[test]
fn a_deeper_heading_after_a_skipped_level_stays_nested() {
    let sections = parse_sections("# A\n\n#### D\n\nd\n\n## B\n\nb\n");
    assert_eq!(sections[0].heading_path, vec!["A", "D"]);
    assert_eq!(sections[1].heading_path, vec!["A", "B"]);
}

#[test]
fn events_are_read_into_sections() {
    let events = vec![
        MarkdownEvent::Text("before".to_string()),
        MarkdownEvent::HeadingStart(2),
        MarkdownEvent::Text("Two".to_string()),
        MarkdownEvent::HeadingEnd,
        MarkdownEvent::Text("body".to_string()),
    ];
    let sections = sections_of_events(&events);
    assert_eq!(sections.len(), 2);
    assert_eq!(sections[0].body, "before");
    assert_eq!(sections[1].heading_path, vec!["Two"]);
    assert_eq!(sections[1].body, "body");
}

#[test]
fn a_text_at_the_cap_is_one_window() {
    let at_cap = "x".repeat(CHUNK_CHAR_CAP);
    assert_eq!(window_text(&at_cap), vec![at_cap.clone()]);
    // A short text is kept as it is, white space included.
    assert_eq!(window_text("  a  "), vec!["  a  "]);
    assert_eq!(window_text(""), vec![""]);
}

#[test]
fn windows_without_white_space_are_cut_at_the_cap() {
    let long: String = (0..2000u32)
        .map(|i| char::from_digit(i % 10, 10).unwrap())
        .collect();
    let windows = window_text(&long);
    assert_eq!(windows.len(), 2);
    assert_eq!(windows[0], long[..CHUNK_CHAR_CAP]);
    // The second window starts one overlap before the end of the first.
    assert_eq!(windows[1], long[CHUNK_CHAR_CAP - CHUNK_OVERLAP..]);
}

#[test]
fn windows_break_after_late_white_space() {
    let mut long = "a".repeat(CHUNK_LOOKBACK + 5);
    long.push(' ');
    long.push_str(&"b".repeat(1000));
    let windows = window_text(&long);
    assert_eq!(windows[0], "a".repeat(CHUNK_LOOKBACK + 5));
    // White space before the lookback does not count.
    let mut early = "a".repeat(CHUNK_LOOKBACK - 5);
    early.push(' ');
    early.push_str(&"b".repeat(1000));
    assert_eq!(window_text(&early)[0].chars().count(), CHUNK_CHAR_CAP);
}

#[test]
fn blank_windows_are_dropped() {
    let blank = " ".repeat(CHUNK_CHAR_CAP * 2);
    assert!(window_text(&blank).is_empty());
}

#[test]
fn windows_count_characters_not_bytes() {
    let long = "é".repeat(CHUNK_CHAR_CAP + 1);
    let windows = window_text(&long);
    assert_eq!(windows.len(), 2);
    assert_eq!(windows[0].chars().count(), CHUNK_CHAR_CAP);
    assert_eq!(windows[1].chars().count(), CHUNK_OVERLAP + 1);
}

#[test]
fn ordinals_run_through_the_document() {
    let sections = vec![
        Section {
            heading_path: vec!["A".to_string()],
            body: "x".repeat(CHUNK_CHAR_CAP + 1),
        },
        Section {
            heading_path: vec!["B".to_string()],
            body: "y".to_string(),
        },
    ];
    let chunks = windows_to_chunks("p.md", &sections);
    let ids: Vec<&str> = chunks.iter().map(|c| c.id.as_str()).collect();
    assert_eq!(ids, vec!["p.md#0", "p.md#1", "p.md#2"]);
    assert_eq!(chunks[1].heading_path, vec!["A"]);
    assert_eq!(chunks[2].heading_path, vec!["B"]);
    assert!(chunks.iter().all(|c| c.path == "p.md"));
}
