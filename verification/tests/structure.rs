use pdftool_core::{
    assign_heading_levels, classify_line, collapse_blank_lines, format_as_markdown, is_list_item,
    LineClass,
};

fn lines_of(v: &[&str]) -> Vec<String> {
    v.iter().map(|s| s.to_string()).collect()
}

#[test]
fn test_classify_blank_lines() {
    assert_eq!(classify_line(""), LineClass::Blank);
    assert_eq!(classify_line("   \t "), LineClass::Blank);
    assert_eq!(classify_line("\u{0C}"), LineClass::Blank);
}

#[test]
fn test_classify_page_numbers() {
    assert_eq!(classify_line("7"), LineClass::PageNumber);
    assert_eq!(classify_line("  1234  "), LineClass::PageNumber);
    // five digits are no page-number artifact
    assert_eq!(classify_line("12345"), LineClass::BodyCandidate);
}

#[test]
fn test_classify_list_items() {
    assert_eq!(classify_line("1) first"), LineClass::ListItem);
    assert_eq!(classify_line("12. twelfth"), LineClass::ListItem);
    assert_eq!(classify_line("3: third"), LineClass::ListItem);
    assert_eq!(classify_line("a) lettered"), LineClass::ListItem);
    assert_eq!(classify_line("b. lettered"), LineClass::ListItem);
    assert_eq!(classify_line("- bullet"), LineClass::ListItem);
    assert_eq!(classify_line("* bullet"), LineClass::ListItem);
    assert_eq!(classify_line("\u{2022} bullet"), LineClass::ListItem);
    assert_eq!(classify_line("\u{2013} dash"), LineClass::ListItem);
}

#[test]
fn test_classify_body() {
    assert_eq!(classify_line("Plain prose line."), LineClass::BodyCandidate);
    assert_eq!(classify_line("12x not a list"), LineClass::BodyCandidate);
    assert_eq!(classify_line("ab) needs one letter"), LineClass::BodyCandidate);
}

#[test]
fn test_is_list_item_trims_leading_space() {
    assert!(is_list_item("   2. indented"));
    assert!(!is_list_item("plain"));
    assert!(!is_list_item(""));
}

#[test]
fn test_heading_levels_basic() {
    let a = "x".repeat(40);
    let heading = "Overview";
    let lines = lines_of(&[&a, "", heading, "", &a]);
    // corpus [40, 8, 40], median 40, threshold 20; "Overview" is short and
    // isolated, and 8 <= 20 / 2 makes it top-level
    assert_eq!(assign_heading_levels(&lines), vec![0, 0, 1, 0, 0]);
}

#[test]
fn test_heading_level_two() {
    let a = "x".repeat(40);
    let heading = "abcdefghijklmnopqrst"; // 20 characters: above half the threshold
    let lines = lines_of(&[&a, "", heading, "", &a]);
    assert_eq!(assign_heading_levels(&lines), vec![0, 0, 2, 0, 0]);
}

#[test]
fn test_short_corpus_gets_no_headings() {
    // median body length 10 is at the floor, so even a short isolated line
    // is not promoted
    let s = "aaaaaaaaaa";
    let lines = lines_of(&[s, s, "", "Short", "", s]);
    assert_eq!(assign_heading_levels(&lines), vec![0; 6]);
}

#[test]
fn test_no_heading_directly_after_text() {
    let a = "x".repeat(40);
    let lines = lines_of(&[&a, "Short", "", &a]);
    // "Short" follows a non-blank line, so it stays body text
    assert_eq!(assign_heading_levels(&lines), vec![0, 0, 0, 0]);
}

#[test]
fn test_uniform_corpus_gets_no_headings() {
    // every body line has the same length 30 > 20: threshold is 15, and no
    // line is short enough to be promoted
    let u = "z".repeat(30);
    let lines = lines_of(&[&u, "", &u, "", &u]);
    assert_eq!(assign_heading_levels(&lines), vec![0; 5]);
}

#[test]
fn test_even_corpus_uses_lower_median() {
    // corpus lengths sorted: [12, 18, 30, 30]; the lower median 18 is at
    // the floor, so heading detection is disabled — the upper median 30
    // would have promoted the short isolated line instead
    let a = "a".repeat(18);
    let h = "h".repeat(12);
    let b = "b".repeat(30);
    let c = "c".repeat(30);
    let lines = lines_of(&[&a, "", &h, "", &b, &c]);
    assert_eq!(assign_heading_levels(&lines), vec![0; 6]);
}

#[test]
fn test_empty_stream() {
    let lines: Vec<String> = Vec::new();
    assert_eq!(assign_heading_levels(&lines), Vec::<u8>::new());
}

#[test]
fn test_format_heading_isolated() {
    let a = "x".repeat(40);
    let b = "y".repeat(40);
    let raw = format!("{}\n\nOverview\n\n{}\n", a, b);
    assert_eq!(format_as_markdown(&raw), format!("{}\n\n# Overview\n\n{}\n", a, b));
}

#[test]
fn test_format_subheading() {
    let a = "x".repeat(40);
    let b = "y".repeat(40);
    let h = "abcdefghijklmnopqrst";
    let raw = format!("{}\n\n{}\n\n{}\n", a, h, b);
    assert_eq!(format_as_markdown(&raw), format!("{}\n\n## {}\n\n{}\n", a, h, b));
}

#[test]
fn test_format_drops_page_numbers() {
    let a = "x".repeat(40);
    let b = "y".repeat(40);
    let raw = format!("{}\n17\n{}\n", a, b);
    let out = format_as_markdown(&raw);
    assert_eq!(out, format!("{}\n{}\n", a, b));
    assert!(!out.contains("17"));
}

#[test]
fn test_format_collapses_blank_runs() {
    let raw = "aaaaaaaaaa\n\n\n\nbbbbbbbbbb\n";
    assert_eq!(format_as_markdown(raw), "aaaaaaaaaa\n\nbbbbbbbbbb\n");
}

#[test]
fn test_format_empty_input() {
    assert_eq!(format_as_markdown(""), "\n");
    assert_eq!(format_as_markdown("\u{0C}"), "\n");
}

#[test]
fn test_format_crlf_input() {
    assert_eq!(format_as_markdown("aa\r\nbb\r\n"), "aa\nbb\n");
}

#[test]
fn test_cleanup_caps_blank_runs() {
    assert_eq!(collapse_blank_lines("a\n\n\n\nb"), "a\n\nb");
    assert_eq!(collapse_blank_lines("a\nb"), "a\nb");
}

#[test]
fn test_cleanup_idempotent() {
    let once = collapse_blank_lines("a\n\n\n\nb\n\n\nc\n");
    let twice = collapse_blank_lines(&once);
    assert_eq!(once, twice);
}
