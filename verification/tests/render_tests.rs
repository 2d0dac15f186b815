use rendermd::render;
use rendermd::style::{full_color, minimal, no_color};
use rendermd::{validate_width, WidthError};

fn lines_of(input: &str, width: usize, profile_kind: u8) -> Vec<String> {
    let text: Vec<u8> = input.as_bytes().to_vec();
    let profile = match profile_kind {
        0 => minimal(),
        1 => no_color(),
        _ => full_color(),
    };
    let out = render(&text, width, &profile);
    out.into_iter().map(|l| String::from_utf8(l).unwrap()).collect()
}

fn minimal_lines(input: &str, width: usize) -> Vec<String> {
    lines_of(input, width, 0)
}

#[test]
fn header_and_paragraph_render() {
    for w in [20usize, 80, 200] {
        let lines = minimal_lines("# Hello RenderMD\n\nFeatures", w);
        assert_eq!(lines, vec!["# Hello RenderMD".to_string(), "Features".to_string()]);
    }
    // the styled header keeps the text under the full-color profile too
    let styled = lines_of("# Hello RenderMD\n\nFeatures", 80, 2);
    assert_eq!(styled.len(), 2);
    assert!(styled[0].contains("Hello"));
    assert!(styled[0].contains("RenderMD"));
    assert!(styled[0].contains("\x1b[38;5;214m"));
    assert!(styled[1].contains("Features"));
}

#[test]
fn minimal_has_no_escapes_full_color_has_them() {
    let input = "**bold** and *italic* and `code`";
    let plain = minimal_lines(input, 80);
    assert_eq!(plain, vec!["bold and italic and code".to_string()]);
    for l in &plain {
        assert!(!l.as_bytes().contains(&0x1b));
    }
    let styled = lines_of(input, 80, 2);
    assert_eq!(styled.len(), 1);
    assert!(styled[0].as_bytes().contains(&0x1b));
    // three distinct attributes: bold, italic, inline code colors
    assert!(styled[0].contains("\x1b[38;5;226m"));
    assert!(styled[0].contains("\x1b[38;5;51m"));
    assert!(styled[0].contains("\x1b[38;5;46m"));
    // stripping the escapes leaves the same text
    assert!(styled[0].contains("bold"));
    assert!(styled[0].contains("italic"));
    assert!(styled[0].contains("code"));
}

#[test]
fn no_color_profile_keeps_flags_only() {
    let styled = lines_of("**bold** text", 80, 1);
    assert_eq!(styled.len(), 1);
    assert!(styled[0].contains("\x1b[1m"));
    assert!(!styled[0].contains("38;5;"));
}

#[test]
fn width_bounds_are_enforced() {
    assert_eq!(validate_width(19), Err(WidthError::TooSmall));
    assert_eq!(validate_width(20), Ok(20));
    assert_eq!(validate_width(200), Ok(200));
    assert_eq!(validate_width(201), Err(WidthError::TooLarge));
    assert_eq!(validate_width(300), Err(WidthError::TooLarge));
    assert_eq!(WidthError::TooSmall.message(), "Width must be at least 20");
    assert_eq!(WidthError::TooLarge.message(), "Width cannot exceed 200");
}

#[test]
fn greedy_wrap_at_width_twenty() {
    let lines = minimal_lines("one two three four five six seven", 20);
    assert_eq!(lines, vec!["one two three four".to_string(), "five six seven".to_string()]);
    for l in &lines {
        assert!(l.len() <= 20);
    }
}

#[test]
fn single_long_word_is_never_split() {
    let lines = minimal_lines("aaaaaaaaaaaaaaaaaaaaaaaaaaaaaa bb", 20);
    assert_eq!(lines, vec!["aaaaaaaaaaaaaaaaaaaaaaaaaaaaaa".to_string(), "bb".to_string()]);
}

#[test]
fn rewrapping_wrapped_text_reproduces_line_breaks() {
    let first = minimal_lines("alpha beta gamma delta epsilon zeta eta theta", 24);
    let rejoined = first.join("\n");
    let second = minimal_lines(&rejoined, 24);
    assert_eq!(first, second);
}

#[test]
fn styling_does_not_alter_text() {
    let input = "**bold** and *italic* mixed `in` one [link](http://x) sentence";
    let plain = minimal_lines(input, 200);
    assert_eq!(plain, vec!["bold and italic mixed in one link (http://x) sentence".to_string()]);
}

#[test]
fn unmatched_delimiters_stay_literal() {
    let lines = minimal_lines("*bold with no close", 80);
    assert_eq!(lines, vec!["*bold with no close".to_string()]);
    let lines2 = minimal_lines("a _b\n\nnext *block*", 80);
    assert_eq!(lines2, vec!["a _b".to_string(), "next block".to_string()]);
}

#[test]
fn code_block_passes_through_verbatim() {
    let input = "```rust\nlet x = 1;\n\n  spaced   line\n```";
    let lines = minimal_lines(input, 20);
    assert_eq!(lines, vec![
        "  let x = 1;".to_string(),
        "  ".to_string(),
        "    spaced   line".to_string(),
    ]);
}

#[test]
fn code_block_is_not_wrapped_even_when_wide() {
    let input = "```\nthis entire code line is far wider than twenty columns and stays whole\n```";
    let lines = minimal_lines(input, 20);
    assert_eq!(lines.len(), 1);
    assert_eq!(lines[0], "  this entire code line is far wider than twenty columns and stays whole");
}

#[test]
fn unordered_and_ordered_lists() {
    let lines = minimal_lines("- one\n- two\n\n1. first\n2. second", 40);
    assert_eq!(lines, vec![
        "- one".to_string(),
        "- two".to_string(),
        "1. first".to_string(),
        "2. second".to_string(),
    ]);
}

#[test]
fn list_continuation_lines_align_under_text() {
    let lines = minimal_lines("- alpha beta gamma delta epsilon", 20);
    assert_eq!(lines[0], "- alpha beta gamma");
    assert_eq!(lines[1], "  delta epsilon");
}

#[test]
fn quotes_carry_markers_and_nest_by_depth() {
    let lines = minimal_lines("> hi there\n\n> > deep quote", 40);
    assert_eq!(lines, vec!["> hi there".to_string(), "> > deep quote".to_string()]);
}

#[test]
fn rule_fills_the_width() {
    let lines = minimal_lines("---", 20);
    assert_eq!(lines, vec!["-".repeat(20)]);
    let lines2 = minimal_lines("* * *", 25);
    assert_eq!(lines2, vec!["-".repeat(25)]);
}

#[test]
fn table_columns_are_consistent_across_rows() {
    let input = "|a|b|\n|-|-|\n|ccc|d|\n|e|ff|";
    let lines = minimal_lines(input, 40);
    assert_eq!(lines.len(), 3);
    let width = lines[0].len();
    for l in &lines {
        assert_eq!(l.len(), width);
    }
    assert_eq!(lines[0], "a   | b ");
    assert_eq!(lines[1], "ccc | d ");
    assert_eq!(lines[2], "e   | ff");
}

#[test]
fn wrapped_lines_respect_the_width() {
    let input = "lorem ipsum dolor sit amet consectetur adipiscing elit sed do eiusmod tempor";
    for w in [20usize, 35, 200] {
        for l in minimal_lines(input, w) {
            assert!(l.len() <= w);
        }
    }
}

#[test]
fn empty_document_renders_nothing() {
    assert_eq!(minimal_lines("", 80), Vec::<String>::new());
    assert_eq!(minimal_lines("\n\n   \n", 80), Vec::<String>::new());
}

#[test]
fn header_levels_keep_their_markers() {
    let lines = minimal_lines("### third level", 40);
    assert_eq!(lines, vec!["### third level".to_string()]);
    // seven hashes is no header: it stays a paragraph
    let lines2 = minimal_lines("####### not a header", 40);
    assert_eq!(lines2, vec!["####### not a header".to_string()]);
}

#[test]
fn soft_breaks_collapse_to_spaces() {
    let lines = minimal_lines("first line\nsecond line", 80);
    assert_eq!(lines, vec!["first line second line".to_string()]);
}

#[test]
fn bold_in_italic_nests_one_level() {
    let lines = minimal_lines("_outer **inner** tail_", 80);
    assert_eq!(lines, vec!["outer inner tail".to_string()]);
    let styled = lines_of("_outer **inner** tail_", 80, 2);
    // the combined run carries both flags: bold and italic escapes appear
    assert!(styled[0].contains("\x1b[1m"));
    assert!(styled[0].contains("\x1b[3m"));
}

#[test]
fn inline_code_content_is_not_scanned() {
    let lines = minimal_lines("`**not bold**` outside", 80);
    assert_eq!(lines, vec!["**not bold** outside".to_string()]);
}

#[test]
fn quote_content_is_parsed_as_blocks() {
    let lines = minimal_lines("> - item one\n> - item two", 40);
    assert_eq!(lines, vec!["> - item one".to_string(), "> - item two".to_string()]);
}

#[test]
fn over_wide_table_is_clipped_at_the_target_width() {
    let input = "|aaaaaaaaaaaaaaa|bbbbbbbbbbbbbb|\n|-|-|\n|c|d|";
    let lines = minimal_lines(input, 20);
    assert_eq!(lines.len(), 2);
    for l in &lines {
        assert_eq!(l.len(), 20);
    }
    assert!(lines[0].starts_with("aaaaaaaaaaaaaaa | b"));
}
