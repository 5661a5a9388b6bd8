use ndown::markdown::inline::{extract_plain_text, parse_inline_formatting, InlineFormat};
use ndown::markdown::parser::{
    detect_heading_level, detect_list_item, detect_numbered_list, is_list_item, ListType,
};

#[test]
fn heading_levels() {
    assert_eq!(detect_heading_level("# Title"), Some(1));
    assert_eq!(detect_heading_level("## Sub"), Some(2));
    assert_eq!(detect_heading_level("### Small"), Some(3));
    assert_eq!(detect_heading_level("   ## Indented"), Some(2));
}

#[test]
fn heading_needs_space_and_at_most_three_hashes() {
    assert_eq!(detect_heading_level("#Title"), None);
    assert_eq!(detect_heading_level("#### Four"), None);
    assert_eq!(detect_heading_level("plain"), None);
    assert_eq!(detect_heading_level(""), None);
}

#[test]
fn unordered_list_items() {
    let info = detect_list_item("- apple").unwrap();
    assert_eq!(info.list_type, ListType::Unordered);
    assert_eq!(info.indent_level, 0);
    assert_eq!(info.content, "apple");
    assert_eq!(info.marker, '-');
    let star = detect_list_item("* pear").unwrap();
    assert_eq!(star.marker, '*');
    let plus = detect_list_item("+ plum").unwrap();
    assert_eq!(plus.marker, '+');
}

#[test]
fn list_indent_is_half_the_leading_bytes() {
    let info = detect_list_item("    - deep").unwrap();
    assert_eq!(info.indent_level, 2);
    assert_eq!(info.content, "deep");
    let odd = detect_list_item("   - odd").unwrap();
    assert_eq!(odd.indent_level, 1);
}

#[test]
fn ordered_list_items() {
    let info = detect_list_item("12. twelve").unwrap();
    assert_eq!(info.list_type, ListType::Ordered);
    assert_eq!(info.content, "twelve");
    assert_eq!(info.marker, '1');
    assert!(detect_list_item("1x. no").is_none());
    assert!(detect_list_item(". no").is_none());
    assert!(detect_list_item("-no space").is_none());
}

#[test]
fn is_list_item_agrees_with_detection() {
    assert!(is_list_item("- a"));
    assert!(is_list_item("3. c"));
    assert!(!is_list_item("text"));
}

#[test]
fn numbered_list_detection() {
    assert!(detect_numbered_list("1. one"));
    assert!(detect_numbered_list("  2a and then. more"));
    assert!(!detect_numbered_list("a. one"));
    assert!(!detect_numbered_list("1 one"));
}

#[test]
fn inline_spans_in_order() {
    let spans = parse_inline_formatting("a **b** *c* `d`");
    assert_eq!(spans.len(), 3);
    assert_eq!(spans[0].range, 2..7);
    assert_eq!(spans[0].format, InlineFormat::Bold);
    assert_eq!(spans[1].range, 8..11);
    assert_eq!(spans[1].format, InlineFormat::Italic);
    assert_eq!(spans[2].range, 12..15);
    assert_eq!(spans[2].format, InlineFormat::Code);
}

#[test]
fn unclosed_bold_falls_back_to_italic() {
    let spans = parse_inline_formatting("**x");
    assert_eq!(spans.len(), 1);
    assert_eq!(spans[0].range, 0..2);
    assert_eq!(spans[0].format, InlineFormat::Italic);
}

#[test]
fn no_spans_without_closing_marker() {
    assert!(parse_inline_formatting("a `b").is_empty());
    assert!(parse_inline_formatting("").is_empty());
}

#[test]
fn plain_text_drops_markers() {
    assert_eq!(extract_plain_text("a **b** *c* `d`"), "a b c d");
    assert_eq!(extract_plain_text("no markers"), "no markers");
    assert_eq!(extract_plain_text("x `y"), "x `y");
}

#[test]
fn plain_text_after_spans_keeps_non_ascii() {
    assert_eq!(extract_plain_text("*a*é"), "aé");
    assert_eq!(extract_plain_text("héllo"), "héllo");
}
