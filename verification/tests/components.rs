use ndown::app_state::{PanelState, PANEL_WIDTH};
use ndown::file_explorer::{selected_file, visible_files};
use ndown::ui::components::block_renderer::render_content;
use ndown::block::{Block, BlockIdGenerator, BlockType};
use ndown::markdown::inline::InlineFormat;
use ndown::markdown::parser::{detect_list_item, ListType};
use ndown::storage::LocalStorage;
use ndown::templates::generator::generate_heading_templates;
use ndown::ui::components::indentation::{push_spaces, IndentationManager};
use ndown::ui::components::inline_formatter::InlineFormatter;
use ndown::ui::components::ordered_list::OrderedListManager;
use ndown::ui::components::rich_text_editor::{EditKey, RichTextEditor};
use ndown::ui::components::rich_text_renderer::{RichTextRenderer, RunStyle};
use ndown::ui::get_template_for_block;
use ndown::ui::template_selector::BlockTemplate;

#[test]
fn indent_and_outdent() {
    let m = IndentationManager::new();
    assert_eq!(m.increase_indent("- a"), "  - a");
    assert_eq!(m.decrease_indent("    - a"), "  - a");
    assert_eq!(m.decrease_indent(" - a"), " - a");
    assert_eq!(m.decrease_indent(&m.increase_indent("x")), "x");
}

#[test]
fn indent_level_counts_leading_bytes() {
    let m = IndentationManager::new();
    assert_eq!(m.get_indent_level("    - a"), 2);
    assert_eq!(m.get_indent_level("   x"), 1);
    assert_eq!(m.get_indent_level("x"), 0);
}

#[test]
fn list_item_lines() {
    let m = IndentationManager::new();
    assert_eq!(m.create_list_item(ListType::Unordered, 1, "a"), "  • a");
    assert_eq!(m.create_list_item(ListType::Ordered, 0, "b"), "1. b");
    let info = detect_list_item("  * star").unwrap();
    assert_eq!(m.continue_list_item(&info), "  * ");
    let ord = detect_list_item("7. seven").unwrap();
    assert_eq!(m.continue_list_item(&ord), "1. ");
}

#[test]
fn spaces_are_appended() {
    let mut s = String::from("a");
    push_spaces(&mut s, 3);
    assert_eq!(s, "a   ");
}

#[test]
fn toggle_bold_inserts_markers_at_cursor() {
    assert_eq!(InlineFormatter::toggle_bold("hello", 2), ("he****llo".to_string(), 4));
}

#[test]
fn toggle_bold_removes_markers_around_cursor() {
    assert_eq!(InlineFormatter::toggle_bold("a **b** c", 4), ("a b c".to_string(), 2));
}

#[test]
fn toggle_italic_and_code() {
    assert_eq!(InlineFormatter::toggle_italic("ab", 1), ("a**b".to_string(), 2));
    assert_eq!(InlineFormatter::toggle_italic("*x*", 1), ("x".to_string(), 0));
    assert_eq!(InlineFormatter::toggle_code("`x` y", 2), ("x y".to_string(), 1));
    assert_eq!(InlineFormatter::toggle_code("y", 1), ("y``".to_string(), 2));
}

#[test]
fn toggling_twice_restores_the_line() {
    let (once, c) = InlineFormatter::toggle_code("word", 2);
    let (twice, c2) = InlineFormatter::toggle_code(&once, c);
    assert_eq!(twice, "word");
    assert_eq!(c2, 2);
}

#[test]
fn can_toggle_bounds() {
    assert!(InlineFormatter::can_toggle("abc", 3, InlineFormat::Bold));
    assert!(!InlineFormatter::can_toggle("abc", 4, InlineFormat::Bold));
    assert!(!InlineFormatter::can_toggle("**b**", 0, InlineFormat::Bold));
    assert!(InlineFormatter::can_toggle("**b**", 2, InlineFormat::Bold));
}

#[test]
fn wrap_selection_puts_markers_around_range() {
    assert_eq!(InlineFormatter::wrap_selection("hello world", 6, 11, "**"), "hello **world**");
    assert_eq!(InlineFormatter::wrap_selection("abc", 0, 1, "`"), "`a`bc");
}

#[test]
fn ordered_number_labels() {
    let m = OrderedListManager::new();
    assert_eq!(m.format_number(0, 3, None), "3.");
    assert_eq!(m.format_number(1, 2, None), "2.1.");
    assert_eq!(m.format_number(1, 2, Some(5)), "2.5.");
    assert_eq!(m.format_number(2, 4, Some(5)), "4.");
}

#[test]
fn ordered_increase_indent() {
    let m = OrderedListManager::new();
    assert_eq!(m.increase_indent("2. item", 0, None), Some("  2.1. item".to_string()));
    assert_eq!(m.increase_indent("2. item", 0, Some(7)), Some("  7.1. item".to_string()));
    assert_eq!(m.increase_indent("x. item", 0, None), Some("  1.1. item".to_string()));
    assert_eq!(m.increase_indent("2. item", 1, None), None);
}

#[test]
fn ordered_decrease_indent() {
    let m = OrderedListManager::new();
    assert_eq!(m.decrease_indent("  2.1. sub"), Some("3. sub".to_string()));
    assert_eq!(m.decrease_indent("    - deep"), Some("  - deep".to_string()));
    assert_eq!(m.decrease_indent("1. top"), None);
}

#[test]
fn renumbering_a_list() {
    let m = OrderedListManager::new();
    let mut ids = BlockIdGenerator::new();
    let mut blocks: Vec<Block> = ["3. a", "  9. b", "1. c", "x", "5. d"]
        .iter()
        .map(|t| Block::text(t.to_string(), &mut ids))
        .collect();
    m.renumber_list_sequence(&mut blocks, 0);
    let texts: Vec<&str> = blocks.iter().map(|b| b.content.as_str()).collect();
    assert_eq!(texts, vec!["1. a", "  1.1. b", "2. c", "x", "5. d"]);
    assert_eq!(blocks[1].id.value(), 1);
}

#[test]
fn render_runs() {
    let runs = RichTextRenderer::render_segments("a **b** `c`!");
    let got: Vec<(&str, RunStyle)> = runs.iter().map(|r| (r.text.as_str(), r.style)).collect();
    assert_eq!(
        got,
        vec![
            ("a ", RunStyle::Plain),
            ("b", RunStyle::Bold),
            (" ", RunStyle::Plain),
            ("c", RunStyle::Code),
            ("!", RunStyle::Plain),
        ]
    );
    assert!(RichTextRenderer::render_segments("").is_empty());
}

#[test]
fn rendered_text_joins_to_plain_text() {
    let runs = RichTextRenderer::render_segments("x *y* z");
    let joined: String = runs.iter().map(|r| r.text.as_str()).collect();
    assert_eq!(joined, ndown::markdown::inline::extract_plain_text("x *y* z"));
}

#[test]
fn formatting_detection() {
    assert!(RichTextRenderer::has_inline_formatting("a *b*"));
    assert!(!RichTextRenderer::has_inline_formatting("a b"));
}

#[test]
fn templates_by_heading() {
    assert_eq!(get_template_for_block("# a", true), BlockTemplate::BlockInputH1);
    assert_eq!(get_template_for_block("## a", false), BlockTemplate::BlockInputInactiveH2);
    assert_eq!(get_template_for_block("### a", true), BlockTemplate::BlockInputH3);
    assert_eq!(get_template_for_block("text", false), BlockTemplate::BlockInputInactive);
    assert_eq!(get_template_for_block("#### a", true), BlockTemplate::BlockInput);
}

#[test]
fn simple_input_keys() {
    let mut e = RichTextEditor::new();
    e.text_input("abc");
    assert_eq!(e.text(), "abc");
    assert_eq!(e.cursor_pos, 3);
    assert!(!e.handle_key(EditKey::ArrowRight));
    assert!(e.handle_key(EditKey::ArrowLeft));
    assert!(e.handle_key(EditKey::Backspace));
    assert_eq!(e.text(), "ac");
    assert_eq!(e.cursor_pos, 1);
    assert!(!e.handle_key(EditKey::Other));
    e.set_text("z".to_string());
    assert_eq!(e.cursor_pos, 1);
    e.focus();
    assert!(e.is_focused);
}

#[test]
fn panels_toggle() {
    let mut p = PanelState::new();
    assert_eq!(p.toggle_left(), 0);
    assert!(!p.left_visible);
    assert_eq!(p.toggle_left(), PANEL_WIDTH);
    assert_eq!(p.toggle_right(), 0);
    assert!(p.left_visible);
    assert_eq!(PANEL_WIDTH, 250);
}

fn pair(level: &str, size: &str) -> String {
    format!(
        "BlockInput{level} = <TextInput> {{\n                width: Fill, height: Fit, padding: 10\n                draw_bg: {{ color: #2a2a2a }}\n                draw_text: {{\n                    text_style: <THEME_FONT_REGULAR> {{font_size: {size}}}\n                    color: #ffffff\n                }}\n            }}\n            \n            BlockInputInactive{level} = <TextInput> {{\n                width: Fill, height: Fit, padding: 10\n                is_read_only: true\n                draw_bg: {{ color: #1a1a1a }}\n                draw_text: {{\n                    text_style: <THEME_FONT_REGULAR> {{font_size: {size}}}\n                    color: #cccccc\n                }}\n            }}\n            \n            "
    )
}

#[test]
fn heading_templates_text() {
    let expected = format!("{}{}{}", pair("H1", "25"), pair("H2", "21"), pair("H3", "18"));
    assert_eq!(generate_heading_templates(), expected);
}

#[test]
fn saving_blocks_as_markdown() {
    let mut ids = BlockIdGenerator::new();
    let blocks = vec![
        Block::heading(1, "Title".to_string(), &mut ids),
        Block::heading(2, "## Kept".to_string(), &mut ids),
        Block::text("body".to_string(), &mut ids),
    ];
    assert_eq!(LocalStorage::blocks_to_markdown(&blocks), "# Title\n\n## Kept\n\nbody");
    assert_eq!(LocalStorage::blocks_to_markdown(&[]), "");
}

#[test]
fn loading_markdown_into_blocks() {
    let mut ids = BlockIdGenerator::new();
    let blocks = LocalStorage::markdown_to_blocks("# T\n\n  - item  \n\n\n\nplain", &mut ids);
    assert_eq!(blocks.len(), 3);
    assert_eq!(blocks[0].block_type, BlockType::Heading(1));
    assert_eq!(blocks[0].content, "# T");
    assert_eq!(blocks[1].block_type, BlockType::List);
    assert_eq!(blocks[1].content, "- item");
    assert_eq!(blocks[2].block_type, BlockType::Text);
    assert_eq!(blocks[2].id.value(), 2);
}

#[test]
fn loading_blank_file_gives_one_empty_block() {
    let mut ids = BlockIdGenerator::new();
    let blocks = LocalStorage::markdown_to_blocks(" \n\n ", &mut ids);
    assert_eq!(blocks.len(), 1);
    assert_eq!(blocks[0].content, "");
    assert_eq!(blocks[0].block_type, BlockType::Text);
}

#[test]
fn saved_blocks_load_back() {
    let mut ids = BlockIdGenerator::new();
    let blocks = vec![
        Block::text("one".to_string(), &mut ids),
        Block::list("- two".to_string(), &mut ids),
    ];
    let text = LocalStorage::blocks_to_markdown(&blocks);
    let back = LocalStorage::markdown_to_blocks(&text, &mut ids);
    let texts: Vec<&str> = back.iter().map(|b| b.content.as_str()).collect();
    assert_eq!(texts, vec!["one", "- two"]);
    let _storage = LocalStorage::new();
}

#[test]
fn explorer_hides_dot_files_and_sorts() {
    let names: Vec<String> =
        ["story.md", ".git", "Cargo.toml", "src", ".hidden", "b", "ab", "a"]
            .iter()
            .map(|s| s.to_string())
            .collect();
    let shown = visible_files(&names);
    assert_eq!(shown, vec!["Cargo.toml", "a", "ab", "b", "src", "story.md"]);
    assert_eq!(selected_file(&shown, 1), Some("a".to_string()));
    assert_eq!(selected_file(&shown, 6), None);
    assert!(visible_files(&Vec::new()).is_empty());
}

#[test]
fn explorer_orders_like_string_sort() {
    let names: Vec<String> = ["é", "z", "Z", "zz", "a b", "a"].iter().map(|s| s.to_string()).collect();
    let mut expected = names.clone();
    expected.sort();
    assert_eq!(visible_files(&names), expected);
}

#[test]
fn block_render_content() {
    let mut ids = BlockIdGenerator::new();
    let h = Block::heading(2, "Title".to_string(), &mut ids);
    assert_eq!(render_content(&h, true), ("## Title".to_string(), BlockTemplate::BlockInputH2));
    let t = Block::text("plain".to_string(), &mut ids);
    assert_eq!(render_content(&t, false), ("plain".to_string(), BlockTemplate::BlockInputInactive));
    let h4 = Block::heading(4, "Deep".to_string(), &mut ids);
    assert_eq!(render_content(&h4, true), ("#### Deep".to_string(), BlockTemplate::BlockInput));
}

#[test]
fn indentation_counts_bytes_of_wide_spaces() {
    let m = IndentationManager::new();
    assert_eq!(m.get_indent_level("\u{3000}x"), 1);
    let info = detect_list_item("\u{3000}\u{3000}- a").unwrap();
    assert_eq!(info.indent_level, 3);
}

#[test]
fn wrap_selection_counts_bytes() {
    assert_eq!(InlineFormatter::wrap_selection("abc", 1, 2, "**"), "a**b**c");
    assert_eq!(InlineFormatter::wrap_selection("éa", 2, 3, "**"), "é**a**");
    assert_eq!(InlineFormatter::wrap_selection("éa", 2, 4, "**"), "éa");
    assert_eq!(InlineFormatter::wrap_selection("ab", 1, 1, "*"), "ab");
}

#[test]
fn toggle_italic_twice_restores() {
    let (t1, c1) = InlineFormatter::toggle_italic("hello", 2);
    assert_eq!((t1.as_str(), c1), ("he**llo", 3));
    let (t2, c2) = InlineFormatter::toggle_italic(&t1, c1);
    assert_eq!((t2.as_str(), c2), ("hello", 2));
}

#[test]
fn editor_cursor_counts_bytes() {
    let mut e = RichTextEditor::new();
    e.text_input("é");
    assert_eq!(e.cursor_pos, 2);
    e.text_input("a");
    assert_eq!(e.text, "éa");
    assert_eq!(e.cursor_pos, 3);
    assert!(e.handle_key(EditKey::Backspace));
    assert_eq!(e.text, "é");
    assert_eq!(e.cursor_pos, 2);
    assert!(e.handle_key(EditKey::ArrowLeft));
    assert_eq!(e.cursor_pos, 1);
    assert!(e.handle_key(EditKey::ArrowRight));
    assert_eq!(e.cursor_pos, 2);
    assert!(!e.handle_key(EditKey::ArrowRight));
    e.set_text("b".to_string());
    assert_eq!(e.cursor_pos, 1);
}

#[test]
fn renderer_cuts_by_bytes() {
    let runs = RichTextRenderer::render_segments("*a*é");
    assert_eq!(runs.len(), 2);
    assert_eq!((runs[0].text.as_str(), runs[0].style), ("a", RunStyle::Italic));
    assert_eq!((runs[1].text.as_str(), runs[1].style), ("é", RunStyle::Plain));
}
