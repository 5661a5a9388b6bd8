use ndown::editor::area::{
    blocks_from_content, blocks_from_lines, load_failed_message, normalize_line_breaks,
    parse_markdown_line, EditorAreaState, EditorKey,
};
use ndown::ui::editor::rich_text_editor::split_lines;
use ndown::editor::model::block::{Block, BlockType, StyleBits, StyleSpan};
use ndown::editor::model::document::Document;

fn area_of(blocks: Vec<Block>) -> EditorAreaState {
    let mut doc = Document::new();
    doc.blocks = blocks;
    EditorAreaState::new(doc)
}

fn para(id: u64, t: &str) -> Block {
    Block::new(id, BlockType::Paragraph, t)
}

fn texts(a: &EditorAreaState) -> Vec<String> {
    a.document.blocks.iter().map(|b| b.text.clone()).collect()
}

fn cursor(a: &EditorAreaState) -> (usize, usize) {
    (a.cursor_block, a.cursor_char)
}

#[test]
fn new_state_starts_at_the_top() {
    let a = EditorAreaState::new(Document::new());
    assert_eq!(cursor(&a), (0, 0));
    assert!(a.selection_anchor.is_none());
    assert!(!a.is_dragging);
    assert!(a.current_file.is_none());
    assert_eq!(a.document.blocks.len(), 3);
}

#[test]
fn arrows_move_within_and_across_blocks() {
    let mut a = area_of(vec![para(1, "abc"), para(2, "d")]);
    a.key_down(EditorKey::ArrowRight, false, false);
    assert_eq!(cursor(&a), (0, 1));
    a.cursor_char = 3;
    a.key_down(EditorKey::ArrowRight, false, false);
    assert_eq!(cursor(&a), (1, 0));
    a.key_down(EditorKey::ArrowLeft, false, false);
    assert_eq!(cursor(&a), (0, 3));
    a.key_down(EditorKey::ArrowDown, false, false);
    assert_eq!(cursor(&a), (1, 1));
    a.key_down(EditorKey::ArrowDown, false, false);
    assert_eq!(cursor(&a), (1, 1));
    a.key_down(EditorKey::ArrowUp, false, false);
    assert_eq!(cursor(&a), (0, 1));
    a.cursor_char = 0;
    a.key_down(EditorKey::ArrowLeft, false, false);
    assert_eq!(cursor(&a), (0, 0));
}

#[test]
fn left_then_right_returns() {
    let mut a = area_of(vec![para(1, "ab"), para(2, "cd")]);
    a.cursor_block = 1;
    a.key_down(EditorKey::ArrowLeft, false, false);
    a.key_down(EditorKey::ArrowRight, false, false);
    assert_eq!(cursor(&a), (1, 0));
}

#[test]
fn word_moves() {
    let mut a = area_of(vec![para(1, "hello big world")]);
    a.cursor_char = 8;
    assert_eq!(a.find_prev_word(), 6);
    assert_eq!(a.find_next_word(), 9);
    a.key_down(EditorKey::ArrowLeft, false, true);
    assert_eq!(cursor(&a), (0, 6));
    a.key_down(EditorKey::ArrowLeft, false, true);
    assert_eq!(cursor(&a), (0, 0));
    a.key_down(EditorKey::ArrowRight, false, true);
    assert_eq!(cursor(&a), (0, 5));
    a.key_down(EditorKey::ArrowRight, false, true);
    assert_eq!(cursor(&a), (0, 9));
}

#[test]
fn shift_arrows_select() {
    let mut a = area_of(vec![para(1, "abc")]);
    a.key_down(EditorKey::ArrowRight, true, false);
    a.key_down(EditorKey::ArrowRight, true, false);
    assert_eq!(a.selection_anchor, Some((0, 0)));
    assert_eq!(a.get_selection_range(), Some(((0, 0), (0, 2))));
    assert_eq!(a.copy_selection(), Some("ab".to_string()));
    a.key_down(EditorKey::ArrowLeft, false, false);
    assert!(a.selection_anchor.is_none());
    assert_eq!(a.copy_selection(), None);
}

#[test]
fn selection_is_ordered() {
    let mut a = area_of(vec![para(1, "abc"), para(2, "def")]);
    a.selection_anchor = Some((1, 2));
    a.cursor_char = 1;
    assert_eq!(a.get_selection_range(), Some(((0, 1), (1, 2))));
    assert_eq!(a.copy_selection(), Some("bc\nde".to_string()));
}

#[test]
fn enter_opens_a_paragraph_after_the_block() {
    let mut a = area_of(vec![para(1, "abc")]);
    let next = a.document.peek_next_id();
    a.cursor_char = 1;
    a.key_down(EditorKey::ReturnKey, false, false);
    assert_eq!(texts(&a), vec!["abc", ""]);
    assert_eq!(a.document.blocks[1].id, next);
    assert_eq!(a.document.blocks[1].ty, BlockType::Paragraph);
    assert_eq!(cursor(&a), (1, 0));
    assert_eq!(a.document.peek_next_id(), next + 1);
}

#[test]
fn enter_in_list_keeps_the_list_and_leaves_it_when_empty() {
    let mut item = Block::new(1, BlockType::ListItem, "x");
    item.indent = 1;
    let mut a = area_of(vec![item]);
    a.key_down(EditorKey::ReturnKey, false, false);
    assert_eq!(a.document.blocks[1].ty, BlockType::ListItem);
    assert_eq!(a.document.blocks[1].indent, 1);
    a.key_down(EditorKey::ReturnKey, false, false);
    assert_eq!(a.document.blocks.len(), 2);
    assert_eq!(a.document.blocks[1].indent, 0);
    a.key_down(EditorKey::ReturnKey, false, false);
    assert_eq!(a.document.blocks[1].ty, BlockType::Paragraph);
    assert_eq!(a.document.blocks.len(), 2);
}

#[test]
fn enter_then_backspace_restores_texts() {
    let mut a = area_of(vec![para(1, "abc"), para(2, "d")]);
    a.cursor_char = 3;
    a.key_down(EditorKey::ReturnKey, false, false);
    a.key_down(EditorKey::Backspace, false, false);
    assert_eq!(texts(&a), vec!["abc", "d"]);
    assert_eq!(cursor(&a), (0, 3));
}

#[test]
fn backspace_removes_and_merges() {
    let mut a = area_of(vec![para(1, "ab"), para(2, "cd")]);
    a.cursor_block = 1;
    a.cursor_char = 1;
    a.key_down(EditorKey::Backspace, false, false);
    assert_eq!(texts(&a), vec!["ab", "d"]);
    assert_eq!(cursor(&a), (1, 0));
    a.key_down(EditorKey::Backspace, false, false);
    assert_eq!(texts(&a), vec!["abd"]);
    assert_eq!(cursor(&a), (0, 2));
}

#[test]
fn backspace_at_start_of_heading_makes_a_paragraph() {
    let mut a = area_of(vec![para(1, "a"), Block::new(2, BlockType::Heading2, "h")]);
    a.cursor_block = 1;
    a.key_down(EditorKey::Backspace, false, false);
    assert_eq!(a.document.blocks[1].ty, BlockType::Paragraph);
    assert_eq!(texts(&a), vec!["a", "h"]);
}

#[test]
fn ctrl_backspace_deletes_the_word() {
    let mut a = area_of(vec![para(1, "one two")]);
    a.cursor_char = 7;
    a.key_down(EditorKey::Backspace, false, true);
    assert_eq!(texts(&a), vec!["one "]);
    assert_eq!(cursor(&a), (0, 4));
}

#[test]
fn delete_removes_forward_and_joins() {
    let mut a = area_of(vec![para(1, "ab"), para(2, "cd")]);
    a.key_down(EditorKey::Delete, false, false);
    assert_eq!(texts(&a), vec!["b", "cd"]);
    a.cursor_char = 1;
    a.key_down(EditorKey::Delete, false, false);
    assert_eq!(texts(&a), vec!["bcd"]);
    a.cursor_char = 0;
    a.key_down(EditorKey::Delete, false, true);
    assert_eq!(texts(&a), vec![""]);
}

#[test]
fn delete_with_selection_removes_it() {
    let mut a = area_of(vec![para(1, "abc"), para(2, "def")]);
    a.selection_anchor = Some((0, 1));
    a.cursor_block = 1;
    a.cursor_char = 1;
    a.key_down(EditorKey::Delete, false, false);
    assert_eq!(texts(&a), vec!["aef"]);
    assert_eq!(cursor(&a), (0, 1));
    assert!(a.selection_anchor.is_none());
}

#[test]
fn tab_indents_list_blocks() {
    let mut a = area_of(vec![Block::new(1, BlockType::OrderedListItem, "x"), para(2, "p")]);
    a.key_down(EditorKey::Tab, false, false);
    assert_eq!(a.document.blocks[0].indent, 1);
    a.key_down(EditorKey::Tab, true, false);
    assert_eq!(a.document.blocks[0].indent, 0);
    a.key_down(EditorKey::Tab, true, false);
    assert_eq!(a.document.blocks[0].indent, 0);
    a.cursor_block = 1;
    a.key_down(EditorKey::Tab, false, false);
    assert_eq!(a.document.blocks[1].indent, 0);
}

#[test]
fn typing_inserts_at_cursor() {
    let mut a = area_of(vec![para(1, "ac")]);
    a.cursor_char = 1;
    a.text_input("b");
    assert_eq!(texts(&a), vec!["abc"]);
    assert_eq!(cursor(&a), (0, 2));
    a.text_input("\u{7}");
    assert_eq!(texts(&a), vec!["abc"]);
    a.text_input("");
    assert_eq!(texts(&a), vec!["abc"]);
}

#[test]
fn typing_a_prefix_converts_the_paragraph() {
    let mut a = area_of(vec![para(1, "")]);
    a.text_input("#");
    a.text_input(" ");
    assert_eq!(a.document.blocks[0].ty, BlockType::Heading1);
    assert_eq!(texts(&a), vec![""]);
    assert_eq!(cursor(&a), (0, 0));
}

#[test]
fn typing_a_space_applies_inline_formatting() {
    let mut a = area_of(vec![para(1, "")]);
    a.text_input("**b**");
    assert_eq!(texts(&a), vec!["**b**"]);
    a.text_input(" ");
    assert_eq!(texts(&a), vec!["b "]);
    assert_eq!(cursor(&a), (0, 2));
    assert_eq!(a.document.to_markdown(), "**b** ");
}

#[test]
fn typing_replaces_the_selection() {
    let mut a = area_of(vec![para(1, "abcd")]);
    a.selection_anchor = Some((0, 1));
    a.cursor_char = 3;
    a.text_input("X");
    assert_eq!(texts(&a), vec!["aXd"]);
    assert_eq!(cursor(&a), (0, 2));
    assert!(a.selection_anchor.is_none());
}

#[test]
fn typing_a_marker_wraps_the_selection() {
    let mut a = area_of(vec![para(1, "abc def")]);
    a.selection_anchor = Some((0, 0));
    a.cursor_char = 3;
    a.text_input("*");
    assert_eq!(texts(&a), vec!["abc def"]);
    assert_eq!(a.document.to_markdown(), "*abc* def");
    assert_eq!(a.selection_anchor, Some((0, 0)));
    assert_eq!(cursor(&a), (0, 3));
}

#[test]
fn paste_splits_lines_into_blocks() {
    let mut a = area_of(vec![para(1, "abcd")]);
    a.cursor_char = 2;
    assert_eq!(a.paste("x\r\ny"), 0);
    assert_eq!(texts(&a), vec!["abx", "ycd"]);
    assert_eq!(cursor(&a), (1, 1));
}

#[test]
fn paste_single_line_and_empty() {
    let mut a = area_of(vec![para(1, "ab")]);
    a.cursor_char = 1;
    a.paste("XY");
    assert_eq!(texts(&a), vec!["aXYb"]);
    assert_eq!(cursor(&a), (0, 3));
    a.paste("");
    assert_eq!(texts(&a), vec!["aXYb"]);
}

#[test]
fn cut_and_select_all() {
    let mut a = area_of(vec![para(1, "hello")]);
    a.cursor_char = 2;
    a.select_all();
    assert_eq!(a.selection_anchor, Some((0, 0)));
    assert_eq!(cursor(&a), (0, 5));
    assert_eq!(a.copy_selection(), Some("hello".to_string()));
    assert_eq!(a.cut_selection(), Some("hello".to_string()));
    assert_eq!(texts(&a), vec![""]);
    assert_eq!(cursor(&a), (0, 0));
    assert_eq!(a.cut_selection(), None);
}

#[test]
fn shortcut_without_selection_inserts_markers() {
    let mut a = area_of(vec![para(1, "ab")]);
    a.cursor_char = 1;
    a.format_shortcut(true);
    assert_eq!(texts(&a), vec!["a****b"]);
    assert_eq!(cursor(&a), (0, 3));
    let mut b = area_of(vec![para(1, "ab")]);
    b.format_shortcut(false);
    assert_eq!(texts(&b), vec!["**ab"]);
    assert_eq!(cursor(&b), (0, 1));
}

#[test]
fn shortcut_with_selection_toggles_style() {
    let mut a = area_of(vec![para(1, "abcd")]);
    a.selection_anchor = Some((0, 1));
    a.cursor_char = 3;
    a.format_shortcut(true);
    assert_eq!(texts(&a), vec!["abcd"]);
    assert_eq!(a.document.to_markdown(), "a**bc**d");
    assert_eq!(cursor(&a), (0, 3));
}

#[test]
fn pointer_selection() {
    let mut a = area_of(vec![para(1, "abc"), para(2, "def")]);
    a.finger_down();
    assert!(a.is_dragging);
    a.apply_hit(0, 1);
    assert_eq!(a.selection_anchor, Some((0, 1)));
    a.apply_hit(1, 2);
    assert_eq!(cursor(&a), (1, 2));
    a.finger_up();
    assert!(!a.is_dragging);
    assert_eq!(a.selection_anchor, Some((0, 1)));
}

#[test]
fn click_without_drag_leaves_no_selection() {
    let mut a = area_of(vec![para(1, "abc")]);
    a.finger_down();
    a.apply_hit(0, 2);
    a.finger_up();
    assert!(a.selection_anchor.is_none());
    assert_eq!(cursor(&a), (0, 2));
}

#[test]
fn loading_and_saving() {
    let mut a = area_of(vec![para(1, "x")]);
    let (_, path) = a.save_request();
    assert_eq!(path, "story.md");
    a.cursor_char = 1;
    a.file_loaded("notes.md".to_string(), vec![para(5, "new"), para(6, "file")]);
    assert_eq!(texts(&a), vec!["new", "file"]);
    assert_eq!(cursor(&a), (0, 0));
    assert_eq!(a.current_file, Some("notes.md".to_string()));
    let (doc, path) = a.save_request();
    assert_eq!(path, "notes.md");
    assert_eq!(doc.to_markdown(), "new\n\nfile");
    a.set_document(Document::new());
    assert_eq!(a.document.blocks.len(), 3);
}

#[test]
fn line_breaks_normalized() {
    let got: String = normalize_line_breaks("a\r\nb\rc\n").into_iter().collect();
    assert_eq!(got, "a\nb\nc\n");
}

#[test]
fn markdown_lines_to_kinds() {
    assert_eq!(parse_markdown_line("# T"), (BlockType::Heading1, "T".to_string()));
    assert_eq!(parse_markdown_line("##### five"), (BlockType::Heading5, "five".to_string()));
    assert_eq!(parse_markdown_line("> q"), (BlockType::Quote, "q".to_string()));
    assert_eq!(parse_markdown_line("#x"), (BlockType::Paragraph, "#x".to_string()));
}

#[test]
fn blocks_from_file_lines() {
    let lines = vec!["## a".to_string(), "b".to_string()];
    let blocks = blocks_from_lines(&lines);
    assert_eq!(blocks.len(), 2);
    assert_eq!(blocks[0].id, 1000);
    assert_eq!(blocks[0].ty, BlockType::Heading2);
    assert_eq!(blocks[0].text, "a");
    assert_eq!(blocks[1].id, 1001);
    assert_eq!(blocks[1].styles, vec![StyleSpan { len: 1, style: StyleBits::default() }]);
    let empty = blocks_from_lines(&Vec::new());
    assert_eq!(empty.len(), 1);
    assert_eq!(empty[0].id, 1000);
    assert_eq!(empty[0].text, "");
}

#[test]
fn saved_lines_read_back() {
    let mut doc = Document::new();
    doc.blocks = vec![
        Block::new(1, BlockType::Heading1, "Title"),
        Block::new(2, BlockType::Quote, "said"),
        Block::new(3, BlockType::Heading3, "small"),
        para(4, "body"),
    ];
    let saved = doc.to_markdown();
    let kinds: Vec<(BlockType, String)> =
        saved.split("\n\n").map(|l| parse_markdown_line(l)).collect();
    assert_eq!(
        kinds,
        vec![
            (BlockType::Heading1, "Title".to_string()),
            (BlockType::Quote, "said".to_string()),
            (BlockType::Heading3, "small".to_string()),
            (BlockType::Paragraph, "body".to_string()),
        ]
    );
}

#[test]
fn right_then_left_returns() {
    let mut a = area_of(vec![para(1, "abc")]);
    a.cursor_char = 1;
    a.key_down(EditorKey::ArrowRight, false, false);
    a.key_down(EditorKey::ArrowLeft, false, false);
    assert_eq!(cursor(&a), (0, 1));
}

#[test]
fn load_request_sets_current_file_at_once() {
    let mut a = area_of(vec![para(1, "keep"), para(2, "this")]);
    a.key_down(EditorKey::ArrowRight, false, false);
    a.load_requested("missing.md".to_string());
    assert_eq!(a.current_file, Some("missing.md".to_string()));
    assert_eq!(texts(&a), vec!["keep".to_string(), "this".to_string()]);
    assert_eq!((a.cursor_block, a.cursor_char), (0, 1));
    let (_, path) = a.save_request();
    assert_eq!(path, "missing.md");
}

#[test]
fn load_failure_message_names_the_file() {
    assert_eq!(load_failed_message("notes.md"), "Failed to open notes.md");
    assert_eq!(load_failed_message(""), "Failed to open ");
}

#[test]
fn content_is_split_into_line_blocks() {
    let blocks = blocks_from_content("# Title\r\n> quote\nplain\n");
    assert_eq!(blocks.len(), 3);
    assert_eq!((blocks[0].id, blocks[0].ty, blocks[0].text.as_str()), (1000, BlockType::Heading1, "Title"));
    assert_eq!((blocks[1].id, blocks[1].ty, blocks[1].text.as_str()), (1001, BlockType::Quote, "quote"));
    assert_eq!((blocks[2].id, blocks[2].ty, blocks[2].text.as_str()), (1002, BlockType::Paragraph, "plain"));
    let empty = blocks_from_content("");
    assert_eq!(empty.len(), 1);
    assert_eq!((empty[0].id, empty[0].ty, empty[0].text.as_str()), (1000, BlockType::Paragraph, ""));
    let blank = blocks_from_content("\n");
    assert_eq!(blank.len(), 1);
    assert_eq!(blank[0].text, "");
}

#[test]
fn split_lines_matches_reading_by_line() {
    assert_eq!(split_lines("a\r\nb\n\nc"), vec!["a", "b", "", "c"]);
    assert_eq!(split_lines("a\n"), vec!["a"]);
    assert_eq!(split_lines("a\r"), vec!["a\r"]);
    assert!(split_lines("").is_empty());
}

#[test]
fn cursor_stays_within_its_block() {
    let mut a = area_of(vec![para(1, "hello world"), para(2, "hi")]);
    let keys = [
        EditorKey::ArrowRight,
        EditorKey::ArrowRight,
        EditorKey::ArrowDown,
        EditorKey::ArrowRight,
        EditorKey::ArrowRight,
        EditorKey::ArrowUp,
        EditorKey::Backspace,
        EditorKey::Delete,
        EditorKey::ReturnKey,
        EditorKey::Backspace,
    ];
    for key in keys {
        for ctrl in [false, true] {
            a.key_down(key, false, ctrl);
            let len = a.document.blocks[a.cursor_block].text.chars().count();
            assert!(a.cursor_block < a.document.blocks.len());
            assert!(a.cursor_char <= len);
        }
    }
    a.text_input("xy");
    a.paste("one\ntwo");
    let len = a.document.blocks[a.cursor_block].text.chars().count();
    assert!(a.cursor_char <= len);
}


#[test]
fn loading_keeps_the_selection_anchor() {
    let mut a = area_of(vec![para(1, "a"), para(2, "b"), para(3, "c")]);
    a.selection_anchor = Some((2, 1));
    a.file_loaded("short.md".to_string(), vec![para(5, "x")]);
    assert_eq!(a.selection_anchor, Some((2, 1)));
    assert_eq!(cursor(&a), (0, 0));
    a.set_document(Document::new());
    assert_eq!(a.selection_anchor, Some((2, 1)));
}
