use ndown::model::block::{copy_spans, Block, BlockType, TextSpan};
use ndown::model::document::Document;
use ndown::ui::editor::area::{AreaKey, EditorAreaState};
use ndown::ui::editor::rich_text_editor::{LineKey, RichTextEditor};

fn span(t: &str, bold: bool, italic: bool, code: bool) -> TextSpan {
    TextSpan { text: t.to_string(), is_bold: bold, is_italic: italic, is_code: code }
}

fn doc_of(texts: &[&str]) -> Document {
    let mut doc = Document::new();
    doc.blocks.clear();
    for (i, t) in texts.iter().enumerate() {
        doc.blocks.push(Block::new(20 + i as u64, BlockType::Paragraph, t));
    }
    doc
}

fn texts(doc: &Document) -> Vec<String> {
    doc.blocks.iter().map(|b| b.full_text()).collect()
}

#[test]
fn spans_and_blocks() {
    let s = TextSpan::new("héllo");
    assert_eq!(s.len(), 5);
    assert!(!s.is_bold && !s.is_italic && !s.is_code);
    let mut b = Block::new(3, BlockType::Quote, "x");
    b.content.push(span("y", true, false, false));
    assert_eq!(b.full_text(), "xy");
    assert_eq!(b.text_len(), 2);
    assert_eq!(b.to_markdown(), "x**y**");
    let copy = copy_spans(&b.content);
    assert_eq!(copy.len(), 2);
    assert_eq!(copy[1].text, "y");
    b.is_dirty = false;
    b.mark_dirty();
    assert!(b.is_dirty);
}

#[test]
fn span_markdown_markers() {
    let mut b = Block::new(1, BlockType::Paragraph, "");
    b.content = vec![span("a", true, true, false), span("c", false, false, true)];
    let mut buf = String::from("> ");
    b.write_markdown_to(&mut buf);
    assert_eq!(buf, "> ***a***`c`");
}

#[test]
fn starting_document() {
    let mut doc = Document::new();
    assert_eq!(doc.blocks.len(), 4);
    assert_eq!(doc.peek_next_id(), 5);
    assert_eq!(doc.generate_id(), 5);
    assert_eq!(
        doc.to_markdown(),
        "# Bienvenue dans Ndown\n\nCeci est un éditeur basé sur des blocs.\n\n> Essayez de taper # titre ou **gras**.\n\nFaites Ctrl+S pour sauvegarder dans story.md"
    );
}

#[test]
fn span_conversion_and_merge() {
    let mut doc = doc_of(&["## Sub", "> q", "x", "y"]);
    assert_eq!(doc.try_convert_block(0), Some(3));
    assert_eq!(doc.blocks[0].ty, BlockType::Heading2);
    assert_eq!(doc.blocks[0].full_text(), "Sub");
    assert_eq!(doc.try_convert_block(1), Some(2));
    assert_eq!(doc.blocks[1].ty, BlockType::Quote);
    assert_eq!(doc.try_convert_block(2), None);
    assert_eq!(doc.merge_block_with_prev(3), Some(1));
    assert_eq!(texts(&doc), vec!["Sub", "q", "xy"]);
    assert_eq!(doc.blocks[2].content.len(), 2);
    assert_eq!(doc.merge_block_with_prev(0), None);
}

#[test]
fn span_insert_remove() {
    let mut doc = doc_of(&["ab"]);
    doc.blocks[0].content.push(span("cd", true, false, false));
    assert_eq!(doc.insert_text_at(0, 3, "X"), 1);
    assert_eq!(doc.blocks[0].content[1].text, "cXd");
    assert_eq!(doc.insert_text_at(0, 2, "Y"), 1);
    assert_eq!(doc.blocks[0].content[0].text, "abY");
    assert_eq!(doc.insert_text_at(0, 99, "Z"), 1);
    assert_eq!(texts(&doc), vec!["abYcXdZ"]);
    assert!(doc.remove_char_at(0, 0));
    assert_eq!(texts(&doc), vec!["bYcXdZ"]);
    assert!(!doc.remove_char_at(0, 6));
    assert_eq!(doc.block_len(0), 6);
}

#[test]
fn span_formatting() {
    let mut doc = doc_of(&["a **b** c", "none"]);
    assert!(doc.apply_inline_formatting(0));
    let spans: Vec<(String, bool)> =
        doc.blocks[0].content.iter().map(|s| (s.text.clone(), s.is_bold)).collect();
    assert_eq!(
        spans,
        vec![("a ".to_string(), false), ("b".to_string(), true), (" c".to_string(), false)]
    );
    assert!(!doc.apply_inline_formatting(1));
}

#[test]
fn span_wrap_and_delete() {
    let mut doc = doc_of(&["abc def", "ghi"]);
    doc.wrap_selection(0, 0, 3, "`");
    assert_eq!(doc.blocks[0].content[0].text, "abc");
    assert!(doc.blocks[0].content[0].is_code);
    assert_eq!(doc.delete_range((0, 2), (1, 1)), (0, 2));
    assert_eq!(texts(&doc), vec!["abhi"]);
    doc.insert_block(1, Block::new(9, BlockType::Heading1, "t"));
    assert_eq!(doc.to_markdown(), "`ab`hi\n\n# t");
}

#[test]
fn area_starts_on_the_welcome_document() {
    let a = EditorAreaState::new();
    assert_eq!(a.document.blocks.len(), 4);
    assert_eq!((a.cursor_block, a.cursor_char), (0, 0));
    assert!(a.get_selection_range().is_none());
}

#[test]
fn area_pointer_and_keys() {
    let mut a = EditorAreaState::new();
    a.document = doc_of(&["abc", "de"]);
    a.finger_down(1, 9, false);
    assert_eq!((a.cursor_block, a.cursor_char), (1, 2));
    assert_eq!(a.selection_anchor, Some((1, 2)));
    a.finger_move(0, 1);
    assert_eq!((a.cursor_block, a.cursor_char), (0, 1));
    a.finger_up();
    assert!(!a.is_dragging);
    assert_eq!(a.get_selection_range(), Some(((0, 1), (1, 2))));
    a.key_down(AreaKey::ArrowRight, false, false);
    assert!(a.selection_anchor.is_none());
    assert_eq!((a.cursor_block, a.cursor_char), (0, 2));
    a.key_down(AreaKey::ReturnKey, false, false);
    assert_eq!(texts(&a.document), vec!["abc", "", "de"]);
    assert_eq!((a.cursor_block, a.cursor_char), (1, 0));
    a.key_down(AreaKey::Backspace, false, false);
    assert_eq!((a.cursor_block, a.cursor_char), (0, 3));
    a.key_down(AreaKey::Backspace, false, false);
    assert_eq!(texts(&a.document), vec!["ab", "", "de"]);
}

#[test]
fn click_without_move_drops_selection() {
    let mut a = EditorAreaState::new();
    a.finger_down(0, 2, false);
    a.finger_up();
    assert!(a.selection_anchor.is_none());
    a.finger_down(9, 3, false);
    assert_eq!((a.cursor_block, a.cursor_char), (3, 0));
}

#[test]
fn area_typing() {
    let mut a = EditorAreaState::new();
    a.document = doc_of(&[""]);
    a.text_input("#");
    a.text_input(" ");
    assert_eq!(a.document.blocks[0].ty, BlockType::Heading1);
    assert_eq!((a.cursor_block, a.cursor_char), (0, 0));
    a.text_input("*x* ");
    assert_eq!(texts(&a.document), vec!["*x* "]);
    a.text_input(" ");
    assert_eq!(texts(&a.document), vec!["x  "]);
    assert_eq!(a.cursor_char, 3);
}

#[test]
fn lines_editor_keys() {
    let mut e = RichTextEditor::new();
    e.text_input("abcd");
    e.cursor_col = 2;
    e.handle_key(LineKey::ReturnKey);
    assert_eq!(e.lines, vec!["ab", "cd"]);
    assert_eq!((e.cursor_line, e.cursor_col), (1, 0));
    e.handle_key(LineKey::Backspace);
    assert_eq!(e.lines, vec!["abcd"]);
    assert_eq!((e.cursor_line, e.cursor_col), (0, 2));
    e.handle_key(LineKey::Backspace);
    assert_eq!(e.lines, vec!["acd"]);
    e.handle_key(LineKey::ArrowRight);
    e.handle_key(LineKey::ArrowRight);
    e.handle_key(LineKey::ArrowRight);
    assert_eq!(e.cursor_col, 3);
    e.handle_key(LineKey::Other);
    assert_eq!(e.get_text(), "acd");
}

#[test]
fn lines_editor_text() {
    let mut e = RichTextEditor::new();
    e.set_text("one\r\ntwo\n");
    assert_eq!(e.lines, vec!["one", "two"]);
    assert_eq!(e.get_text(), "one\ntwo");
    e.cursor_line = 1;
    e.cursor_col = 3;
    e.handle_key(LineKey::ArrowUp);
    assert_eq!((e.cursor_line, e.cursor_col), (0, 3));
    e.handle_key(LineKey::ArrowDown);
    assert_eq!((e.cursor_line, e.cursor_col), (1, 3));
    e.set_text("");
    assert_eq!(e.lines, vec![""]);
    assert_eq!((e.cursor_line, e.cursor_col), (1, 3));
}

#[test]
fn lines_editor_columns_are_bytes() {
    let mut e = RichTextEditor::new();
    e.text_input("éa");
    assert_eq!(e.cursor_col, 3);
    e.handle_key(LineKey::Backspace);
    assert_eq!(e.lines, vec!["é"]);
    assert_eq!(e.cursor_col, 2);
    e.handle_key(LineKey::ArrowLeft);
    assert_eq!(e.cursor_col, 1);
    e.handle_key(LineKey::ArrowLeft);
    e.handle_key(LineKey::ArrowRight);
    e.handle_key(LineKey::ArrowRight);
    assert_eq!(e.cursor_col, 2);
    e.handle_key(LineKey::ReturnKey);
    assert_eq!(e.lines, vec!["é", ""]);
    e.text_input("ü");
    e.handle_key(LineKey::ArrowUp);
    assert_eq!((e.cursor_line, e.cursor_col), (0, 2));
    e.cursor_col = 0;
    e.cursor_line = 1;
    e.handle_key(LineKey::Backspace);
    assert_eq!(e.lines, vec!["éü"]);
    assert_eq!((e.cursor_line, e.cursor_col), (0, 2));
}

#[test]
fn lines_editor_reads_back_its_text() {
    let mut e = RichTextEditor::new();
    for t in ["a\nb c", "", "one", "x\n\ny"] {
        e.set_text(t);
        assert_eq!(e.get_text(), t);
    }
    e.set_text("ends\n");
    assert_eq!(e.get_text(), "ends");
}
