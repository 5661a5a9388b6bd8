use ndown::rich_text_editor::history::HistoryManager;
use ndown::rich_text_editor::widget::{InputKey, RepeatKey, RichTextEditor};
use ndown::rich_text_input::cursor::CursorManager;
use ndown::rich_text_input::inline::{parse_inline_formatting, InlineFormat};
use ndown::rich_text_input::text_mapping::TextMapping;
use ndown::rich_text_input::types::{CursorPosition, HistoryEntry, TextSelection};

fn at(i: usize) -> CursorPosition {
    CursorPosition { line: 0, column: i, char_index: i }
}

fn entry(t: &str) -> HistoryEntry {
    HistoryEntry::new(t.to_string(), at(0), None)
}

fn cursor_index(e: &RichTextEditor) -> usize {
    e.cursor.position.char_index
}

#[test]
fn selection_ranges() {
    let s = TextSelection::new(at(5), at(2));
    assert_eq!(s.get_range(), (2, 5));
    assert!(!s.is_empty());
    assert!(TextSelection::new(at(3), at(3)).is_empty());
}

#[test]
fn positions_and_indices() {
    let m = CursorManager::default();
    let p = m.char_index_to_position("ab\ncd", 4);
    assert_eq!((p.line, p.column, p.char_index), (1, 1, 4));
    let q = m.char_index_to_position("ab", 9);
    assert_eq!((q.line, q.column, q.char_index), (0, 2, 9));
    assert_eq!(m.position_to_char_index("ab\ncd", 1, 1), 4);
    assert_eq!(m.position_to_char_index("ab\ncd", 0, 0), 0);
    assert_eq!(m.position_to_char_index("ab\ncd", 5, 0), 5);
}

#[test]
fn cursor_manager_selection() {
    let mut m = CursorManager::default();
    assert_eq!(m.get_selected_text("hello"), None);
    m.start_selection(at(1));
    m.update_selection(at(4));
    assert_eq!(m.get_selected_text("hello"), Some("ell".to_string()));
    m.end_selection();
    assert!(m.drag_start.is_none());
    m.update_selection(at(2));
    assert_eq!(m.get_selected_text("hello"), Some("ell".to_string()));
    m.selection = Some(TextSelection::new(at(3), at(9)));
    assert_eq!(m.get_selected_text("hello"), Some("lo".to_string()));
    m.clear_selection();
    assert!(m.selection.is_none());
}

#[test]
fn input_spans() {
    let spans = parse_inline_formatting("*a* _u_ `c` **bo** x");
    let got: Vec<(usize, usize, InlineFormat)> =
        spans.iter().map(|s| (s.range.start, s.range.end, s.format)).collect();
    assert_eq!(
        got,
        vec![
            (0, 3, InlineFormat::Italic),
            (4, 7, InlineFormat::Underline),
            (8, 11, InlineFormat::Code),
            (12, 19, InlineFormat::Bold),
        ]
    );
}

#[test]
fn short_markers_are_not_spans() {
    assert!(parse_inline_formatting("**").is_empty());
    assert!(parse_inline_formatting("_a").is_empty());
}

#[test]
fn mapping_hides_markers() {
    let m = TextMapping::from_text("*a* b");
    assert_eq!(m.visual_text, "a b");
    assert_eq!(m.segments.len(), 2);
    assert_eq!(m.segments[0].format, Some(InlineFormat::Italic));
    assert_eq!((m.segments[0].visual_start, m.segments[0].visual_end), (0, 1));
    assert_eq!((m.segments[0].real_start, m.segments[0].real_end), (0, 3));
    assert_eq!(m.segments[1].format, None);
    assert_eq!(m.visual_to_real(1), 1);
    assert_eq!(m.visual_to_real(2), 4);
    assert_eq!(m.real_to_visual(4), 2);
    assert_eq!(m.real_to_visual(9), 3);
    let plain = TextMapping::from_text("xyz");
    assert_eq!(plain.visual_text, "xyz");
    assert_eq!(plain.visual_to_real(2), 2);
    let empty = TextMapping::from_text("");
    assert_eq!(empty.visual_to_real(3), 0);
}

#[test]
fn history_undo_redo() {
    let mut h = HistoryManager::default();
    assert!(!h.can_undo());
    h.push(entry("a"));
    h.push(entry("b"));
    assert!(h.can_undo());
    assert_eq!(h.undo().unwrap().text, "b");
    assert_eq!(h.undo().unwrap().text, "a");
    assert!(h.undo().is_none());
    assert!(h.can_redo());
    assert_eq!(h.redo().unwrap().text, "a");
    h.push(entry("c"));
    assert!(!h.can_redo());
    assert_eq!(h.undo().unwrap().text, "c");
    assert_eq!(h.undo().unwrap().text, "a");
}

#[test]
fn history_keeps_at_most_fifty() {
    let mut h = HistoryManager::default();
    for i in 0..55 {
        h.push(entry(&i.to_string()));
    }
    let mut count = 0;
    let mut last = String::new();
    while let Some(e) = h.undo() {
        last = e.text.clone();
        count += 1;
    }
    assert_eq!(count, 50);
    assert_eq!(last, "5");
}

#[test]
fn typing_and_backspace() {
    let mut e = RichTextEditor::new();
    assert_eq!(e.text(), "");
    e.handle_text_input("ab");
    assert_eq!(e.text(), "ab");
    assert_eq!(cursor_index(&e), 2);
    e.press_return();
    e.insert_text_at_cursor("c");
    assert_eq!(e.text(), "ab\nc");
    assert_eq!((e.cursor.position.line, e.cursor.position.column), (1, 1));
    e.press_backspace();
    assert_eq!(e.text(), "ab\n");
    e.perform_backspace();
    assert_eq!(e.text(), "ab");
    assert_eq!(cursor_index(&e), 2);
}

#[test]
fn backspace_then_undo_restores() {
    let mut e = RichTextEditor::new();
    e.handle_text_input("xy");
    e.press_backspace();
    assert_eq!(e.text(), "x");
    e.undo();
    assert_eq!(e.text(), "xy");
    assert_eq!(cursor_index(&e), 2);
    e.redo();
    assert_eq!(e.text(), "xy");
    e.undo();
    e.undo();
    assert_eq!(e.text(), "");
}

#[test]
fn delete_keys() {
    let mut e = RichTextEditor::new();
    e.handle_text_input("abc");
    e.arrow_left(false);
    e.arrow_left(false);
    e.press_delete();
    assert_eq!(e.text(), "ac");
    assert_eq!(cursor_index(&e), 1);
    e.perform_delete();
    assert_eq!(e.text(), "a");
    e.perform_delete();
    assert_eq!(e.text(), "a");
}

#[test]
fn shift_arrows_select_and_typing_replaces() {
    let mut e = RichTextEditor::new();
    e.handle_text_input("hello");
    e.arrow_left(true);
    e.arrow_left(true);
    assert_eq!(e.copy_selection(), Some("lo".to_string()));
    e.handle_text_input("p!");
    assert_eq!(e.text(), "help!");
    assert!(e.cursor.selection.is_none());
    e.arrow_right(false);
    assert_eq!(cursor_index(&e), 5);
}

#[test]
fn select_all_copy_cut_paste() {
    let mut e = RichTextEditor::new();
    e.handle_text_input("abc");
    e.select_all();
    assert_eq!(e.copy_selection(), Some("abc".to_string()));
    assert_eq!(e.text_copy_event(), Some("abc".to_string()));
    assert_eq!(e.clipboard_content, Some("abc".to_string()));
    assert_eq!(e.cut_selection(), Some("abc".to_string()));
    assert_eq!(e.text(), "");
    e.paste_clipboard();
    assert_eq!(e.text(), "abc");
    e.paste_text("!");
    assert_eq!(e.text(), "abc!");
    e.select_all();
    assert_eq!(e.text_cut_event(), Some("abc!".to_string()));
    assert_eq!(e.text(), "");
}

#[test]
fn set_text_clamps_cursor() {
    let mut e = RichTextEditor::new();
    e.handle_text_input("abcdef");
    e.set_text("xy".to_string());
    assert_eq!(e.text(), "xy");
    assert_eq!(cursor_index(&e), 2);
    assert!(e.cursor.selection.is_none());
}

#[test]
fn double_click_selects_word() {
    let mut e = RichTextEditor::new();
    e.handle_text_input("one two, three");
    e.mouse_down(5, true);
    assert_eq!(e.copy_selection(), Some("two".to_string()));
    assert_eq!(cursor_index(&e), 7);
    assert!(e.is_focused);
    e.select_word_at_position(7);
    assert_eq!(e.copy_selection(), Some("two".to_string()));
    e.select_word_at_position(3);
    assert_eq!(e.copy_selection(), Some("one".to_string()));
}

#[test]
fn press_and_drag_select() {
    let mut e = RichTextEditor::new();
    e.handle_text_input("abcdef");
    e.mouse_down(1, false);
    assert!(e.is_dragging);
    assert_eq!(cursor_index(&e), 1);
    e.mouse_drag(4);
    assert_eq!(e.copy_selection(), Some("bcd".to_string()));
    assert_eq!(cursor_index(&e), 4);
}

#[test]
fn keys_through_the_dispatcher() {
    let mut e = RichTextEditor::new();
    e.handle_text_input("ab");
    let out = e.handle_key_down(InputKey::Backspace, false, false);
    assert_eq!(out.repeat, Some(RepeatKey::Backspace));
    assert!(out.redraw);
    assert_eq!(e.text(), "a");
    let a = e.handle_key_down(InputKey::KeyA, false, true);
    assert!(a.redraw);
    let c = e.handle_key_down(InputKey::KeyC, false, true);
    assert_eq!(c.clipboard, Some("a".to_string()));
    assert!(!c.redraw);
    let x = e.handle_key_down(InputKey::KeyX, false, true);
    assert_eq!(x.clipboard, Some("a".to_string()));
    assert_eq!(e.text(), "");
    let z = e.handle_key_down(InputKey::KeyZ, false, true);
    assert!(z.redraw);
    assert_eq!(e.text(), "ab");
    let y = e.handle_key_down(InputKey::KeyY, false, true);
    assert!(y.redraw);
    let other = e.handle_key_down(InputKey::Other, false, false);
    assert!(!other.redraw);
    let d = e.handle_key_down(InputKey::Delete, false, false);
    assert_eq!(d.repeat, Some(RepeatKey::Delete));
}

#[test]
fn typing_then_backspace_restores_text() {
    let mut e = RichTextEditor::new();
    e.handle_text_input("abcd");
    e.arrow_left(false);
    e.arrow_left(false);
    e.handle_text_input("x");
    assert_eq!(e.text(), "abxcd");
    e.perform_backspace();
    assert_eq!(e.text(), "abcd");
    assert_eq!(cursor_index(&e), 2);
}

#[test]
fn index_to_position_and_back() {
    let m = CursorManager::default();
    let text = "ab\ncd\n\nxé";
    for i in 0..=text.chars().count() {
        let p = m.char_index_to_position(text, i);
        assert_eq!(m.position_to_char_index(text, p.line, p.column), i);
    }
}

#[test]
fn mapping_offsets_are_bytes() {
    let m = TextMapping::from_text("é");
    assert_eq!(m.visual_text, "é");
    assert_eq!(m.segments.len(), 1);
    assert_eq!((m.segments[0].visual_start, m.segments[0].visual_end), (0, 2));
    assert_eq!((m.segments[0].real_start, m.segments[0].real_end), (0, 2));
}

#[test]
fn mapping_without_markers_is_identity() {
    let m = TextMapping::from_text("plain text");
    for r in 0..14 {
        let expect = r.min(10);
        assert_eq!(m.real_to_visual(r), expect);
        assert_eq!(m.visual_to_real(m.real_to_visual(r)), expect);
    }
}

#[test]
fn visual_to_real_is_monotone() {
    let m = TextMapping::from_text("a **b** `c` *d* e");
    let mut prev = 0;
    for v in 0..20 {
        let r = m.visual_to_real(v);
        assert!(r >= prev);
        prev = r;
    }
}

#[test]
fn input_positions_are_bytes() {
    let mut e = RichTextEditor::new();
    e.handle_text_input("é");
    assert_eq!(cursor_index(&e), 2);
    e.handle_text_input("ab");
    assert_eq!(e.text(), "éab");
    assert_eq!(cursor_index(&e), 4);
    assert_eq!(e.cursor.position.column, 3);
    e.press_backspace();
    assert_eq!(e.text(), "éa");
    assert_eq!(cursor_index(&e), 3);
    e.select_all();
    assert_eq!(cursor_index(&e), 3);
    assert_eq!(e.copy_selection(), Some("éa".to_string()));
    e.set_text("ü".to_string());
    assert_eq!(cursor_index(&e), 2);
}
