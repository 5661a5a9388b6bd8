use ndown::editor::layout::{
    advance_list_counters, cursor_in_span, list_scan_start, ordered_label, selection_in_span,
};
use ndown::editor::model::block::{Block, BlockType, StyleBits, StyleSpan};
use ndown::editor::model::document::{contains_char, Document};

fn doc_of(texts: &[&str]) -> Document {
    let mut doc = Document::new();
    doc.blocks.clear();
    for (i, t) in texts.iter().enumerate() {
        doc.blocks.push(Block::new(10 + i as u64, BlockType::Paragraph, t));
    }
    doc
}

fn texts(doc: &Document) -> Vec<String> {
    doc.blocks.iter().map(|b| b.text.clone()).collect()
}

const BOLD: StyleBits = StyleBits { is_bold: true, is_italic: false, is_code: false };
const PLAIN: StyleBits = StyleBits { is_bold: false, is_italic: false, is_code: false };

#[test]
fn new_document_holds_the_welcome_blocks() {
    let doc = Document::new();
    assert_eq!(doc.blocks.len(), 3);
    assert_eq!(doc.blocks[0].ty, BlockType::Heading1);
    assert_eq!(doc.blocks[0].text, "Bienvenue dans Ndown");
    assert_eq!(doc.blocks[1].ty, BlockType::Paragraph);
    assert_eq!(doc.blocks[2].ty, BlockType::Quote);
    assert_eq!(doc.blocks[2].id, 3);
    assert_eq!(doc.peek_next_id(), 4);
    assert_eq!(
        doc.to_markdown(),
        "# Bienvenue dans Ndown\n\nCeci est un éditeur basé sur des blocs.\n\n> Essayez de taper # titre ou **gras**."
    );
}

#[test]
fn ids_count_up() {
    let mut doc = Document::new();
    assert_eq!(doc.generate_id(), 4);
    assert_eq!(doc.generate_id(), 5);
    assert_eq!(doc.peek_next_id(), 6);
    let copy = doc.snapshot();
    assert_eq!(copy.peek_next_id(), 6);
    assert_eq!(texts(&copy), texts(&doc));
}

#[test]
fn block_basics() {
    let mut b = Block::new(7, BlockType::Quote, "héllo");
    assert_eq!(b.text_len(), 5);
    assert_eq!(b.full_text(), "héllo");
    assert_eq!(b.styles, vec![StyleSpan { len: 5, style: PLAIN }]);
    assert_eq!(b.indent, 0);
    b.is_dirty = false;
    b.mark_dirty();
    assert!(b.is_dirty);
    assert_eq!(StyleBits::default(), PLAIN);
}

#[test]
fn block_markdown_puts_markers_around_runs() {
    let mut b = Block::new(1, BlockType::Paragraph, "abcdef");
    b.styles = vec![
        StyleSpan { len: 2, style: BOLD },
        StyleSpan { len: 2, style: StyleBits { is_bold: true, is_italic: true, is_code: false } },
        StyleSpan { len: 2, style: StyleBits { is_bold: false, is_italic: false, is_code: true } },
    ];
    assert_eq!(b.to_markdown(), "**ab*****cd***`ef`");
    let mut buf = String::from(">");
    b.write_markdown_to(&mut buf);
    assert_eq!(buf, ">**ab*****cd***`ef`");
}

#[test]
fn prefixes_convert_paragraphs() {
    let mut doc = doc_of(&["# Head", "## Sub", "> Quote", "plain"]);
    assert_eq!(doc.try_convert_block(0), Some(2));
    assert_eq!(doc.blocks[0].ty, BlockType::Heading1);
    assert_eq!(doc.blocks[0].text, "Head");
    assert_eq!(doc.blocks[0].styles[0].len, 4);
    assert_eq!(doc.try_convert_block(1), Some(3));
    assert_eq!(doc.blocks[1].ty, BlockType::Heading2);
    assert_eq!(doc.try_convert_block(2), Some(2));
    assert_eq!(doc.blocks[2].ty, BlockType::Quote);
    assert_eq!(doc.blocks[2].text, "Quote");
    assert_eq!(doc.try_convert_block(3), None);
    assert_eq!(doc.try_convert_block(0), None);
    assert_eq!(doc.try_convert_block(9), None);
}

#[test]
fn merge_appends_to_previous_block() {
    let mut doc = doc_of(&["ab", "cd", "ef"]);
    assert_eq!(doc.merge_block_with_prev(1), Some(2));
    assert_eq!(texts(&doc), vec!["abcd", "ef"]);
    assert_eq!(doc.blocks[0].styles.len(), 2);
    assert_eq!(doc.blocks[0].id, 10);
    assert_eq!(doc.merge_block_with_prev(0), None);
    assert_eq!(doc.merge_block_with_prev(5), None);
}

#[test]
fn insert_and_remove_characters() {
    let mut doc = doc_of(&["hello"]);
    assert_eq!(doc.insert_text_at(0, 2, "XY"), 2);
    assert_eq!(doc.blocks[0].text, "heXYllo");
    assert_eq!(doc.blocks[0].styles, vec![StyleSpan { len: 7, style: PLAIN }]);
    assert_eq!(doc.insert_text_at(0, 99, "!"), 1);
    assert_eq!(doc.blocks[0].text, "heXYllo!");
    assert_eq!(doc.insert_text_at(3, 0, "z"), 0);
    assert!(doc.remove_char_at(0, 2));
    assert_eq!(doc.blocks[0].text, "heYllo!");
    assert!(!doc.remove_char_at(0, 7));
    assert!(!doc.remove_char_at(2, 0));
}

#[test]
fn remove_drops_an_emptied_run() {
    let mut doc = doc_of(&["ab"]);
    doc.blocks[0].styles = vec![StyleSpan { len: 1, style: BOLD }, StyleSpan { len: 1, style: PLAIN }];
    assert!(doc.remove_char_at(0, 0));
    assert_eq!(doc.blocks[0].text, "b");
    assert_eq!(doc.blocks[0].styles, vec![StyleSpan { len: 1, style: PLAIN }]);
}

#[test]
fn remove_undoes_insert_on_a_document() {
    let mut doc = doc_of(&["abc"]);
    doc.insert_text_at(0, 1, "x");
    doc.remove_char_at(0, 1);
    assert_eq!(doc.blocks[0].text, "abc");
    assert_eq!(doc.blocks[0].styles, vec![StyleSpan { len: 3, style: PLAIN }]);
}

#[test]
fn inline_markers_become_styles() {
    let mut doc = doc_of(&["a **b** c", "plain", "`co` *i*"]);
    assert!(doc.apply_inline_formatting(0));
    assert_eq!(doc.blocks[0].text, "a b c");
    assert_eq!(
        doc.blocks[0].styles,
        vec![
            StyleSpan { len: 2, style: PLAIN },
            StyleSpan { len: 1, style: BOLD },
            StyleSpan { len: 2, style: PLAIN },
        ]
    );
    assert_eq!(doc.blocks[0].to_markdown(), "a **b** c");
    assert!(!doc.apply_inline_formatting(1));
    assert_eq!(doc.blocks[1].text, "plain");
    assert!(doc.apply_inline_formatting(2));
    assert_eq!(doc.blocks[2].text, "co i");
    assert!(!doc.apply_inline_formatting(7));
}

#[test]
fn unmatched_marker_stays_text() {
    let mut doc = doc_of(&["a * b"]);
    assert!(!doc.apply_inline_formatting(0));
    assert_eq!(doc.blocks[0].text, "a * b");
}

#[test]
fn wrapping_a_selection_makes_it_bold() {
    let mut doc = doc_of(&["abc def"]);
    assert!(doc.wrap_selection(0, 0, 3, "**"));
    assert_eq!(doc.blocks[0].text, "abc def");
    assert_eq!(
        doc.blocks[0].styles,
        vec![StyleSpan { len: 3, style: BOLD }, StyleSpan { len: 4, style: PLAIN }]
    );
    assert_eq!(doc.to_markdown(), "**abc** def");
}

#[test]
fn deleting_within_one_block() {
    let mut doc = doc_of(&["hello"]);
    assert_eq!(doc.delete_range((0, 1), (0, 3)), (0, 1));
    assert_eq!(doc.blocks[0].text, "hlo");
}

#[test]
fn deleting_across_blocks_merges_them() {
    let mut doc = doc_of(&["hello", "mid", "world", "tail"]);
    assert_eq!(doc.delete_range((0, 1), (2, 2)), (0, 1));
    assert_eq!(texts(&doc), vec!["hrld", "tail"]);
}

#[test]
fn text_in_range_joins_blocks_with_newlines() {
    let doc = doc_of(&["hello", "big", "world"]);
    assert_eq!(doc.get_text_in_range((0, 1), (2, 3)), "ello\nbig\nwor");
    assert_eq!(doc.get_text_in_range((1, 1), (1, 2)), "i");
    assert_eq!(doc.get_text_in_range((0, 9), (0, 12)), "");
}

#[test]
fn toggling_bold_on_a_range() {
    let mut doc = doc_of(&["abcdef"]);
    doc.toggle_formatting(0, 0, 3, 0);
    assert_eq!(doc.blocks[0].text, "abcdef");
    assert_eq!(doc.to_markdown(), "**abc**def");
    doc.toggle_formatting(0, 0, 3, 0);
    assert_eq!(char_styles(&doc.blocks[0]), vec![PLAIN; 6]);
    doc.toggle_formatting(0, 2, 4, 1);
    let italic = StyleBits { is_bold: false, is_italic: true, is_code: false };
    assert_eq!(char_styles(&doc.blocks[0]), vec![PLAIN, PLAIN, italic, italic, PLAIN, PLAIN]);
    assert_eq!(
        doc.blocks[0].styles,
        vec![
            StyleSpan { len: 2, style: PLAIN },
            StyleSpan { len: 1, style: italic },
            StyleSpan { len: 1, style: italic },
            StyleSpan { len: 2, style: PLAIN },
        ]
    );
    assert_eq!(doc.to_markdown(), "ab*c**d*ef");
    assert_eq!(doc.blocks[0].text, "abcdef");
}

fn char_styles(b: &Block) -> Vec<StyleBits> {
    b.styles.iter().flat_map(|s| std::iter::repeat(s.style).take(s.len)).collect()
}

#[test]
fn kind_indent_and_insertion() {
    let mut doc = doc_of(&["a", "b"]);
    doc.set_block_type(1, BlockType::OrderedListItem);
    doc.set_block_indent(1, 2);
    assert_eq!(doc.blocks[1].ty, BlockType::OrderedListItem);
    assert_eq!(doc.blocks[1].indent, 2);
    doc.insert_block(1, Block::new(42, BlockType::Heading3, "new"));
    assert_eq!(texts(&doc), vec!["a", "new", "b"]);
    assert_eq!(doc.to_markdown(), "a\n\n### new\n\nb");
    assert!(doc.runs_fit_check(0, 5));
    assert!(doc.runs_fit_check(9, 5));
}

#[test]
fn char_search() {
    assert!(contains_char(&['a', '*'], '*'));
    assert!(!contains_char(&['a'], '`'));
}

#[test]
fn list_counters() {
    let mut c: Vec<u32> = Vec::new();
    advance_list_counters(&mut c, BlockType::OrderedListItem, 0);
    assert_eq!(c, vec![1]);
    advance_list_counters(&mut c, BlockType::OrderedListItem, 2);
    assert_eq!(c, vec![1, 0, 1]);
    advance_list_counters(&mut c, BlockType::OrderedListItem, 0);
    assert_eq!(c, vec![2, 0, 0]);
    advance_list_counters(&mut c, BlockType::ListItem, 1);
    assert_eq!(c, vec![2, 0, 0]);
    advance_list_counters(&mut c, BlockType::Paragraph, 0);
    assert_eq!(c, vec![0, 0, 0]);
}

#[test]
fn scan_starts_at_list_run() {
    let blocks = vec![
        Block::new(1, BlockType::Paragraph, "p"),
        Block::new(2, BlockType::OrderedListItem, "a"),
        Block::new(3, BlockType::ListItem, "b"),
        Block::new(4, BlockType::Paragraph, "q"),
    ];
    assert_eq!(list_scan_start(&blocks, 3), 1);
    assert_eq!(list_scan_start(&blocks, 1), 1);
    assert_eq!(list_scan_start(&blocks, 4), 4);
    assert_eq!(list_scan_start(&blocks, 0), 0);
}

#[test]
fn number_labels() {
    assert_eq!(ordered_label(12), "12. ");
    assert_eq!(ordered_label(0), "0. ");
}

#[test]
fn selected_part_of_a_run() {
    let sel = Some(((0, 2), (1, 3)));
    assert_eq!(selection_in_span(0, sel, 0, 5), Some((2, 5)));
    assert_eq!(selection_in_span(1, sel, 2, 4), Some((0, 1)));
    assert_eq!(selection_in_span(1, sel, 3, 4), None);
    assert_eq!(selection_in_span(2, sel, 0, 4), None);
    assert_eq!(selection_in_span(0, None, 0, 4), None);
}

#[test]
fn cursor_in_a_run() {
    assert_eq!(cursor_in_span(1, (1, 4), false, 2, 3), Some(2));
    assert_eq!(cursor_in_span(1, (1, 5), false, 2, 3), Some(3));
    assert_eq!(cursor_in_span(1, (1, 4), true, 2, 3), None);
    assert_eq!(cursor_in_span(0, (1, 4), false, 2, 3), None);
}
