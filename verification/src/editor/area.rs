//! The editing state behind the document editor widget: the document, the
//! cursor, the selection anchor and the drag state, and what each event
//! does to them.
use vstd::prelude::*;

use crate::ui::editor::rich_text_editor::{
    lemma_lines_of_len, lines_of, split_lines,
};
use crate::editor::model::block::{plain_style, Block, BlockType, BlockView, StyleSpan};
use crate::editor::model::document::{
    block_after_insert, blocks_view, converted_block, doc_after_convert, doc_after_delete_range,
    doc_after_format, doc_after_insert,
    doc_after_merge, doc_after_remove, doc_after_wrap, range_text, runs_fit, type_prefix,
    wrap_consumed, Document,
};
use crate::editor::model::formatting::{char_styles, toggled_runs, toggled_styles};
use crate::text::{
    count_char, find_from, find_seq, lemma_count_char_concat, lemma_find_from, lemma_find_from_shift,
    matches_at, occurs_at, push_char, push_str, starts_with, string_of, chars_of, char_count_bound, is_control, is_control_char, is_white_space, is_whitespace,
};

verus! {

/// The editing state of the document editor.
#[derive(Debug)]
pub struct EditorAreaState {
    pub document: Document,
    pub cursor_block: usize,
    pub cursor_char: usize,
    pub selection_anchor: Option<(usize, usize)>,
    pub is_dragging: bool,
    pub current_file: Option<String>,
}

/// A position as a pair of integers.
pub open spec fn pos(p: (usize, usize)) -> (int, int) {
    (p.0 as int, p.1 as int)
}

/// `a` comes before `b`: an earlier block, or the same block and an
/// earlier character.
pub open spec fn pos_lt(a: (usize, usize), b: (usize, usize)) -> bool {
    a.0 < b.0 || (a.0 == b.0 && a.1 < b.1)
}

/// The selection of an anchor and a cursor, in document order.
pub open spec fn selection_of(anchor: Option<(usize, usize)>, cursor: (usize, usize)) -> Option<
    ((usize, usize), (usize, usize)),
> {
    match anchor {
        Some(a) => if pos_lt(a, cursor) {
            Some((a, cursor))
        } else {
            Some((cursor, a))
        },
        None => None,
    }
}

/// Moving back from `i` over white space (positions past the end count as
/// such).
pub open spec fn skip_back_ws(t: Seq<char>, i: int) -> int
    decreases i,
{
    if i <= 0 {
        0
    } else if i - 1 < t.len() && !is_white_space(t[i - 1]) {
        i
    } else {
        skip_back_ws(t, i - 1)
    }
}

/// Moving back from `i` over characters that are not white space.
pub open spec fn skip_back_word(t: Seq<char>, i: int) -> int
    decreases i,
{
    if i <= 0 {
        0
    } else if i - 1 < t.len() && is_white_space(t[i - 1]) {
        i
    } else {
        skip_back_word(t, i - 1)
    }
}

/// The start of the word before position `c`.
pub open spec fn prev_word(t: Seq<char>, c: int) -> int {
    if c == 0 {
        0
    } else {
        skip_back_word(t, skip_back_ws(t, c))
    }
}

/// Moving forward from `i` over white space, up to the end.
pub open spec fn skip_fwd_ws(t: Seq<char>, i: int) -> int
    decreases t.len() - i,
{
    if i >= t.len() || i < 0 {
        i
    } else if !is_white_space(t[i]) {
        i
    } else {
        skip_fwd_ws(t, i + 1)
    }
}

/// Moving forward from `i` over characters that are not white space.
pub open spec fn skip_fwd_word(t: Seq<char>, i: int) -> int
    decreases t.len() - i,
{
    if i >= t.len() || i < 0 {
        i
    } else if is_white_space(t[i]) {
        i
    } else {
        skip_fwd_word(t, i + 1)
    }
}

/// The end of the word at or after position `c`.
pub open spec fn next_word(t: Seq<char>, c: int) -> int {
    skip_fwd_word(t, skip_fwd_ws(t, c))
}


/// Keys the document editor reacts to (besides its shortcuts).
#[derive(Debug, Clone, Copy, PartialEq, Eq, Structural)]
pub enum EditorKey {
    ArrowUp,
    ArrowDown,
    ArrowLeft,
    ArrowRight,
    Tab,
    ReturnKey,
    Delete,
    Backspace,
    Other,
}

/// The editing state, abstractly: the blocks, the cursor, the anchor and
/// the next block identity.
pub struct AreaModel {
    pub blocks: Seq<BlockView>,
    pub cursor: (usize, usize),
    pub anchor: Option<(usize, usize)>,
    pub next_id: u64,
}

/// A list block.
pub open spec fn is_list(ty: BlockType) -> bool {
    ty == BlockType::ListItem || ty == BlockType::OrderedListItem
}

/// An arrow key.
pub open spec fn is_arrow(key: EditorKey) -> bool {
    key == EditorKey::ArrowUp || key == EditorKey::ArrowDown || key == EditorKey::ArrowLeft || key
        == EditorKey::ArrowRight
}

/// `m` with block `idx` replaced by `b`.
pub open spec fn with_block(m: AreaModel, idx: int, b: BlockView) -> AreaModel {
    AreaModel { blocks: m.blocks.update(idx, b), ..m }
}

/// Number of characters of block `idx`.
pub open spec fn block_len(m: AreaModel, idx: int) -> int {
    m.blocks[idx].text.len() as int
}

/// Shift starts a selection at the cursor when there is none; an arrow
/// without Shift or Ctrl ends it.
pub open spec fn anchor_step(m: AreaModel, key: EditorKey, shift: bool, ctrl: bool) -> AreaModel {
    if shift {
        if m.anchor is None {
            AreaModel { anchor: Some(m.cursor), ..m }
        } else {
            m
        }
    } else if !ctrl && is_arrow(key) {
        AreaModel { anchor: None, ..m }
    } else {
        m
    }
}

/// Tab indents a list block by one level (at most 10), Shift+Tab takes
/// one level away; other blocks stay.
pub open spec fn tab_effect(m: AreaModel, shift: bool) -> AreaModel {
    let i = m.cursor.0 as int;
    let b = m.blocks[i];
    if is_list(b.ty) {
        if shift {
            if b.indent > 0 {
                with_block(m, i, BlockView { indent: (b.indent - 1) as usize, ..b })
            } else {
                m
            }
        } else if b.indent < 10 {
            with_block(m, i, BlockView { indent: (b.indent + 1) as usize, ..b })
        } else {
            m
        }
    } else {
        m
    }
}

/// The arrows: up and down keep the character position within the new
/// block's length; left and right move by a character, across block ends,
/// or with Ctrl by a word.
pub open spec fn arrow_effect(m: AreaModel, key: EditorKey, ctrl: bool) -> AreaModel {
    let (cb, cc) = m.cursor;
    let n = m.blocks.len();
    match key {
        EditorKey::ArrowUp => if cb > 0 {
            let l = block_len(m, cb - 1);
            AreaModel {
                cursor: ((cb - 1) as usize, if cc < l {
                    cc
                } else {
                    l as usize
                }),
                ..m
            }
        } else {
            m
        },
        EditorKey::ArrowDown => if cb + 1 < n {
            let l = block_len(m, cb + 1);
            AreaModel {
                cursor: ((cb + 1) as usize, if cc < l {
                    cc
                } else {
                    l as usize
                }),
                ..m
            }
        } else {
            m
        },
        EditorKey::ArrowLeft => if ctrl {
            AreaModel { cursor: (cb, prev_word(m.blocks[cb as int].text, cc as int) as usize), ..m }
        } else if cc > 0 {
            AreaModel { cursor: (cb, (cc - 1) as usize), ..m }
        } else if cb > 0 {
            AreaModel { cursor: ((cb - 1) as usize, block_len(m, cb - 1) as usize), ..m }
        } else {
            m
        },
        EditorKey::ArrowRight => if ctrl {
            AreaModel { cursor: (cb, next_word(m.blocks[cb as int].text, cc as int) as usize), ..m }
        } else if cc < block_len(m, cb as int) {
            AreaModel { cursor: (cb, (cc + 1) as usize), ..m }
        } else if cb + 1 < n {
            AreaModel { cursor: ((cb + 1) as usize, 0), ..m }
        } else {
            m
        },
        _ => m,
    }
}

/// Enter in an empty list block leaves one level of the list (or the list
/// itself); anywhere else it opens a new empty block after the cursor's
/// block (a list block at the same level after a list block, else a
/// paragraph) with the next identity, and moves the cursor there.
pub open spec fn return_effect(m0: AreaModel) -> AreaModel {
    let m = AreaModel { anchor: None, ..m0 };
    let i = m.cursor.0 as int;
    let b = m.blocks[i];
    if is_list(b.ty) && b.text.len() == 0 {
        if b.indent > 0 {
            with_block(m, i, BlockView { indent: (b.indent - 1) as usize, ..b })
        } else {
            with_block(m, i, BlockView { ty: BlockType::Paragraph, ..b })
        }
    } else {
        let nb = BlockView {
            id: m.next_id,
            ty: if is_list(b.ty) {
                b.ty
            } else {
                BlockType::Paragraph
            },
            text: seq![],
            styles: seq![StyleSpan { len: 0, style: plain_style() }],
            indent: if is_list(b.ty) {
                b.indent
            } else {
                0
            },
            is_dirty: true,
        };
        AreaModel {
            blocks: m.blocks.insert(i + 1, nb),
            cursor: ((i + 1) as usize, 0),
            next_id: (m.next_id + 1) as u64,
            ..m
        }
    }
}

/// Whether Enter makes a new block (and needs a fresh identity).
pub open spec fn return_creates_block(m: AreaModel) -> bool {
    let b = m.blocks[m.cursor.0 as int];
    !(is_list(b.ty) && b.text.len() == 0)
}

/// The style runs of the blocks at `a` and `b` add up within `usize`.
pub open spec fn fits2(m: AreaModel, a: usize, b: usize) -> bool {
    runs_fit(m.blocks, a as int, 0) && runs_fit(m.blocks, b as int, 0)
}

/// Deleting the selection `s..e`: the cursor goes to `s` and the selection
/// ends (nothing happens when the runs do not fit).
pub open spec fn delete_selection_effect(m: AreaModel, s: (usize, usize), e: (usize, usize)) -> AreaModel {
    if fits2(m, s.0, e.0) {
        AreaModel {
            blocks: doc_after_delete_range(m.blocks, pos(s), pos(e)),
            cursor: s,
            anchor: None,
            ..m
        }
    } else {
        m
    }
}

/// Delete: with Ctrl, up to the end of the word; with a selection, the
/// selection; else the character at the cursor, or at the end of a block
/// the next block is joined to it.
pub open spec fn delete_effect(m: AreaModel, ctrl: bool) -> AreaModel {
    let (cb, cc) = m.cursor;
    let i = cb as int;
    if ctrl {
        let end = next_word(m.blocks[i].text, cc as int);
        if end > cc && runs_fit(m.blocks, i, 0) {
            AreaModel {
                blocks: doc_after_delete_range(m.blocks, (i, cc as int), (i, end)),
                ..m
            }
        } else {
            m
        }
    } else {
        match selection_of(m.anchor, m.cursor) {
            Some((s, e)) => if s != e {
                delete_selection_effect(m, s, e)
            } else {
                m
            },
            None => if cc < block_len(m, i) {
                if runs_fit(m.blocks, i, 0) {
                    AreaModel { blocks: doc_after_remove(m.blocks, i, cc as int).0, ..m }
                } else {
                    m
                }
            } else if i + 1 < m.blocks.len() {
                AreaModel { blocks: doc_after_merge(m.blocks, i + 1).0, ..m }
            } else {
                m
            },
        }
    }
}

/// Backspace without a selection: removes the character before the
/// cursor; at the start of a block, a block other than a paragraph becomes
/// one, and a paragraph is joined to the block before it.
pub open spec fn backspace_plain(m: AreaModel) -> AreaModel {
    let (cb, cc) = m.cursor;
    let i = cb as int;
    let b = m.blocks[i];
    if cc > 0 {
        if runs_fit(m.blocks, i, 0) {
            let (bl, ok) = doc_after_remove(m.blocks, i, cc - 1);
            AreaModel {
                blocks: bl,
                cursor: if ok {
                    (cb, (cc - 1) as usize)
                } else {
                    m.cursor
                },
                ..m
            }
        } else {
            m
        }
    } else if b.ty != BlockType::Paragraph {
        with_block(m, i, BlockView { ty: BlockType::Paragraph, ..b })
    } else if cb > 0 {
        let (bl, r) = doc_after_merge(m.blocks, i);
        match r {
            Some(p) => AreaModel { blocks: bl, cursor: ((cb - 1) as usize, p), ..m },
            None => m,
        }
    } else {
        m
    }
}

/// Backspace: with Ctrl, back to the start of the word; with a non-empty
/// selection, the selection; else (an empty selection ends first) see
/// `backspace_plain`.
pub open spec fn backspace_effect(m: AreaModel, ctrl: bool) -> AreaModel {
    let (cb, cc) = m.cursor;
    let i = cb as int;
    if ctrl {
        let st = prev_word(m.blocks[i].text, cc as int);
        if st < cc && runs_fit(m.blocks, i, 0) {
            AreaModel {
                blocks: doc_after_delete_range(m.blocks, (i, st), (i, cc as int)),
                cursor: (cb, st as usize),
                ..m
            }
        } else {
            m
        }
    } else {
        match selection_of(m.anchor, m.cursor) {
            Some((s, e)) => if s != e {
                delete_selection_effect(m, s, e)
            } else {
                backspace_plain(AreaModel { anchor: None, ..m })
            },
            None => backspace_plain(m),
        }
    }
}

/// What a key does.
pub open spec fn key_effect(m: AreaModel, key: EditorKey, shift: bool, ctrl: bool) -> AreaModel {
    let m1 = anchor_step(m, key, shift, ctrl);
    match key {
        EditorKey::Tab => tab_effect(m1, shift),
        EditorKey::ReturnKey => return_effect(m1),
        EditorKey::Delete => delete_effect(m1, ctrl),
        EditorKey::Backspace => backspace_effect(m1, ctrl),
        EditorKey::Other => m1,
        _ => arrow_effect(m1, key, ctrl),
    }
}



/// Text input is taken when it holds no control character, or holds a
/// line break, a carriage return or a tab.
pub open spec fn input_valid(s: Seq<char>) -> bool {
    !(exists|i: int| 0 <= i < s.len() && is_control_char(#[trigger] s[i])) || s.contains('\n')
        || s.contains('\r') || s.contains('\t')
}

/// A typed marker that wraps a selection: `*`, `` ` `` or `_`.
pub open spec fn is_wrap_marker(s: Seq<char>) -> bool {
    s == seq!['*'] || s == seq!['`'] || s == seq!['_']
}

/// Typing with a non-empty selection inside the cursor's block, when the
/// input is a wrap marker.
pub open spec fn wraps(m: AreaModel, input: Seq<char>) -> bool {
    match selection_of(m.anchor, m.cursor) {
        Some((s, e)) => s.0 == e.0 && s.0 == m.cursor.0 && s.1 != e.1 && is_wrap_marker(input),
        None => false,
    }
}

/// Typing a wrap marker around a selection: the selection is wrapped and
/// formatted; when the formatting consumed the markers the selection keeps
/// its ends, else it moves right by one.
pub open spec fn wrap_input_effect(m: AreaModel, input: Seq<char>) -> AreaModel {
    let (s, e) = selection_of(m.anchor, m.cursor)->0;
    let i = s.0 as int;
    if runs_fit(m.blocks, i, 2 * (input.len() as int)) {
        let blocks = doc_after_wrap(m.blocks, i, s.1 as int, e.1 as int, input);
        if !wrap_consumed(m.blocks, i, s.1 as int, e.1 as int, input) {
            AreaModel {
                blocks,
                anchor: Some((s.0, (s.1 + 1) as usize)),
                cursor: (m.cursor.0, (e.1 + 1) as usize),
                ..m
            }
        } else {
            AreaModel { blocks, anchor: Some(s), cursor: (m.cursor.0, e.1), ..m }
        }
    } else {
        m
    }
}

/// Typing replaces a non-empty selection (any selection ends).
pub open spec fn replace_selection(m: AreaModel) -> AreaModel {
    match selection_of(m.anchor, m.cursor) {
        Some((s, e)) => if s != e && fits2(m, s.0, e.0) {
            AreaModel {
                blocks: doc_after_delete_range(m.blocks, pos(s), pos(e)),
                cursor: s,
                anchor: None,
                ..m
            }
        } else {
            AreaModel { anchor: None, ..m }
        },
        None => m,
    }
}

/// Inserting `input` at the cursor moves the cursor past it.
pub open spec fn insert_at_cursor(m: AreaModel, input: Seq<char>) -> AreaModel {
    let i = m.cursor.0 as int;
    if runs_fit(m.blocks, i, input.len() as int) {
        AreaModel {
            blocks: doc_after_insert(m.blocks, i, m.cursor.1 as int, input),
            cursor: (m.cursor.0, (m.cursor.1 + input.len()) as usize),
            ..m
        }
    } else {
        m
    }
}

/// A paragraph that now starts with a block prefix is converted, and the
/// cursor moves back by the prefix (not below 0).
pub open spec fn convert_at_cursor(m: AreaModel) -> AreaModel {
    let i = m.cursor.0 as int;
    let (blocks, r) = doc_after_convert(m.blocks, i);
    AreaModel {
        blocks,
        cursor: (m.cursor.0, match r {
            Some(k) => if m.cursor.1 >= k {
                (m.cursor.1 - k) as usize
            } else {
                0
            },
            None => m.cursor.1,
        }),
        ..m
    }
}

/// A typed space applies inline formatting; when it consumed markers the
/// cursor goes to the end of the block.
pub open spec fn format_after_space(m: AreaModel) -> AreaModel {
    let i = m.cursor.0 as int;
    let (blocks, f) = doc_after_format(m.blocks, i);
    if f {
        AreaModel { blocks, cursor: (m.cursor.0, blocks[i].text.len() as usize), ..m }
    } else {
        AreaModel { blocks, ..m }
    }
}

/// What typing `input` does.
pub open spec fn text_input_effect(m: AreaModel, input: Seq<char>) -> AreaModel {
    if input.len() == 0 || !input_valid(input) {
        m
    } else if wraps(m, input) {
        wrap_input_effect(m, input)
    } else {
        let m3 = convert_at_cursor(insert_at_cursor(replace_selection(m), input));
        if input == seq![' '] {
            format_after_space(m3)
        } else {
            m3
        }
    }
}


/// Line breaks made uniform: `"\r\n"` and a lone `'\r'` become `'\n'`.
pub open spec fn normalize_breaks(s: Seq<char>) -> Seq<char>
    decreases s.len(),
{
    if s.len() == 0 {
        seq![]
    } else if s[0] == '\r' && s.len() > 1 && s[1] == '\n' {
        seq!['\n'] + normalize_breaks(s.subrange(2, s.len() as int))
    } else if s[0] == '\r' {
        seq!['\n'] + normalize_breaks(s.subrange(1, s.len() as int))
    } else {
        seq![s[0]] + normalize_breaks(s.subrange(1, s.len() as int))
    }
}

/// Pasting a later line: the cursor's block is cut at the cursor, its rest
/// becomes a new paragraph after it (with the next identity), and the line
/// is put at the start of that paragraph, where the cursor ends up after it.
pub open spec fn paste_line(m: AreaModel, part: Seq<char>) -> AreaModel {
    let i = m.cursor.0 as int;
    let t = m.blocks[i].text;
    let rest = if (m.cursor.1 as int) < t.len() {
        t.subrange(m.cursor.1 as int, t.len() as int)
    } else {
        seq![]
    };
    let k = rest.len();
    let blocks1 = if runs_fit(m.blocks, i, 0) {
        crate::editor::model::document::remove_n(m.blocks, i, t.len() - k, k)
    } else {
        m.blocks
    };
    let nb = BlockView {
        id: m.next_id,
        ty: BlockType::Paragraph,
        text: rest,
        styles: seq![StyleSpan { len: k as usize, style: plain_style() }],
        indent: 0,
        is_dirty: true,
    };
    AreaModel {
        blocks: doc_after_insert(blocks1.insert(i + 1, nb), i + 1, 0, part),
        cursor: ((i + 1) as usize, part.len() as usize),
        next_id: (m.next_id + 1) as u64,
        ..m
    }
}

/// Pasting the lines of `rest` (separated by `'\n'`) one after another.
pub open spec fn paste_lines(m: AreaModel, rest: Seq<char>) -> AreaModel
    decreases rest.len(),
{
    match find_from(rest, seq!['\n'], 0) {
        Some(k) => if 0 <= k < rest.len() {
            paste_lines(paste_line(m, rest.subrange(0, k)), rest.subrange(k + 1, rest.len() as int))
        } else {
            m
        },
        None => paste_line(m, rest),
    }
}

/// Pasting clears the selection (deleting it), types the first line at
/// the cursor and each further line in a new paragraph (see `paste_line`).
pub open spec fn paste_effect(m: AreaModel, text: Seq<char>) -> AreaModel {
    if text.len() == 0 {
        m
    } else {
        let m1 = match selection_of(m.anchor, m.cursor) {
            Some((s, e)) => if fits2(m, s.0, e.0) {
                AreaModel {
                    blocks: doc_after_delete_range(m.blocks, pos(s), pos(e)),
                    cursor: s,
                    anchor: None,
                    ..m
                }
            } else {
                AreaModel { anchor: None, ..m }
            },
            None => m,
        };
        let t = normalize_breaks(text);
        match find_from(t, seq!['\n'], 0) {
            Some(k) => if 0 <= k < t.len() {
                paste_lines(
                    insert_at_cursor(m1, t.subrange(0, k)),
                    t.subrange(k + 1, t.len() as int),
                )
            } else {
                m1
            },
            None => insert_at_cursor(m1, t),
        }
    }
}

/// Normalising line breaks never makes the text longer.
pub proof fn lemma_normalize_len(s: Seq<char>)
    ensures
        normalize_breaks(s).len() <= s.len(),
    decreases s.len(),
{
    if s.len() > 0 {
        if s[0] == '\r' && s.len() > 1 && s[1] == '\n' {
            lemma_normalize_len(s.subrange(2, s.len() as int));
        } else {
            lemma_normalize_len(s.subrange(1, s.len() as int));
        }
    }
}


/// The kind and text of a line of a loaded file: `"# "` to `"##### "`
/// start headings of level 1 to 5 and `"> "` a quote, the prefix being
/// dropped; other lines are paragraphs.
pub open spec fn line_block(line: Seq<char>) -> (BlockType, Seq<char>) {
    if starts_with(line, seq!['#', ' ']) {
        (BlockType::Heading1, line.subrange(2, line.len() as int))
    } else if starts_with(line, seq!['#', '#', ' ']) {
        (BlockType::Heading2, line.subrange(3, line.len() as int))
    } else if starts_with(line, seq!['#', '#', '#', ' ']) {
        (BlockType::Heading3, line.subrange(4, line.len() as int))
    } else if starts_with(line, seq!['#', '#', '#', '#', ' ']) {
        (BlockType::Heading4, line.subrange(5, line.len() as int))
    } else if starts_with(line, seq!['#', '#', '#', '#', '#', ' ']) {
        (BlockType::Heading5, line.subrange(6, line.len() as int))
    } else if starts_with(line, seq!['>', ' ']) {
        (BlockType::Quote, line.subrange(2, line.len() as int))
    } else {
        (BlockType::Paragraph, line)
    }
}

/// The blocks of the lines of a file: one per line (see `line_block`) in
/// one plain run, with identities from 1000 on; an empty file gives one
/// empty paragraph.
pub open spec fn blocks_of_lines(lines: Seq<Seq<char>>, bs: Seq<BlockView>) -> bool {
    if lines.len() == 0 {
        &&& bs.len() == 1
        &&& bs[0].id == 1000
        &&& bs[0].ty == BlockType::Paragraph
        &&& bs[0].text == Seq::<char>::empty()
        &&& bs[0].styles == seq![StyleSpan { len: 0, style: plain_style() }]
        &&& bs[0].indent == 0
        &&& bs[0].is_dirty
    } else {
        &&& bs.len() == lines.len()
        &&& forall|j: int|
            0 <= j < bs.len() ==> {
                let (ty, text) = line_block(lines[j]);
                &&& (#[trigger] bs[j]).id == 1000 + j
                &&& bs[j].ty == ty
                &&& bs[j].text == text
                &&& bs[j].styles == seq![StyleSpan { len: text.len() as usize, style: plain_style() }]
                &&& bs[j].indent == 0
                &&& bs[j].is_dirty
            }
    }
}

/// The text of each line.
pub open spec fn lines_view(lines: Seq<String>) -> Seq<Seq<char>> {
    lines.map_values(|l: String| l@)
}

/// Deleting a range whose start block exists keeps that block.
pub proof fn lemma_delete_range_len(blocks: Seq<BlockView>, s: (int, int), e: (int, int))
    requires
        0 <= s.0 <= e.0 < blocks.len(),
    ensures
        doc_after_delete_range(blocks, s, e).len() > s.0,
        s.0 == e.0 ==> doc_after_delete_range(blocks, s, e).len() == blocks.len(),
        doc_after_delete_range(blocks, s, e).len() <= blocks.len(),
{
    lemma_remove_n_len(blocks, s.0, s.1, (e.1 - s.1) as nat);
    if s.0 != e.0 {
        let first_len = blocks[s.0].text.len() as int;
        let n1 = (if first_len > s.1 {
            first_len - s.1
        } else {
            0
        }) as nat;
        lemma_remove_n_len(blocks, s.0, s.1, n1);
        let b1 = crate::editor::model::document::remove_n(blocks, s.0, s.1, n1);
        lemma_remove_n_len(b1, e.0, 0, e.1 as nat);
    }
}

/// Removing characters keeps the number of blocks.
pub proof fn lemma_remove_n_len(blocks: Seq<BlockView>, idx: int, c: int, n: nat)
    ensures
        crate::editor::model::document::remove_n(blocks, idx, c, n).len() == blocks.len(),
    decreases n,
{
    if n > 0 {
        lemma_remove_n_len(doc_after_remove(blocks, idx, c).0, idx, c, (n - 1) as nat);
    }
}


/// `text` with uniform line breaks (see `normalize_breaks`).
pub fn normalize_line_breaks(text: &str) -> (r: Vec<char>)
    ensures
        r@ == normalize_breaks(text@),
{
    let chars = chars_of(text);
    let n = chars.len();
    let mut r: Vec<char> = Vec::new();
    let mut i: usize = 0;
    assert(chars@.subrange(0, n as int) =~= chars@);
    while i < n
        invariant
            i <= n == chars@.len(),
            chars@ == text@,
            r@ + normalize_breaks(chars@.subrange(i as int, n as int)) == normalize_breaks(text@),
        decreases n - i,
    {
        let ghost rest = chars@.subrange(i as int, n as int);
        let c = chars[i];
        if c == '\r' && i + 1 < n && chars[i + 1] == '\n' {
            r.push('\n');
            assert(rest.subrange(2, rest.len() as int) =~= chars@.subrange(i + 2, n as int));
            i = i + 2;
        } else if c == '\r' {
            r.push('\n');
            assert(rest.subrange(1, rest.len() as int) =~= chars@.subrange(i + 1, n as int));
            i = i + 1;
        } else {
            r.push(c);
            assert(rest.subrange(1, rest.len() as int) =~= chars@.subrange(i + 1, n as int));
            i = i + 1;
        }
    }
    assert(chars@.subrange(n as int, n as int) =~= Seq::<char>::empty());
    assert(r@ =~= normalize_breaks(text@));
    r
}


/// The kind and text of a line (see `line_block`).
pub fn parse_markdown_line(line: &str) -> (r: (BlockType, String))
    ensures
        (r.0, r.1@) == line_block(line@),
{
    let chars = chars_of(line);
    let n = chars.len();
    let h1 = vec!['#', ' '];
    let h2 = vec!['#', '#', ' '];
    let h3 = vec!['#', '#', '#', ' '];
    let h4 = vec!['#', '#', '#', '#', ' '];
    let h5 = vec!['#', '#', '#', '#', '#', ' '];
    let q = vec!['>', ' '];
    assert(h1@ == seq!['#', ' ']);
    assert(h2@ == seq!['#', '#', ' ']);
    assert(h3@ == seq!['#', '#', '#', ' ']);
    assert(h4@ == seq!['#', '#', '#', '#', ' ']);
    assert(h5@ == seq!['#', '#', '#', '#', '#', ' ']);
    assert(q@ == seq!['>', ' ']);
    proof {
        assert forall|p: Seq<char>| #[trigger] occurs_at(chars@, p, 0) == starts_with(chars@, p) by {}
    }
    let (ty, skip): (BlockType, usize) = if matches_at(&chars, &h1, 0) {
        (BlockType::Heading1, 2)
    } else if matches_at(&chars, &h2, 0) {
        (BlockType::Heading2, 3)
    } else if matches_at(&chars, &h3, 0) {
        (BlockType::Heading3, 4)
    } else if matches_at(&chars, &h4, 0) {
        (BlockType::Heading4, 5)
    } else if matches_at(&chars, &h5, 0) {
        (BlockType::Heading5, 6)
    } else if matches_at(&chars, &q, 0) {
        (BlockType::Quote, 2)
    } else {
        (BlockType::Paragraph, 0)
    };
    let text = string_of(&chars, skip, n);
    assert(chars@.subrange(0, n as int) =~= chars@);
    (ty, text)
}

/// The blocks of the lines of a file (see `blocks_of_lines`).
pub fn blocks_from_lines(lines: &Vec<String>) -> (r: Vec<Block>)
    requires
        lines@.len() + 1000 < u64::MAX,
    ensures
        blocks_of_lines(lines_view(lines@), blocks_view(r@)),
{
    let mut new_blocks: Vec<Block> = Vec::new();
    let mut id_gen: u64 = 1000;
    let mut i: usize = 0;
    while i < lines.len()
        invariant
            i <= lines@.len(),
            lines@.len() + 1000 < u64::MAX,
            id_gen == 1000 + i,
            new_blocks@.len() == i,
            forall|j: int|
                0 <= j < i ==> {
                    let (ty, text) = line_block(lines@[j]@);
                    &&& (#[trigger] new_blocks@[j])@.id == 1000 + j
                    &&& new_blocks@[j]@.ty == ty
                    &&& new_blocks@[j]@.text == text
                    &&& new_blocks@[j]@.styles == seq![
                        StyleSpan { len: text.len() as usize, style: plain_style() },
                    ]
                    &&& new_blocks@[j]@.indent == 0
                    &&& new_blocks@[j]@.is_dirty
                },
        decreases lines@.len() - i,
    {
        let (ty, text) = parse_markdown_line(lines[i].as_str());
        let block = Block::new(id_gen, ty, text.as_str());
        new_blocks.push(block);
        id_gen = id_gen + 1;
        i = i + 1;
    }
    if new_blocks.len() == 0 {
        proof {
            reveal_strlit("");
        }
        new_blocks.push(Block::new(id_gen, BlockType::Paragraph, ""));
    }
    let ghost bv = blocks_view(new_blocks@);
    let ghost lv = lines_view(lines@);
    assert forall|j: int| 0 <= j < bv.len() implies bv[j] == new_blocks@[j]@ by {}
    assert forall|j: int| 0 <= j < lv.len() implies lv[j] == lines@[j]@ by {}
    if lines.len() > 0 {
        assert forall|j: int| 0 <= j < bv.len() implies {
            let (ty, text) = line_block(lv[j]);
            &&& (#[trigger] bv[j]).id == 1000 + j
            &&& bv[j].ty == ty
            &&& bv[j].text == text
            &&& bv[j].styles == seq![StyleSpan { len: text.len() as usize, style: plain_style() }]
            &&& bv[j].indent == 0
            &&& bv[j].is_dirty
        } by {
            assert(bv[j] == new_blocks@[j]@);
            assert(lv[j] == lines@[j]@);
        }
        assert(blocks_of_lines(lv, bv));
    } else {
        assert(lv.len() == 0);
        assert(bv.len() == 1);
        assert(bv[0] == new_blocks@[0]@);
        assert(bv[0].text =~= Seq::<char>::empty());
        assert(blocks_of_lines(lv, bv));
    }
    new_blocks
}

/// The blocks of a file's text: its lines as `lines_of` splits them (what
/// reading the file line by line gives), each made a block as
/// `blocks_of_lines` says.
pub fn blocks_from_content(content: &str) -> (r: Vec<Block>)
    ensures
        blocks_of_lines(lines_of(content@), blocks_view(r@)),
{
    let lines = split_lines(content);
    char_count_bound(content);
    proof {
        lemma_lines_of_len(content@);
        assert(lines_view(lines@)
            =~= crate::ui::editor::rich_text_editor::lines_view(lines@));
    }
    blocks_from_lines(&lines)
}

/// What is reported when the file `path` cannot be opened.
pub fn load_failed_message(path: &str) -> (r: String)
    ensures
        r@ == "Failed to open "@ + path@,
{
    let mut msg = String::from_str("Failed to open ");
    push_str(&mut msg, path);
    msg
}

impl EditorAreaState {
    /// The state abstractly.
    pub open spec fn model(&self) -> AreaModel {
        AreaModel {
            blocks: self.document.blocks_view(),
            cursor: (self.cursor_block, self.cursor_char),
            anchor: self.selection_anchor,
            next_id: self.document.next_id_value(),
        }
    }

    /// The state is usable: the document has a block, and the cursor is in
    /// an existing block.
    pub open spec fn wf(&self) -> bool {
        let n = self.document.blocks_view().len();
        &&& n > 0
        &&& self.cursor_block < n
    }

    /// The selection's anchor, if any, is in an existing block (loading a
    /// file or setting a document keeps the anchor, which may then lie past
    /// the last block).
    pub open spec fn anchor_in_document(&self) -> bool {
        self.selection_anchor matches Some(a) ==> a.0 < self.document.blocks_view().len()
    }

    /// The cursor as a pair.
    pub open spec fn cursor(&self) -> (usize, usize) {
        (self.cursor_block, self.cursor_char)
    }

    /// The text of the cursor's block.
    pub open spec fn cursor_text(&self) -> Seq<char> {
        self.document.blocks_view()[self.cursor_block as int].text
    }

    /// A state on `document` with the cursor at its start.
    pub fn new(document: Document) -> (r: Self)
        requires
            document.blocks_view().len() > 0,
        ensures
            r.wf(),
            r.document == document,
            r.cursor_block == 0,
            r.cursor_char == 0,
            r.selection_anchor is None,
            !r.is_dragging,
            r.current_file is None,
    {
        EditorAreaState {
            document,
            cursor_block: 0,
            cursor_char: 0,
            selection_anchor: None,
            is_dragging: false,
            current_file: None,
        }
    }

    /// Replaces the document and puts the cursor at its start; the
    /// selection's anchor is kept as it was.  The state is usable again
    /// when the document has a block.
    pub fn set_document(&mut self, doc: Document)
        ensures
            doc.blocks_view().len() > 0 ==> final(self).wf(),
            final(self).document == doc,
            final(self).cursor_block == 0,
            final(self).cursor_char == 0,
            final(self).selection_anchor == old(self).selection_anchor,
            final(self).is_dragging == old(self).is_dragging,
            final(self).current_file == old(self).current_file,
    {
        self.document = doc;
        self.cursor_block = 0;
        self.cursor_char = 0;
    }

    /// The selection between the anchor and the cursor, in document order
    /// (see `selection_of`).
    pub fn get_selection_range(&self) -> (r: Option<((usize, usize), (usize, usize))>)
        ensures
            r == selection_of(self.selection_anchor, self.cursor()),
    {
        match self.selection_anchor {
            Some(anchor) => {
                let cursor = (self.cursor_block, self.cursor_char);
                if anchor.0 < cursor.0 || (anchor.0 == cursor.0 && anchor.1 < cursor.1) {
                    Some((anchor, cursor))
                } else {
                    Some((cursor, anchor))
                }
            },
            None => None,
        }
    }

    /// The characters of the cursor's block.
    fn cursor_chars(&self) -> (r: Vec<char>)
        requires
            self.wf(),
        ensures
            r@ == self.cursor_text(),
    {
        proof {
            self.document.lemma_view();
        }
        chars_of(self.document.blocks[self.cursor_block].text.as_str())
    }

    /// The start of the word before the cursor (see `prev_word`).
    pub fn find_prev_word(&self) -> (r: usize)
        requires
            self.wf(),
        ensures
            r == prev_word(self.cursor_text(), self.cursor_char as int),
            r <= self.cursor_char,
    {
        if self.cursor_char == 0 {
            return 0;
        }
        let text = self.cursor_chars();
        let ghost t = text@;
        let mut i = self.cursor_char;
        while i > 0 && (i - 1 >= text.len() || is_whitespace(text[i - 1]))
            invariant
                t == text@,
                i <= self.cursor_char,
                skip_back_ws(t, self.cursor_char as int) == skip_back_ws(t, i as int),
            decreases i,
        {
            i = i - 1;
        }
        let ghost w = i as int;
        while i > 0 && (i - 1 >= text.len() || !is_whitespace(text[i - 1]))
            invariant
                t == text@,
                i <= self.cursor_char,
                skip_back_word(t, w) == skip_back_word(t, i as int),
            decreases i,
        {
            i = i - 1;
        }
        i
    }

    /// The end of the word at or after the cursor (see `next_word`).
    pub fn find_next_word(&self) -> (r: usize)
        requires
            self.wf(),
        ensures
            r == next_word(self.cursor_text(), self.cursor_char as int),
            r >= self.cursor_char,
    {
        let text = self.cursor_chars();
        let ghost t = text@;
        let len = text.len();
        let mut i = self.cursor_char;
        while i < len && is_whitespace(text[i])
            invariant
                t == text@,
                len == t.len(),
                i >= self.cursor_char,
                skip_fwd_ws(t, self.cursor_char as int) == skip_fwd_ws(t, i as int),
            decreases len - i,
        {
            i = i + 1;
        }
        let ghost w = i as int;
        while i < len && !is_whitespace(text[i])
            invariant
                t == text@,
                len == t.len(),
                i >= self.cursor_char,
                skip_fwd_word(t, w) == skip_fwd_word(t, i as int),
            decreases len - i,
        {
            i = i + 1;
        }
        i
    }

    /// Number of characters of block `i`.
    fn len_at(&self, i: usize) -> (n: usize)
        requires
            i < self.document.blocks_view().len(),
        ensures
            n == self.document.blocks_view()[i as int].text.len(),
    {
        proof {
            self.document.lemma_view();
        }
        self.document.blocks[i].text_len()
    }

    /// The kind and indentation of block `i`.
    fn kind_at(&self, i: usize) -> (r: (BlockType, usize))
        requires
            i < self.document.blocks_view().len(),
        ensures
            r.0 == self.document.blocks_view()[i as int].ty,
            r.1 == self.document.blocks_view()[i as int].indent,
    {
        proof {
            self.document.lemma_view();
        }
        (self.document.blocks[i].ty, self.document.blocks[i].indent)
    }

    fn anchor_step_exec(&mut self, key: EditorKey, shift: bool, ctrl: bool)
        requires
            old(self).wf(),
        ensures
            final(self).model() == anchor_step(old(self).model(), key, shift, ctrl),
            final(self).wf(),
            final(self).document == old(self).document,
            final(self).is_dragging == old(self).is_dragging,
            final(self).current_file == old(self).current_file,
    {
        if shift {
            if self.selection_anchor.is_none() {
                self.selection_anchor = Some((self.cursor_block, self.cursor_char));
            }
        } else if !ctrl {
            match key {
                EditorKey::ArrowUp | EditorKey::ArrowDown | EditorKey::ArrowLeft
                | EditorKey::ArrowRight => {
                    self.selection_anchor = None;
                },
                _ => {},
            }
        }
    }

    fn tab_exec(&mut self, shift: bool)
        requires
            old(self).wf(),
        ensures
            final(self).model() == tab_effect(old(self).model(), shift),
            final(self).wf(),
            final(self).is_dragging == old(self).is_dragging,
            final(self).current_file == old(self).current_file,
    {
        let (ty, indent) = self.kind_at(self.cursor_block);
        if ty == BlockType::ListItem || ty == BlockType::OrderedListItem {
            if shift {
                if indent > 0 {
                    self.document.set_block_indent(self.cursor_block, indent - 1);
                }
            } else if indent < 10 {
                self.document.set_block_indent(self.cursor_block, indent + 1);
            }
        }
    }

    fn arrow_exec(&mut self, key: EditorKey, ctrl: bool)
        requires
            old(self).wf(),
        ensures
            final(self).model() == arrow_effect(old(self).model(), key, ctrl),
            final(self).wf(),
            final(self).is_dragging == old(self).is_dragging,
            final(self).current_file == old(self).current_file,
    {
        let n = self.document.blocks.len();
        proof {
            self.document.lemma_view();
        }
        match key {
            EditorKey::ArrowUp => {
                if self.cursor_block > 0 {
                    self.cursor_block = self.cursor_block - 1;
                    let len = self.len_at(self.cursor_block);
                    if self.cursor_char >= len {
                        self.cursor_char = len;
                    }
                }
            },
            EditorKey::ArrowDown => {
                if self.cursor_block + 1 < n {
                    self.cursor_block = self.cursor_block + 1;
                    let len = self.len_at(self.cursor_block);
                    if self.cursor_char >= len {
                        self.cursor_char = len;
                    }
                }
            },
            EditorKey::ArrowLeft => {
                if ctrl {
                    self.cursor_char = self.find_prev_word();
                } else if self.cursor_char > 0 {
                    self.cursor_char = self.cursor_char - 1;
                } else if self.cursor_block > 0 {
                    self.cursor_block = self.cursor_block - 1;
                    self.cursor_char = self.len_at(self.cursor_block);
                }
            },
            EditorKey::ArrowRight => {
                let len = self.len_at(self.cursor_block);
                if ctrl {
                    self.cursor_char = self.find_next_word();
                } else if self.cursor_char < len {
                    self.cursor_char = self.cursor_char + 1;
                } else if self.cursor_block + 1 < n {
                    self.cursor_block = self.cursor_block + 1;
                    self.cursor_char = 0;
                }
            },
            _ => {},
        }
    }

    fn return_exec(&mut self)
        requires
            old(self).wf(),
            return_creates_block(old(self).model()) ==> old(self).document.next_id_value()
                < u64::MAX,
        ensures
            final(self).model() == return_effect(old(self).model()),
            final(self).wf(),
            final(self).is_dragging == old(self).is_dragging,
            final(self).current_file == old(self).current_file,
    {
        self.selection_anchor = None;
        let cb = self.cursor_block;
        let (ty, indent) = self.kind_at(cb);
        let len = self.len_at(cb);
        let list = ty == BlockType::ListItem || ty == BlockType::OrderedListItem;
        if list && len == 0 {
            if indent > 0 {
                self.document.set_block_indent(cb, indent - 1);
            } else {
                self.document.set_block_type(cb, BlockType::Paragraph);
            }
            return ;
        }
        let (new_ty, new_indent) = if list {
            (ty, indent)
        } else {
            (BlockType::Paragraph, 0)
        };
        proof {
            self.document.lemma_view();
        }
        let n = self.document.blocks.len();
        assert(cb < n);
        let id = self.document.generate_id();
        let mut new_block = Block::new(id, new_ty, "");
        new_block.indent = new_indent;
        proof {
            reveal_strlit("");
        }
        assert(new_block@.text =~= Seq::<char>::empty());
        self.document.insert_block(cb + 1, new_block);
        self.cursor_block = cb + 1;
        self.cursor_char = 0;
    }

    /// Deletes the selection `s..e` when the runs fit (see
    /// `delete_selection_effect`).
    fn delete_selection_exec(&mut self, s: (usize, usize), e: (usize, usize))
        requires
            old(self).wf(),
            old(self).anchor_in_document(),
            selection_of(old(self).selection_anchor, old(self).cursor()) == Some((s, e)),
        ensures
            final(self).model() == delete_selection_effect(old(self).model(), s, e),
            final(self).wf(),
            final(self).is_dragging == old(self).is_dragging,
            final(self).current_file == old(self).current_file,
    {
        if self.document.runs_fit_check(s.0, 0) && self.document.runs_fit_check(e.0, 0) {
            proof {
                lemma_delete_range_len(self.document.blocks_view(), pos(s), pos(e));
            }
            let r = self.document.delete_range(s, e);
            self.cursor_block = r.0;
            self.cursor_char = r.1;
            self.selection_anchor = None;
        }
    }

    fn delete_exec(&mut self, ctrl: bool)
        requires
            old(self).wf(),
            !ctrl ==> old(self).anchor_in_document(),
        ensures
            final(self).model() == delete_effect(old(self).model(), ctrl),
            final(self).wf(),
            final(self).is_dragging == old(self).is_dragging,
            final(self).current_file == old(self).current_file,
    {
        let cb = self.cursor_block;
        let cc = self.cursor_char;
        proof {
            self.document.lemma_view();
        }
        if ctrl {
            let end = self.find_next_word();
            if end > cc && self.document.runs_fit_check(cb, 0) {
                proof {
                    lemma_delete_range_len(self.document.blocks_view(), (cb as int, cc as int), (cb as int, end as int));
                }
                self.document.delete_range((cb, cc), (cb, end));
            }
            return ;
        }
        match self.get_selection_range() {
            Some((s, e)) => {
                if s.0 != e.0 || s.1 != e.1 {
                    self.delete_selection_exec(s, e);
                }
            },
            None => {
                let len = self.len_at(cb);
                if cc < len {
                    if self.document.runs_fit_check(cb, 0) {
                        self.document.remove_char_at(cb, cc);
                    }
                } else if cb < self.document.blocks.len() - 1 {
                    self.document.merge_block_with_prev(cb + 1);
                }
            },
        }
    }

    fn backspace_plain_exec(&mut self)
        requires
            old(self).wf(),
            old(self).selection_anchor is None,
        ensures
            final(self).model() == backspace_plain(old(self).model()),
            final(self).wf(),
            final(self).is_dragging == old(self).is_dragging,
            final(self).current_file == old(self).current_file,
    {
        let cb = self.cursor_block;
        let cc = self.cursor_char;
        proof {
            self.document.lemma_view();
        }
        if cc > 0 {
            if self.document.runs_fit_check(cb, 0) {
                if self.document.remove_char_at(cb, cc - 1) {
                    self.cursor_char = cc - 1;
                }
            }
            return ;
        }
        let (ty, _indent) = self.kind_at(cb);
        if ty != BlockType::Paragraph {
            self.document.set_block_type(cb, BlockType::Paragraph);
        } else if cb > 0 {
            match self.document.merge_block_with_prev(cb) {
                Some(p) => {
                    self.cursor_block = cb - 1;
                    self.cursor_char = p;
                },
                None => {},
            }
        }
    }

    fn backspace_exec(&mut self, ctrl: bool)
        requires
            old(self).wf(),
            !ctrl ==> old(self).anchor_in_document(),
        ensures
            final(self).model() == backspace_effect(old(self).model(), ctrl),
            final(self).wf(),
            final(self).is_dragging == old(self).is_dragging,
            final(self).current_file == old(self).current_file,
    {
        let cb = self.cursor_block;
        let cc = self.cursor_char;
        proof {
            self.document.lemma_view();
        }
        if ctrl {
            let st = self.find_prev_word();
            if st < cc && self.document.runs_fit_check(cb, 0) {
                proof {
                    lemma_delete_range_len(self.document.blocks_view(), (cb as int, st as int), (cb as int, cc as int));
                }
                self.document.delete_range((cb, st), (cb, cc));
                self.cursor_char = st;
            }
            return ;
        }
        match self.get_selection_range() {
            Some((s, e)) => {
                if s.0 != e.0 || s.1 != e.1 {
                    self.delete_selection_exec(s, e);
                } else {
                    self.selection_anchor = None;
                    self.backspace_plain_exec();
                }
            },
            None => {
                self.backspace_plain_exec();
            },
        }
    }

    /// A key press other than the shortcuts (see `key_effect`).
    pub fn key_down(&mut self, key: EditorKey, shift: bool, ctrl: bool)
        requires
            old(self).wf(),
            key == EditorKey::ReturnKey && return_creates_block(old(self).model()) ==> old(self).document.next_id_value() < u64::MAX,
            (key == EditorKey::Delete || key == EditorKey::Backspace) && !ctrl
                ==> old(self).anchor_in_document(),
        ensures
            final(self).model() == key_effect(old(self).model(), key, shift, ctrl),
            final(self).wf(),
            final(self).is_dragging == old(self).is_dragging,
            final(self).current_file == old(self).current_file,
    {
        self.anchor_step_exec(key, shift, ctrl);
        match key {
            EditorKey::Tab => self.tab_exec(shift),
            EditorKey::ReturnKey => self.return_exec(),
            EditorKey::Delete => self.delete_exec(ctrl),
            EditorKey::Backspace => self.backspace_exec(ctrl),
            EditorKey::Other => {},
            _ => self.arrow_exec(key, ctrl),
        }
    }


    /// A press in the editor: dragging starts and the selection ends.
    pub fn finger_down(&mut self)
        requires
            old(self).wf(),
        ensures
            final(self).wf(),
            final(self).is_dragging,
            final(self).selection_anchor is None,
            final(self).document == old(self).document,
            final(self).cursor() == old(self).cursor(),
            final(self).current_file == old(self).current_file,
    {
        self.is_dragging = true;
        self.selection_anchor = None;
    }

    /// The press ends: dragging stops, and a selection that ends where it
    /// began is dropped.
    pub fn finger_up(&mut self)
        requires
            old(self).wf(),
        ensures
            final(self).wf(),
            !final(self).is_dragging,
            final(self).selection_anchor == if old(self).selection_anchor == Some(old(self).cursor()) {
                None
            } else {
                old(self).selection_anchor
            },
            final(self).document == old(self).document,
            final(self).cursor() == old(self).cursor(),
            final(self).current_file == old(self).current_file,
    {
        self.is_dragging = false;
        match self.selection_anchor {
            Some(a) => {
                if a.0 == self.cursor_block && a.1 == self.cursor_char {
                    self.selection_anchor = None;
                }
            },
            None => {},
        }
    }

    /// The drawing found the pressed position at character `char_idx` of
    /// block `block_idx`: the cursor goes there, and while dragging without
    /// a selection, the selection starts there.
    pub fn apply_hit(&mut self, block_idx: usize, char_idx: usize)
        requires
            old(self).wf(),
            block_idx < old(self).document.blocks_view().len(),
        ensures
            final(self).wf(),
            char_idx <= old(self).document.blocks_view()[block_idx as int].text.len()
                ==> cursor_in_text(final(self).model()),
            final(self).cursor() == (block_idx, char_idx),
            final(self).selection_anchor == if old(self).is_dragging && old(self).selection_anchor is None {
                Some((block_idx, char_idx))
            } else {
                old(self).selection_anchor
            },
            final(self).document == old(self).document,
            final(self).is_dragging == old(self).is_dragging,
            final(self).current_file == old(self).current_file,
    {
        self.cursor_block = block_idx;
        self.cursor_char = char_idx;
        if self.is_dragging && self.selection_anchor.is_none() {
            self.selection_anchor = Some((block_idx, char_idx));
        }
    }

    /// The selected text, if there is a selection (see `range_text`).
    pub fn copy_selection(&self) -> (r: Option<String>)
        requires
            self.wf(),
            self.anchor_in_document(),
        ensures
            match selection_of(self.selection_anchor, self.cursor()) {
                Some((s, e)) => r matches Some(t) && t@ == range_text(
                    self.document.blocks_view(),
                    pos(s),
                    pos(e),
                ),
                None => r is None,
            },
    {
        match self.get_selection_range() {
            Some((s, e)) => Some(self.document.get_text_in_range(s, e)),
            None => None,
        }
    }

    /// Cuts the selection: returns its text, deletes it, puts the cursor at
    /// its start and ends the selection.  Without a selection nothing
    /// happens.
    pub fn cut_selection(&mut self) -> (r: Option<String>)
        requires
            old(self).wf(),
            old(self).anchor_in_document(),
        ensures
            final(self).wf(),
            match selection_of(old(self).selection_anchor, old(self).cursor()) {
                Some((s, e)) => {
                    &&& r matches Some(t) && t@ == range_text(
                        old(self).document.blocks_view(),
                        pos(s),
                        pos(e),
                    )
                    &&& final(self).model() == delete_selection_effect(old(self).model(), s, e)
                },
                None => r is None && final(self).model() == old(self).model(),
            },
            final(self).is_dragging == old(self).is_dragging,
            final(self).current_file == old(self).current_file,
    {
        match self.get_selection_range() {
            Some((s, e)) => {
                let text = self.document.get_text_in_range(s, e);
                self.delete_selection_exec(s, e);
                Some(text)
            },
            None => None,
        }
    }

    /// Ctrl+A: selects the cursor's block from its start to its end.
    pub fn select_all(&mut self)
        requires
            old(self).wf(),
        ensures
            final(self).wf(),
            cursor_in_text(final(self).model()),
            final(self).selection_anchor == Some((old(self).cursor_block, 0usize)),
            final(self).cursor() == (
                old(self).cursor_block,
                old(self).document.blocks_view()[old(self).cursor_block as int].text.len() as usize,
            ),
            final(self).document == old(self).document,
            final(self).is_dragging == old(self).is_dragging,
            final(self).current_file == old(self).current_file,
    {
        self.selection_anchor = Some((self.cursor_block, 0));
        self.cursor_char = self.len_at(self.cursor_block);
    }

    /// Ctrl+B (`bold`) or Ctrl+I: with a selection inside one block, bold
    /// or italic is switched on it (see `toggled_styles`; the cursor and
    /// the selection stay); without a selection, `"****"` or `"**"` is
    /// typed at the cursor and the cursor goes between the markers.
    pub fn format_shortcut(&mut self, bold: bool)
        requires
            old(self).wf(),
            old(self).cursor_char + 2 <= usize::MAX,
        ensures
            final(self).wf(),
            cursor_in_text(old(self).model()) ==> cursor_in_text(final(self).model()),
            final(self).selection_anchor == old(self).selection_anchor,
            final(self).is_dragging == old(self).is_dragging,
            final(self).current_file == old(self).current_file,
            final(self).document.next_id_value() == old(self).document.next_id_value(),
            match selection_of(old(self).selection_anchor, old(self).cursor()) {
                Some((s, e)) => {
                    &&& final(self).cursor() == old(self).cursor()
                    &&& if s.0 == e.0 && runs_fit(old(self).document.blocks_view(), s.0 as int, 0) {
                        let b = old(self).document.blocks_view()[s.0 as int];
                        let nb = final(self).document.blocks_view()[s.0 as int];
                        &&& final(self).document.blocks_view() == old(self).document.blocks_view().update(
                            s.0 as int,
                            BlockView { styles: nb.styles, is_dirty: true, ..b },
                        )
                        &&& nb.styles == toggled_runs(
                            b.styles,
                            s.1 as int,
                            e.1 as int,
                            if bold {
                                0u8
                            } else {
                                1u8
                            },
                        )
                        &&& char_styles(nb.styles) == toggled_styles(
                            char_styles(b.styles),
                            s.1 as int,
                            e.1 as int,
                            if bold {
                                0u8
                            } else {
                                1u8
                            },
                        )
                    } else {
                        final(self).document.blocks_view() == old(self).document.blocks_view()
                    }
                },
                None => {
                    let ins = if bold {
                        seq!['*', '*', '*', '*']
                    } else {
                        seq!['*', '*']
                    };
                    let i = old(self).cursor_block as int;
                    if runs_fit(old(self).document.blocks_view(), i, ins.len() as int) {
                        &&& final(self).document.blocks_view() == doc_after_insert(
                            old(self).document.blocks_view(),
                            i,
                            old(self).cursor_char as int,
                            ins,
                        )
                        &&& final(self).cursor() == (
                            old(self).cursor_block,
                            (old(self).cursor_char + ins.len() / 2) as usize,
                        )
                    } else {
                        &&& final(self).document.blocks_view() == old(self).document.blocks_view()
                        &&& final(self).cursor() == old(self).cursor()
                    }
                },
            },
    {
        match self.get_selection_range() {
            Some((s, e)) => {
                if s.0 == e.0 && self.document.runs_fit_check(s.0, 0) {
                    let kind: u8 = if bold {
                        0
                    } else {
                        1
                    };
                    self.document.toggle_formatting(s.0, s.1, e.1, kind);
                }
            },
            None => {
                let (insert_text, marker_len): (&str, usize) = if bold {
                    ("****", 2)
                } else {
                    ("**", 1)
                };
                proof {
                    reveal_strlit("****");
                    reveal_strlit("**");
                }
                assert(insert_text@ == (if bold {
                    seq!['*', '*', '*', '*']
                } else {
                    seq!['*', '*']
                }));
                if self.document.runs_fit_check(self.cursor_block, if bold { 4 } else { 2 }) {
                    self.document.insert_text_at(self.cursor_block, self.cursor_char, insert_text);
                    self.cursor_char = self.cursor_char + marker_len;
                }
            },
        }
    }

    /// Checks the typed text (see `input_valid`).
    fn input_is_valid(input: &[char]) -> (b: bool)
        ensures
            b == input_valid(input@),
    {
        let mut any_control = false;
        let mut has_break = false;
        let mut i: usize = 0;
        while i < input.len()
            invariant
                i <= input@.len(),
                any_control == exists|k: int| 0 <= k < i && is_control_char(#[trigger] input@[k]),
                has_break == exists|k: int|
                    0 <= k < i && (#[trigger] input@[k] == '\n' || input@[k] == '\r' || input@[k]
                        == '\t'),
            decreases input@.len() - i,
        {
            let c = input[i];
            if is_control(c) {
                any_control = true;
            }
            if c == '\n' || c == '\r' || c == '\t' {
                has_break = true;
            }
            i = i + 1;
        }
        proof {
            let s = input@;
            if has_break {
                let k = choose|k: int|
                    0 <= k < s.len() && (#[trigger] s[k] == '\n' || s[k] == '\r' || s[k] == '\t');
                if s[k] == '\n' {
                    assert(s.contains('\n'));
                } else if s[k] == '\r' {
                    assert(s.contains('\r'));
                } else {
                    assert(s.contains('\t'));
                }
            } else {
                if s.contains('\n') {
                    let k = choose|k: int| 0 <= k < s.len() && s[k] == '\n';
                    assert(s[k] == '\n');
                }
                if s.contains('\r') {
                    let k = choose|k: int| 0 <= k < s.len() && s[k] == '\r';
                    assert(s[k] == '\r');
                }
                if s.contains('\t') {
                    let k = choose|k: int| 0 <= k < s.len() && s[k] == '\t';
                    assert(s[k] == '\t');
                }
            }
        }
        !any_control || has_break
    }

    /// Typed text (see `text_input_effect`).
    pub fn text_input(&mut self, input: &str)
        requires
            old(self).wf(),
            old(self).cursor_char + input@.len() < usize::MAX,
            old(self).selection_anchor matches Some(a) ==> a.1 + input@.len() < usize::MAX,
            input@.len() > 0 && input_valid(input@) ==> old(self).anchor_in_document(),
        ensures
            final(self).wf(),
            final(self).model() == text_input_effect(old(self).model(), input@),
            final(self).is_dragging == old(self).is_dragging,
            final(self).current_file == old(self).current_file,
    {
        let chars = chars_of(input);
        char_count_bound(input);
        if chars.len() == 0 || !Self::input_is_valid(&chars) {
            return ;
        }
        proof {
            self.document.lemma_view();
            reveal_strlit("*");
            reveal_strlit("`");
            reveal_strlit("_");
        }
        match self.get_selection_range() {
            Some((s, e)) => {
                let marker = chars.len() == 1 && (chars[0] == '*' || chars[0] == '`' || chars[0] == '_');
                assert(marker == is_wrap_marker(input@)) by {
                    if chars@.len() == 1 {
                        assert(chars@ =~= seq![chars@[0]]);
                    }
                }
                if s.0 == e.0 && s.0 == self.cursor_block && s.1 != e.1 && marker {
                    if self.document.runs_fit_check(s.0, 2 * chars.len()) {
                        let consumed = self.document.wrap_selection(s.0, s.1, e.1, input);
                        if !consumed {
                            self.selection_anchor = Some((s.0, s.1 + 1));
                            self.cursor_char = e.1 + 1;
                        } else {
                            self.cursor_char = e.1;
                            self.selection_anchor = Some((s.0, s.1));
                        }
                    }
                    return ;
                }
                if (s.0 != e.0 || s.1 != e.1) && self.document.runs_fit_check(s.0, 0)
                    && self.document.runs_fit_check(e.0, 0) {
                    proof {
                        lemma_delete_range_len(self.document.blocks_view(), pos(s), pos(e));
                    }
                    let r = self.document.delete_range(s, e);
                    self.cursor_block = r.0;
                    self.cursor_char = r.1;
                }
                self.selection_anchor = None;
            },
            None => {},
        }
        assert(self.model() == replace_selection(old(self).model()));
        let ghost m1 = self.model();
        if self.document.runs_fit_check(self.cursor_block, chars.len()) {
            let added = self.document.insert_text_at(self.cursor_block, self.cursor_char, input);
            self.cursor_char = self.cursor_char + added;
        }
        assert(self.model() == insert_at_cursor(m1, input@));
        let ghost m2 = self.model();
        match self.document.try_convert_block(self.cursor_block) {
            Some(k) => {
                self.cursor_char = if self.cursor_char >= k {
                    self.cursor_char - k
                } else {
                    0
                };
            },
            None => {},
        }
        assert(self.model() == convert_at_cursor(m2));
        if chars.len() == 1 && chars[0] == ' ' {
            assert(input@ =~= seq![' ']);
            if self.document.apply_inline_formatting(self.cursor_block) {
                self.cursor_char = self.len_at(self.cursor_block);
            }
        } else {
            assert(input@ != seq![' ']);
        }
    }


    /// Inserts `ins` at the cursor when the runs fit (see `insert_at_cursor`).
    fn insert_at_cursor_exec(&mut self, ins: &str)
        requires
            old(self).wf(),
            old(self).cursor_char + ins@.len() <= usize::MAX,
        ensures
            final(self).model() == insert_at_cursor(old(self).model(), ins@),
            final(self).wf(),
            final(self).is_dragging == old(self).is_dragging,
            final(self).current_file == old(self).current_file,
    {
        let n = chars_of(ins).len();
        if self.document.runs_fit_check(self.cursor_block, n) {
            let added = self.document.insert_text_at(self.cursor_block, self.cursor_char, ins);
            self.cursor_char = self.cursor_char + added;
        }
    }

    /// Pastes a later line (see `paste_line`).
    fn paste_line_exec(&mut self, part: &str)
        requires
            old(self).wf(),
            old(self).document.next_id_value() < u64::MAX,
            part@.len() <= isize::MAX,
        ensures
            final(self).model() == paste_line(old(self).model(), part@),
            final(self).wf(),
            final(self).is_dragging == old(self).is_dragging,
            final(self).current_file == old(self).current_file,
    {
        proof {
            self.document.lemma_view();
        }
        let ghost m0 = self.model();
        let cb = self.cursor_block;
        let text = chars_of(self.document.blocks[cb].text.as_str());
        char_count_bound(self.document.blocks[cb].text.as_str());
        let n = text.len();
        let cc = self.cursor_char;
        let rest_start = if cc < n {
            cc
        } else {
            n
        };
        let rest = string_of(&text, rest_start, n);
        let k = n - rest_start;
        let ghost v0 = self.document.blocks_view();
        if self.document.runs_fit_check(cb, 0) {
            let mut j: usize = 0;
            while j < k
                invariant
                    j <= k,
                    cb < v0.len(),
                    self.document.next_id_value() == m0.next_id,
                    self.selection_anchor == m0.anchor,
                    self.cursor_block == cb,
                    self.cursor_char == cc,
                    self.is_dragging == old(self).is_dragging,
                    self.current_file == old(self).current_file,
                    self.document.blocks_view().len() == v0.len(),
                    runs_fit(self.document.blocks_view(), cb as int, 0),
                    crate::editor::model::document::remove_n(v0, cb as int, rest_start as int, k as nat)
                        == crate::editor::model::document::remove_n(
                        self.document.blocks_view(),
                        cb as int,
                        rest_start as int,
                        (k - j) as nat,
                    ),
                decreases k - j,
            {
                proof {
                    crate::editor::model::document::lemma_remove_keeps_fit(
                        self.document.blocks_view(),
                        cb as int,
                        rest_start as int,
                        cb as int,
                    );
                }
                self.document.remove_char_at(cb, rest_start);
                j = j + 1;
            }
            proof {
                lemma_remove_n_len(v0, cb as int, rest_start as int, k as nat);
                assert(crate::editor::model::document::remove_n(
                    self.document.blocks_view(),
                    cb as int,
                    rest_start as int,
                    0,
                ) == self.document.blocks_view());
            }
        }
        let ghost v1 = self.document.blocks_view();
        proof {
            self.document.lemma_view();
        }
        let nblocks = self.document.blocks.len();
        assert(cb < nblocks);
        let id = self.document.generate_id();
        let nb = Block::new(id, BlockType::Paragraph, rest.as_str());
        let ghost nbv = nb@;
        self.document.insert_block(cb + 1, nb);
        proof {
            self.document.lemma_view();
            assert(self.document.blocks_view()[cb + 1] == nbv);
            assert(crate::editor::model::block::styles_len(nbv.styles) == k) by {
                reveal_with_fuel(crate::editor::model::block::styles_prefix_len, 2);
            }
        }
        let ghost v2 = self.document.blocks_view();
        assert(v1 == if runs_fit(v0, cb as int, 0) {
            crate::editor::model::document::remove_n(v0, cb as int, (n - k) as int, k as nat)
        } else {
            v0
        });
        assert(rest@ == if (cc as int) < v0[cb as int].text.len() {
            v0[cb as int].text.subrange(cc as int, v0[cb as int].text.len() as int)
        } else {
            Seq::<char>::empty()
        });
        assert(v2 == v1.insert(cb + 1, nbv));
        assert(v1.len() == v0.len());
        let added = self.document.insert_text_at(cb + 1, 0, part);
        self.cursor_block = cb + 1;
        self.cursor_char = added;
        assert(self.document.blocks_view().len() == v0.len() + 1);
        assert(self.document.blocks_view().len() > 0);
        assert(self.cursor_block < self.document.blocks_view().len());
        assert(self.selection_anchor == m0.anchor);
    }

    /// Pastes `text` (see `paste_effect`); returns the first block whose
    /// layout changed: the start of the deleted selection, or the cursor's
    /// block.
    #[verifier::spinoff_prover]
    #[verifier::rlimit(40)]
    pub fn paste(&mut self, text: &str) -> (r: usize)
        requires
            old(self).wf(),
            old(self).cursor_char + text@.len() < usize::MAX,
            old(self).selection_anchor matches Some(a) ==> a.1 + text@.len() < usize::MAX,
            text@.len() > 0 ==> old(self).anchor_in_document(),
            old(self).document.next_id_value() + count_char(normalize_breaks(text@), '\n')
                < u64::MAX,
        ensures
            final(self).wf(),
            final(self).model() == paste_effect(old(self).model(), text@),
            r == match selection_of(old(self).selection_anchor, old(self).cursor()) {
                Some((s, e)) => if text@.len() > 0 {
                    s.0
                } else {
                    old(self).cursor_block
                },
                None => old(self).cursor_block,
            },
            final(self).is_dragging == old(self).is_dragging,
            final(self).current_file == old(self).current_file,
    {
        if text.is_empty() {
            return self.cursor_block;
        }
        let mut start_block = self.cursor_block;
        match self.get_selection_range() {
            Some((s, e)) => {
                if self.document.runs_fit_check(s.0, 0) && self.document.runs_fit_check(e.0, 0) {
                    proof {
                        lemma_delete_range_len(self.document.blocks_view(), pos(s), pos(e));
                    }
                    let r = self.document.delete_range(s, e);
                    self.cursor_block = r.0;
                    self.cursor_char = r.1;
                }
                start_block = s.0;
                self.selection_anchor = None;
            },
            None => {},
        }
        let ghost m1 = self.model();
        let t = normalize_line_breaks(text);
        char_count_bound(text);
        proof {
            lemma_normalize_len(text@);
        }
        let n = t.len();
        let nl = vec!['\n'];
        assert(nl@ == seq!['\n']);
        proof {
            lemma_find_from(t@, seq!['\n'], 0);
        }
        match find_seq(&t, &nl, 0) {
            None => {
                let first = string_of(&t, 0, n);
                assert(t@.subrange(0, n as int) =~= t@);
                self.insert_at_cursor_exec(first.as_str());
                return start_block;
            },
            Some(k0) => {
                let first = string_of(&t, 0, k0);
                self.insert_at_cursor_exec(first.as_str());
                proof {
                    let tt = t@;
                    assert(tt =~= tt.subrange(0, k0 as int) + seq!['\n'] + tt.subrange(
                        k0 + 1,
                        n as int,
                    ));
                    lemma_count_char_concat(tt.subrange(0, k0 as int) + seq!['\n'], tt.subrange(k0 + 1, n as int), '\n');
                    lemma_count_char_concat(tt.subrange(0, k0 as int), seq!['\n'], '\n');
                    assert(count_char(seq!['\n'], '\n') == 1) by {
                        assert(seq!['\n'].drop_last() =~= Seq::<char>::empty());
                        reveal_with_fuel(count_char, 2);
                    }
                }
                let ghost goal = paste_effect(old(self).model(), text@);
                assert(goal == paste_lines(self.model(), t@.subrange(k0 + 1, n as int)));
                let mut p = k0 + 1;
                loop
                    invariant
                        self.wf(),
                        p <= n == t@.len(),
                        n <= isize::MAX,
                        nl@ == seq!['\n'],
                        goal == paste_lines(self.model(), t@.subrange(p as int, n as int)),
                        self.document.next_id_value() + count_char(t@.subrange(p as int, n as int), '\n')
                            < u64::MAX,
                        self.is_dragging == old(self).is_dragging,
                        self.current_file == old(self).current_file,
                        goal == paste_effect(old(self).model(), text@),
                        text@.len() > 0,
                        start_block == match selection_of(old(self).selection_anchor, old(self).cursor()) {
                            Some((s, e)) => s.0,
                            None => old(self).cursor_block,
                        },
                    decreases n - p,
                {
                    let ghost rest = t@.subrange(p as int, n as int);
                    proof {
                        lemma_find_from_shift(t@, seq!['\n'], p as int, 0);
                        lemma_find_from(t@, seq!['\n'], p as int);
                    }
                    match find_seq(&t, &nl, p) {
                        Some(k) => {
                            let part = string_of(&t, p, k);
                            proof {
                                assert(rest =~= rest.subrange(0, k - p) + seq!['\n'] + rest.subrange(
                                    k - p + 1,
                                    rest.len() as int,
                                ));
                                lemma_count_char_concat(rest.subrange(0, k - p) + seq!['\n'], rest.subrange(k - p + 1, rest.len() as int), '\n');
                                lemma_count_char_concat(rest.subrange(0, k - p), seq!['\n'], '\n');
                                assert(count_char(seq!['\n'], '\n') == 1) by {
                                    assert(seq!['\n'].drop_last() =~= Seq::<char>::empty());
                                    reveal_with_fuel(count_char, 2);
                                }
                                assert(rest.subrange(0, k - p) =~= part@);
                                assert(rest.subrange(k - p + 1, rest.len() as int) =~= t@.subrange(
                                    k + 1,
                                    n as int,
                                ));
                            }
                            self.paste_line_exec(part.as_str());
                            p = k + 1;
                        },
                        None => {
                            let part = string_of(&t, p, n);
                            self.paste_line_exec(part.as_str());
                            return start_block;
                        },
                    }
                }
            },
        }
    }


    /// A file was asked to be loaded: it becomes the current one at once,
    /// so that it stays so (and Ctrl+S saves under its name) even when it
    /// cannot be read; nothing else changes.
    pub fn load_requested(&mut self, path: String)
        requires
            old(self).wf(),
        ensures
            final(self).wf(),
            final(self).current_file == Some(path),
            final(self).document == old(self).document,
            final(self).cursor_block == old(self).cursor_block,
            final(self).cursor_char == old(self).cursor_char,
            final(self).selection_anchor == old(self).selection_anchor,
            final(self).is_dragging == old(self).is_dragging,
    {
        self.current_file = Some(path);
    }

    /// A file was loaded: its blocks replace the document's, the cursor
    /// goes to the start and the file becomes the current one; the
    /// selection's anchor is kept as it was.
    pub fn file_loaded(&mut self, path: String, blocks: Vec<Block>)
        requires
            old(self).wf(),
            blocks@.len() > 0,
        ensures
            final(self).wf(),
            cursor_in_text(final(self).model()),
            final(self).document.blocks_view() == blocks_view(blocks@),
            final(self).document.next_id_value() == old(self).document.next_id_value(),
            final(self).cursor() == (0usize, 0usize),
            final(self).current_file == Some(path),
            final(self).selection_anchor == old(self).selection_anchor,
            final(self).is_dragging == old(self).is_dragging,
    {
        proof {
            self.document.lemma_view();
        }
        self.document.blocks = blocks;
        proof {
            self.document.lemma_view();
        }
        self.cursor_block = 0;
        self.cursor_char = 0;
        self.current_file = Some(path);
    }

    /// What Ctrl+S saves: a copy of the document and the file name (the
    /// current file, else `"story.md"`).
    pub fn save_request(&self) -> (r: (Document, String))
        ensures
            r.0.blocks_view() == self.document.blocks_view(),
            r.0.next_id_value() == self.document.next_id_value(),
            r.1@ == match self.current_file {
                Some(f) => f@,
                None => "story.md"@,
            },
    {
        let snapshot = self.document.snapshot();
        let name = match &self.current_file {
            Some(f) => f.clone(),
            None => String::from_str("story.md"),
        };
        (snapshot, name)
    }

}

/// Moving left and then right by a character, without a selection, puts
/// the cursor back where it was.
pub proof fn law_left_then_right_restores_cursor(m: AreaModel)
    requires
        m.anchor is None,
        m.cursor.0 < m.blocks.len(),
        0 < m.cursor.1 <= block_len(m, m.cursor.0 as int),
    ensures
        key_effect(key_effect(m, EditorKey::ArrowLeft, false, false), EditorKey::ArrowRight, false, false)
            == m,
{
}

/// Moving right and then left by a character, without a selection, puts
/// the cursor back where it was.
pub proof fn law_right_then_left_restores_cursor(m: AreaModel)
    requires
        m.anchor is None,
        m.cursor.0 < m.blocks.len(),
        m.cursor.1 < block_len(m, m.cursor.0 as int),
        m.cursor.1 < usize::MAX,
    ensures
        key_effect(key_effect(m, EditorKey::ArrowRight, false, false), EditorKey::ArrowLeft, false, false)
            == m,
{
}

/// Enter in a block that is not a list item, then Backspace, gives back
/// the texts of all blocks; the cursor ends at the end of the first block.
pub proof fn law_enter_then_backspace_keeps_texts(m: AreaModel)
    requires
        m.cursor.0 < m.blocks.len() < usize::MAX,
        !is_list(m.blocks[m.cursor.0 as int].ty),
    ensures
        ({
            let after = key_effect(
                key_effect(m, EditorKey::ReturnKey, false, false),
                EditorKey::Backspace,
                false,
                false,
            );
            &&& after.blocks.len() == m.blocks.len()
            &&& forall|j: int| 0 <= j < m.blocks.len() ==> #[trigger] after.blocks[j].text == m.blocks[j].text
            &&& after.cursor == (m.cursor.0, block_len(m, m.cursor.0 as int) as usize)
        }),
{
    let i = m.cursor.0 as int;
    let m1 = key_effect(m, EditorKey::ReturnKey, false, false);
    assert(m1.blocks.len() == m.blocks.len() + 1);
    assert(m1.blocks[i + 1].text.len() == 0);
    assert(m1.blocks[i] == m.blocks[i]);
    assert(m1.anchor is None);
    assert(m1.cursor == ((i + 1) as usize, 0usize));
    assert(m1.blocks[i + 1].ty == BlockType::Paragraph);
    let after = key_effect(m1, EditorKey::Backspace, false, false);
    assert(anchor_step(m1, EditorKey::Backspace, false, false) == m1);
    assert(after == backspace_plain(m1));
    let (bl, r) = doc_after_merge(m1.blocks, i + 1);
    assert(r == Some(m.blocks[i].text.len() as usize));
    assert(after.blocks == bl);
    assert(bl == m1.blocks.remove(i + 1).update(i, BlockView {
        text: m1.blocks[i].text + m1.blocks[i + 1].text,
        styles: m1.blocks[i].styles + m1.blocks[i + 1].styles,
        is_dirty: true,
        ..m1.blocks[i]
    }));
    assert(after.blocks[i].text =~= m.blocks[i].text);
    assert forall|j: int| 0 <= j < m.blocks.len() implies #[trigger] after.blocks[j].text
        == m.blocks[j].text by {
        if j < i {
            assert(after.blocks[j] == m1.blocks[j]);
            assert(m1.blocks[j] == m.blocks[j]);
        } else if j > i {
            assert(after.blocks[j] == m1.blocks[j + 1]);
            assert(m1.blocks[j + 1] == m.blocks[j]);
        }
    }
}


/// A saved line reads back as the block it was written from: a paragraph,
/// a level-1 to level-3 heading or a quote, whose text does not itself
/// start like a block prefix, is written with its kind's prefix and read
/// back with the same kind and text.
pub proof fn law_saved_line_reads_back(ty: BlockType, text: Seq<char>)
    requires
        ty == BlockType::Paragraph || ty == BlockType::Heading1 || ty == BlockType::Heading2
            || ty == BlockType::Heading3 || ty == BlockType::Quote,
        line_block(text) == (BlockType::Paragraph, text),
    ensures
        line_block(type_prefix(ty) + text) == (ty, text),
{
    let line = type_prefix(ty) + text;
    let p = type_prefix(ty);
    assert(line.subrange(0, p.len() as int) =~= p);
    assert(line.subrange(p.len() as int, line.len() as int) =~= text);
    if ty == BlockType::Paragraph {
        assert(line =~= text);
    }
}

/// The cursor and the selection's anchor lie within the text of their
/// blocks: each names an existing block and a column at most that block's
/// length.
pub open spec fn columns_in_text(m: AreaModel) -> bool {
    &&& m.cursor.0 < m.blocks.len()
    &&& m.cursor.1 <= block_len(m, m.cursor.0 as int)
    &&& m.anchor matches Some(a) ==> a.0 < m.blocks.len() && a.1 <= block_len(m, a.0 as int)
}

/// Moving back over white space stays within `0..=i`.
proof fn lemma_skip_back_ws_le(t: Seq<char>, i: int)
    requires
        0 <= i,
    ensures
        0 <= skip_back_ws(t, i) <= i,
    decreases i,
{
    if i > 0 {
        lemma_skip_back_ws_le(t, i - 1);
    }
}

/// Moving back over a word stays within `0..=i`.
proof fn lemma_skip_back_word_le(t: Seq<char>, i: int)
    requires
        0 <= i,
    ensures
        0 <= skip_back_word(t, i) <= i,
    decreases i,
{
    if i > 0 {
        lemma_skip_back_word_le(t, i - 1);
    }
}

/// Moving forward over white space stays within `i..=t.len()`.
proof fn lemma_skip_fwd_ws_le(t: Seq<char>, i: int)
    requires
        0 <= i <= t.len(),
    ensures
        i <= skip_fwd_ws(t, i) <= t.len(),
    decreases t.len() - i,
{
    if i < t.len() {
        lemma_skip_fwd_ws_le(t, i + 1);
    }
}

/// Moving forward over a word stays within `i..=t.len()`.
proof fn lemma_skip_fwd_word_le(t: Seq<char>, i: int)
    requires
        0 <= i <= t.len(),
    ensures
        i <= skip_fwd_word(t, i) <= t.len(),
    decreases t.len() - i,
{
    if i < t.len() {
        lemma_skip_fwd_word_le(t, i + 1);
    }
}

/// The word moves stay within the text: back to `0..=c`, forward to
/// `c..=t.len()`.
proof fn lemma_word_moves_in_text(t: Seq<char>, c: int)
    requires
        0 <= c <= t.len(),
    ensures
        0 <= prev_word(t, c) <= c,
        c <= next_word(t, c) <= t.len(),
{
    lemma_skip_back_ws_le(t, c);
    lemma_skip_back_word_le(t, skip_back_ws(t, c));
    lemma_skip_fwd_ws_le(t, c);
    lemma_skip_fwd_word_le(t, skip_fwd_ws(t, c));
}

/// Moving the cursor keeps it, and the selection's anchor, within the text
/// of their blocks: the arrows (with or without Shift or Ctrl), Tab, Enter
/// and the keys that do nothing.
pub proof fn law_moves_keep_columns_in_text(m: AreaModel, key: EditorKey, shift: bool, ctrl: bool)
    requires
        columns_in_text(m),
        m.blocks.len() < usize::MAX,
        key != EditorKey::Delete,
        key != EditorKey::Backspace,
    ensures
        columns_in_text(key_effect(m, key, shift, ctrl)),
{
    let m1 = anchor_step(m, key, shift, ctrl);
    assert(columns_in_text(m1));
    let (cb, cc) = m1.cursor;
    let i = cb as int;
    lemma_word_moves_in_text(m1.blocks[i].text, cc as int);
    let r = key_effect(m, key, shift, ctrl);
    match key {
        EditorKey::Tab => {
            let b = m1.blocks[i];
            assert(r == tab_effect(m1, shift));
            assert(r.cursor == m1.cursor && r.anchor == m1.anchor);
            assert(r.blocks.len() == m1.blocks.len());
            assert forall|j: int| 0 <= j < r.blocks.len() implies (#[trigger] r.blocks[j]).text
                == m1.blocks[j].text by {
                if j == i {
                    if is_list(b.ty) {
                        if shift {
                            if b.indent > 0 {
                                assert(r.blocks[j] == BlockView { indent: (b.indent - 1) as usize, ..b });
                            }
                        } else if b.indent < 10 {
                            assert(r.blocks[j] == BlockView { indent: (b.indent + 1) as usize, ..b });
                        }
                    }
                }
            }
            assert(block_len(r, i) == block_len(m1, i));
            if r.anchor is Some {
                let a = r.anchor->0;
                assert(block_len(r, a.0 as int) == block_len(m1, a.0 as int));
            }
            assert(columns_in_text(r));
        },
        EditorKey::ReturnKey => {
            let b = m1.blocks[i];
            if is_list(b.ty) && b.text.len() == 0 {
                assert(r.blocks[i].text == b.text);
            } else {
                assert(r.blocks[i + 1].text.len() == 0);
            }
            assert(columns_in_text(r));
        },
        EditorKey::ArrowUp => {
            if cb > 0 {
                assert(r.cursor.1 <= block_len(m1, i - 1));
            }
            assert(columns_in_text(r));
        },
        EditorKey::ArrowDown => {
            if cb + 1 < m1.blocks.len() {
                assert(r.cursor.1 <= block_len(m1, i + 1));
            }
            assert(columns_in_text(r));
        },
        EditorKey::ArrowLeft => {
            assert(columns_in_text(r));
        },
        EditorKey::ArrowRight => {
            assert(columns_in_text(r));
        },
        _ => {
            assert(columns_in_text(r));
        },
    }
}

/// The cursor names an existing block and a column at most that block's
/// length.
pub open spec fn cursor_in_text(m: AreaModel) -> bool {
    &&& m.cursor.0 < m.blocks.len()
    &&& m.cursor.1 <= block_len(m, m.cursor.0 as int)
}

/// Removing `n` characters at `c` of block `idx` leaves the other blocks,
/// and leaves block `idx` with `n` characters fewer, or `c` when fewer
/// than `n` followed `c`.
proof fn lemma_remove_n_text(blocks: Seq<BlockView>, idx: int, c: int, n: nat)
    requires
        0 <= idx < blocks.len(),
        0 <= c <= blocks[idx].text.len(),
    ensures
        ({
            let r = crate::editor::model::document::remove_n(blocks, idx, c, n);
            let l = blocks[idx].text.len() as int;
            &&& r.len() == blocks.len()
            &&& r[idx].text.len() == if l - c >= n {
                l - n
            } else {
                c
            }
            &&& forall|j: int| 0 <= j < blocks.len() && j != idx ==> #[trigger] r[j] == blocks[j]
        }),
    decreases n,
{
    if n > 0 {
        let b1 = doc_after_remove(blocks, idx, c).0;
        assert(b1.len() == blocks.len());
        if c < blocks[idx].text.len() {
            assert(b1[idx].text.len() == blocks[idx].text.len() - 1);
        } else {
            assert(b1[idx] == blocks[idx]);
        }
        lemma_remove_n_text(b1, idx, c, (n - 1) as nat);
    }
}

/// Deleting a range whose start lies within its block leaves that block
/// with at least as many characters as the start's column.
proof fn lemma_delete_range_keeps_start(blocks: Seq<BlockView>, s: (int, int), e: (int, int))
    requires
        0 <= s.0 <= e.0 < blocks.len(),
        0 <= s.1 <= blocks[s.0].text.len(),
        s.0 == e.0 ==> s.1 <= e.1 <= blocks[s.0].text.len(),
        0 <= e.1,
    ensures
        s.0 < doc_after_delete_range(blocks, s, e).len(),
        s.1 <= doc_after_delete_range(blocks, s, e)[s.0].text.len(),
{
    lemma_delete_range_len(blocks, s, e);
    if s.0 == e.0 {
        lemma_remove_n_text(blocks, s.0, s.1, (e.1 - s.1) as nat);
    } else {
        let first_len = blocks[s.0].text.len() as int;
        let n1 = (if first_len > s.1 {
            first_len - s.1
        } else {
            0
        }) as nat;
        lemma_remove_n_text(blocks, s.0, s.1, n1);
        let b1 = crate::editor::model::document::remove_n(blocks, s.0, s.1, n1);
        assert(b1[s.0].text.len() == s.1);
        let b2 = crate::editor::model::document::remove_n(b1, e.0, 0, e.1 as nat);
        lemma_remove_n_text(b1, e.0, 0, e.1 as nat);
        assert(b2[s.0] == b1[s.0]);
        let b3 = if e.0 > s.0 + 1 {
            b2.subrange(0, s.0 + 1) + b2.subrange(e.0, b2.len() as int)
        } else {
            b2
        };
        assert(b3[s.0] == b2[s.0]);
        if s.0 + 1 < b3.len() {
            let r = doc_after_merge(b3, s.0 + 1).0;
            assert(r[s.0].text == b3[s.0].text + b3[s.0 + 1].text);
        }
    }
}

/// Deleting the selection puts the cursor at its start, within the text.
proof fn lemma_delete_selection_cursor(m: AreaModel, s: (usize, usize), e: (usize, usize))
    requires
        columns_in_text(m),
        selection_of(m.anchor, m.cursor) == Some((s, e)),
    ensures
        cursor_in_text(delete_selection_effect(m, s, e)),
{
    assert(s.0 <= e.0);
    assert(s.0 == e.0 ==> s.1 <= e.1);
    if fits2(m, s.0, e.0) {
        lemma_delete_range_keeps_start(m.blocks, pos(s), pos(e));
    }
}

/// Deleting text keeps the cursor within the text of its block, when the
/// cursor and the selection's anchor were within theirs: Backspace and
/// Delete, with or without Ctrl, a selection or Shift.
pub proof fn law_deletions_keep_cursor_in_text(m: AreaModel, key: EditorKey, shift: bool, ctrl: bool)
    requires
        columns_in_text(m),
        m.blocks.len() < usize::MAX,
        key == EditorKey::Delete || key == EditorKey::Backspace,
    ensures
        cursor_in_text(key_effect(m, key, shift, ctrl)),
{
    let m1 = anchor_step(m, key, shift, ctrl);
    assert(columns_in_text(m1));
    let (cb, cc) = m1.cursor;
    let i = cb as int;
    let t = m1.blocks[i].text;
    lemma_word_moves_in_text(t, cc as int);
    let r = key_effect(m, key, shift, ctrl);
    if ctrl {
        if key == EditorKey::Delete {
            let end = next_word(t, cc as int);
            if end > cc && runs_fit(m1.blocks, i, 0) {
                lemma_delete_range_keeps_start(m1.blocks, (i, cc as int), (i, end));
            }
        } else {
            let st = prev_word(t, cc as int);
            if st < cc && runs_fit(m1.blocks, i, 0) {
                lemma_delete_range_keeps_start(m1.blocks, (i, st), (i, cc as int));
            }
        }
    } else {
        match selection_of(m1.anchor, m1.cursor) {
            Some((s, e)) => {
                if s != e {
                    lemma_delete_selection_cursor(m1, s, e);
                } else if key == EditorKey::Backspace {
                    lemma_backspace_plain_cursor(AreaModel { anchor: None, ..m1 });
                }
            },
            None => {
                if key == EditorKey::Backspace {
                    lemma_backspace_plain_cursor(m1);
                } else if cc < block_len(m1, i) {
                    if runs_fit(m1.blocks, i, 0) {
                        assert(r.blocks[i].text.len() == t.len() - 1);
                    }
                } else if i + 1 < m1.blocks.len() {
                    assert(r.blocks[i].text == t + m1.blocks[i + 1].text);
                }
            },
        }
    }
}

/// Backspace without a selection keeps the cursor within the text.
proof fn lemma_backspace_plain_cursor(m: AreaModel)
    requires
        cursor_in_text(m),
    ensures
        cursor_in_text(backspace_plain(m)),
{
    let (cb, cc) = m.cursor;
    let i = cb as int;
    let b = m.blocks[i];
    let r = backspace_plain(m);
    if cc > 0 {
        if runs_fit(m.blocks, i, 0) {
            assert(r.blocks[i].text.len() == b.text.len() - 1);
        }
    } else if b.ty != BlockType::Paragraph {
        assert(r.blocks[i].text == b.text);
    } else if cb > 0 {
        assert(r.blocks[i - 1].text == m.blocks[i - 1].text + b.text);
    }
}

/// Typing over a selection deletes it and keeps the cursor within the
/// text, at one of the selection's ends.
proof fn lemma_replace_selection_cursor(m: AreaModel)
    requires
        columns_in_text(m),
    ensures
        cursor_in_text(replace_selection(m)),
        replace_selection(m).cursor == m.cursor || (m.anchor matches Some(a)
            && replace_selection(m).cursor == a),
{
    match selection_of(m.anchor, m.cursor) {
        Some((s, e)) => {
            if s != e && fits2(m, s.0, e.0) {
                lemma_delete_selection_cursor(m, s, e);
                assert(replace_selection(m) == delete_selection_effect(m, s, e));
            }
        },
        None => {},
    }
}

/// Inserting at the cursor keeps it within the text.
proof fn lemma_insert_cursor(m: AreaModel, input: Seq<char>)
    requires
        cursor_in_text(m),
        m.cursor.1 + input.len() <= usize::MAX,
    ensures
        cursor_in_text(insert_at_cursor(m, input)),
        insert_at_cursor(m, input).cursor.0 == m.cursor.0,
{
    let i = m.cursor.0 as int;
    if runs_fit(m.blocks, i, input.len() as int) {
        let b = m.blocks[i];
        let r = insert_at_cursor(m, input);
        assert(r.blocks[i] == block_after_insert(b, m.cursor.1 as int, input));
        assert(r.blocks[i].text.len() == b.text.len() + input.len());
    }
}

/// Converting the cursor's block keeps the cursor within the text.
proof fn lemma_convert_cursor(m: AreaModel)
    requires
        cursor_in_text(m),
    ensures
        cursor_in_text(convert_at_cursor(m)),
        convert_at_cursor(m).cursor.0 == m.cursor.0,
{
    let i = m.cursor.0 as int;
    let b = m.blocks[i];
    let (cb, r) = converted_block(b);
    assert(convert_at_cursor(m).blocks[i] == cb);
    match r {
        Some(k) => {
            assert(k <= b.text.len());
            assert(cb.text.len() == b.text.len() - k);
        },
        None => {
            assert(cb == b);
        },
    }
}

/// Formatting after a space keeps the cursor within the text.
proof fn lemma_format_cursor(m: AreaModel)
    requires
        cursor_in_text(m),
    ensures
        cursor_in_text(format_after_space(m)),
{
    let i = m.cursor.0 as int;
    let (bl, f) = doc_after_format(m.blocks, i);
    if !f {
        assert(bl == m.blocks);
    }
}

/// Typing keeps the cursor within the text of its block, when the cursor
/// and the selection's anchor were within theirs, except when a marker is
/// typed around a selection (the formatting that follows may consume
/// markers before the selection's end).
pub proof fn law_typing_keeps_cursor_in_text(m: AreaModel, input: Seq<char>)
    requires
        columns_in_text(m),
        !wraps(m, input),
        m.cursor.1 + input.len() <= usize::MAX,
        m.anchor matches Some(a) ==> a.1 + input.len() <= usize::MAX,
    ensures
        cursor_in_text(text_input_effect(m, input)),
{
    if input.len() > 0 && input_valid(input) {
        let m1 = replace_selection(m);
        lemma_replace_selection_cursor(m);
        lemma_insert_cursor(m1, input);
        let m2 = insert_at_cursor(m1, input);
        lemma_convert_cursor(m2);
        lemma_format_cursor(convert_at_cursor(m2));
    }
}

/// Pasting a later line puts the cursor within the new paragraph's text,
/// one block further.
proof fn lemma_paste_line_cursor(m: AreaModel, part: Seq<char>)
    requires
        cursor_in_text(m),
        m.blocks.len() < usize::MAX,
    ensures
        cursor_in_text(paste_line(m, part)),
        paste_line(m, part).blocks.len() == m.blocks.len() + 1,
{
    let i = m.cursor.0 as int;
    let t = m.blocks[i].text;
    let rest = if (m.cursor.1 as int) < t.len() {
        t.subrange(m.cursor.1 as int, t.len() as int)
    } else {
        seq![]
    };
    let k = rest.len();
    let blocks1 = if runs_fit(m.blocks, i, 0) {
        crate::editor::model::document::remove_n(m.blocks, i, t.len() - k, k)
    } else {
        m.blocks
    };
    lemma_remove_n_len(m.blocks, i, t.len() - k, k);
    let nb = BlockView {
        id: m.next_id,
        ty: BlockType::Paragraph,
        text: rest,
        styles: seq![StyleSpan { len: k as usize, style: plain_style() }],
        indent: 0,
        is_dirty: true,
    };
    let b2 = blocks1.insert(i + 1, nb);
    assert(b2[i + 1] == nb);
    let r = paste_line(m, part);
    assert(r.blocks == doc_after_insert(b2, i + 1, 0, part));
    assert(r.blocks[i + 1] == block_after_insert(nb, 0, part));
    assert(r.blocks[i + 1].text.len() == part.len() + rest.len());
}

/// Pasting the later lines keeps the cursor within the text.
proof fn lemma_paste_lines_cursor(m: AreaModel, rest: Seq<char>)
    requires
        cursor_in_text(m),
        m.blocks.len() + rest.len() < usize::MAX,
    ensures
        cursor_in_text(paste_lines(m, rest)),
    decreases rest.len(),
{
    match find_from(rest, seq!['\n'], 0) {
        Some(k) => {
            if 0 <= k < rest.len() {
                lemma_paste_line_cursor(m, rest.subrange(0, k));
                lemma_paste_lines_cursor(
                    paste_line(m, rest.subrange(0, k)),
                    rest.subrange(k + 1, rest.len() as int),
                );
            }
        },
        None => {
            lemma_paste_line_cursor(m, rest);
        },
    }
}

/// Pasting keeps the cursor within the text of its block, when the cursor
/// and the selection's anchor were within theirs.
pub proof fn law_paste_keeps_cursor_in_text(m: AreaModel, text: Seq<char>)
    requires
        columns_in_text(m),
        m.blocks.len() + text.len() < usize::MAX,
        m.cursor.1 + text.len() <= usize::MAX,
        m.anchor matches Some(a) ==> a.1 + text.len() <= usize::MAX,
    ensures
        cursor_in_text(paste_effect(m, text)),
{
    if text.len() > 0 {
        let m1 = match selection_of(m.anchor, m.cursor) {
            Some((s, e)) => if fits2(m, s.0, e.0) {
                AreaModel {
                    blocks: doc_after_delete_range(m.blocks, pos(s), pos(e)),
                    cursor: s,
                    anchor: None,
                    ..m
                }
            } else {
                AreaModel { anchor: None, ..m }
            },
            None => m,
        };
        match selection_of(m.anchor, m.cursor) {
            Some((s, e)) => {
                lemma_delete_selection_cursor(m, s, e);
                if fits2(m, s.0, e.0) {
                    assert(m1 == delete_selection_effect(m, s, e));
                    lemma_delete_range_len(m.blocks, pos(s), pos(e));
                }
            },
            None => {},
        }
        assert(cursor_in_text(m1));
        assert(m1.blocks.len() <= m.blocks.len());
        assert(m1.cursor.1 + text.len() <= usize::MAX);
        let t = normalize_breaks(text);
        lemma_normalize_len(text);
        match find_from(t, seq!['\n'], 0) {
            Some(k) => {
                if 0 <= k < t.len() {
                    lemma_insert_cursor(m1, t.subrange(0, k));
                    let m2 = insert_at_cursor(m1, t.subrange(0, k));
                    assert(m2.blocks.len() == m1.blocks.len());
                    lemma_paste_lines_cursor(m2, t.subrange(k + 1, t.len() as int));
                }
            },
            None => {
                lemma_insert_cursor(m1, t);
            },
        }
    }
}

/// Moving the cursor keeps it within the text of its block, whatever the
/// selection's anchor: the arrows (with or without Shift or Ctrl), Tab,
/// Enter and the keys that do nothing.
pub proof fn law_moves_keep_cursor_in_text(m: AreaModel, key: EditorKey, shift: bool, ctrl: bool)
    requires
        cursor_in_text(m),
        m.blocks.len() < usize::MAX,
        key != EditorKey::Delete,
        key != EditorKey::Backspace,
    ensures
        cursor_in_text(key_effect(m, key, shift, ctrl)),
{
    let m0 = AreaModel { anchor: None, ..m };
    law_moves_keep_columns_in_text(m0, key, shift, ctrl);
    let r = key_effect(m, key, shift, ctrl);
    let r0 = key_effect(m0, key, shift, ctrl);
    assert(r.blocks == r0.blocks && r.cursor == r0.cursor);
}

/// Up and Down move to the block above or below and keep the column when
/// it fits in that block; otherwise the cursor goes to the end of that
/// block, never to an earlier column.  The blocks stay as they are.
pub proof fn law_vertical_moves_keep_column(m: AreaModel, key: EditorKey, shift: bool)
    requires
        m.cursor.0 < m.blocks.len() < usize::MAX,
        key == EditorKey::ArrowUp ==> m.cursor.0 > 0,
        key == EditorKey::ArrowDown ==> m.cursor.0 + 1 < m.blocks.len(),
        key == EditorKey::ArrowUp || key == EditorKey::ArrowDown,
        forall|j: int| 0 <= j < m.blocks.len() ==> (#[trigger] m.blocks[j]).text.len() <= usize::MAX,
    ensures
        ({
            let r = key_effect(m, key, shift, false);
            let target = if key == EditorKey::ArrowUp {
                m.cursor.0 - 1
            } else {
                m.cursor.0 + 1
            };
            let len = m.blocks[target].text.len() as int;
            &&& r.blocks == m.blocks
            &&& r.cursor.0 == target
            &&& r.cursor.1 <= len
            &&& (m.cursor.1 <= len ==> r.cursor.1 == m.cursor.1)
            &&& (m.cursor.1 > len ==> r.cursor.1 == len)
        }),
{
    let target = if key == EditorKey::ArrowUp {
        m.cursor.0 - 1
    } else {
        m.cursor.0 + 1
    };
    assert(m.blocks[target].text.len() <= usize::MAX);
}

/// Enter in a list block that holds text opens, right after it, an empty
/// block of the same kind (a numbered item continues as a numbered item)
/// and the same indentation, with a fresh identity, and puts the cursor at
/// its start; the blocks before and after keep their places.
pub proof fn law_enter_continues_list(m: AreaModel, shift: bool, ctrl: bool)
    requires
        m.cursor.0 < m.blocks.len() < usize::MAX,
        m.blocks[m.cursor.0 as int].ty == BlockType::ListItem || m.blocks[m.cursor.0 as int].ty
            == BlockType::OrderedListItem,
        m.blocks[m.cursor.0 as int].text.len() > 0,
        m.next_id < u64::MAX,
    ensures
        ({
            let i = m.cursor.0 as int;
            let b = m.blocks[i];
            let r = key_effect(m, EditorKey::ReturnKey, shift, ctrl);
            &&& r.blocks.len() == m.blocks.len() + 1
            &&& r.blocks[i + 1].ty == b.ty
            &&& r.blocks[i + 1].indent == b.indent
            &&& r.blocks[i + 1].text.len() == 0
            &&& r.blocks[i + 1].id == m.next_id
            &&& r.next_id == m.next_id + 1
            &&& r.cursor == ((i + 1) as usize, 0usize)
            &&& forall|j: int| 0 <= j <= i ==> #[trigger] r.blocks[j] == m.blocks[j]
            &&& forall|j: int| i + 1 < j < r.blocks.len() ==> #[trigger] r.blocks[j] == m.blocks[j - 1]
        }),
{
}

} // verus!
