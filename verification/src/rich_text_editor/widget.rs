//! The editing state of the rich text input: its text, cursor, selection,
//! undo history and internal clipboard, and what each event does to them.
use vstd::prelude::*;

use crate::rich_text_editor::history::{history_push, history_redo, history_undo, HistoryManager};
use crate::rich_text_input::cursor::{clamp, line_col, lemma_line_col_bound, CursorManager};
use crate::rich_text_input::types::{sel_hi, sel_lo, CursorPosition, HistoryEntry, TextSelection};
use crate::text::{
    byte_slice, byte_to_char, char_count_bound, char_pos, char_utf8_len, chars_of, is_boundary, lemma_byte_prefix_len,
    lemma_char_pos_mono, lemma_ends_are_boundaries, lemma_remove_keeps_prefix, lemma_utf8_len_concat,
    lemma_utf8_len_ge, push_byte_slice, push_chars, push_str, str_byte_len, string_of, utf8_len,
};

verus! {

/// The editing state of the rich text input.
#[derive(Debug)]
pub struct RichTextEditor {
    pub text: String,
    pub is_focused: bool,
    pub is_dragging: bool,
    pub clipboard_content: Option<String>,
    pub cursor: CursorManager,
    pub history: HistoryManager,
}

/// The text, cursor, selection and drag start, abstractly.
pub struct EditView {
    pub text: Seq<char>,
    pub position: CursorPosition,
    pub selection: Option<TextSelection>,
    pub drag_start: Option<CursorPosition>,
}

/// The cursor position at index `ci` of `t`: its line and column count
/// the first `ci` characters (the index itself is kept as given).
pub open spec fn pos_of(t: Seq<char>, ci: int) -> CursorPosition {
    let lc = line_col(t.subrange(0, clamp(ci, t.len() as int)));
    CursorPosition { line: lc.0 as usize, column: lc.1 as usize, char_index: ci as usize }
}

/// Deleting the selection: the bytes between its ends are removed and the
/// cursor goes to where they began; any selection ends.  Positions are
/// byte offsets into the text (the line and column of a position count
/// characters, see `pos_of`).
pub open spec fn delete_selection_view(v: EditView) -> EditView {
    match v.selection {
        Some(s) => {
            let lo = sel_lo(s);
            let hi = sel_hi(s);
            if lo != hi {
                let t = byte_slice(v.text, 0, lo) + byte_slice(v.text, hi, utf8_len(v.text) as int);
                EditView { text: t, position: pos_of(t, lo), selection: None, ..v }
            } else {
                EditView { selection: None, ..v }
            }
        },
        None => v,
    }
}

/// The ends of a non-empty selection start characters (elsewhere the text
/// cannot be cut there).
pub open spec fn selection_cut_ok(v: EditView) -> bool {
    match v.selection {
        Some(s) => sel_lo(s) != sel_hi(s) ==> is_boundary(v.text, sel_lo(s)) && is_boundary(
            v.text,
            sel_hi(s),
        ),
        None => true,
    }
}

/// Inserting `s` at the cursor's byte offset; the cursor moves past its
/// bytes.
pub open spec fn insert_view(v: EditView, s: Seq<char>) -> EditView {
    let ci = v.position.char_index as int;
    let t = byte_slice(v.text, 0, ci) + s + byte_slice(v.text, ci, utf8_len(v.text) as int);
    EditView { text: t, position: pos_of(t, ci + utf8_len(s)), ..v }
}

/// Typing (or pasting) `s`: the selection is replaced by it.
pub open spec fn type_view(v: EditView, s: Seq<char>) -> EditView {
    insert_view(delete_selection_view(v), s)
}

/// Where typing is defined: the selection can be cut, and the cursor then
/// starts a character.
pub open spec fn type_allowed(v: EditView) -> bool {
    &&& selection_cut_ok(v)
    &&& is_boundary(
        delete_selection_view(v).text,
        delete_selection_view(v).position.char_index as int,
    )
}

/// Backspace: deletes the selection, or else the character that starts
/// one byte before the cursor (the cursor goes back by one byte).
pub open spec fn backspace_view(v: EditView) -> EditView {
    if v.selection is Some {
        delete_selection_view(v)
    } else if v.position.char_index > 0 {
        let ci = v.position.char_index - 1;
        let t = v.text.remove(char_pos(v.text, ci));
        EditView { text: t, position: pos_of(t, ci), ..v }
    } else {
        v
    }
}

/// Where Backspace is defined: the selection can be cut, or the byte
/// before the cursor starts a character.
pub open spec fn backspace_allowed(v: EditView) -> bool {
    if v.selection is Some {
        selection_cut_ok(v)
    } else {
        v.position.char_index > 0 ==> is_boundary(v.text, v.position.char_index - 1)
    }
}

/// Delete: deletes the selection, or else the character at the cursor
/// (the cursor stays).
pub open spec fn delete_view(v: EditView) -> EditView {
    if v.selection is Some {
        delete_selection_view(v)
    } else if v.position.char_index < utf8_len(v.text) {
        EditView { text: v.text.remove(char_pos(v.text, v.position.char_index as int)), ..v }
    } else {
        v
    }
}

/// Where Delete is defined: the selection can be cut, or the cursor
/// starts a character.
pub open spec fn delete_allowed(v: EditView) -> bool {
    if v.selection is Some {
        selection_cut_ok(v)
    } else {
        v.position.char_index < utf8_len(v.text) ==> is_boundary(
            v.text,
            v.position.char_index as int,
        )
    }
}

/// The selection after moving the cursor to `p` with Shift: it follows
/// the drag start when there is one.
pub open spec fn extend_selection(v: EditView, p: CursorPosition) -> Option<TextSelection> {
    match v.drag_start {
        Some(d) => Some(TextSelection { start: d, end: p }),
        None => v.selection,
    }
}

/// A selection starts (or ends) before an arrow moves the cursor: Shift
/// without a selection starts one at the cursor, no Shift ends it.
pub open spec fn arrow_prepare(v: EditView, shift: bool) -> EditView {
    if shift && v.selection is None {
        EditView {
            drag_start: Some(v.position),
            selection: Some(TextSelection { start: v.position, end: v.position }),
            ..v
        }
    } else if !shift {
        EditView { selection: None, ..v }
    } else {
        v
    }
}

/// Moving the cursor to `ci`, extending the selection with Shift.
pub open spec fn move_to(v: EditView, ci: int, shift: bool) -> EditView {
    let p = pos_of(v.text, ci);
    EditView {
        position: p,
        selection: if shift {
            extend_selection(v, p)
        } else {
            v.selection
        },
        ..v
    }
}

/// Arrow left: one byte back, if there is one.
pub open spec fn arrow_left_view(v: EditView, shift: bool) -> EditView {
    let v1 = arrow_prepare(v, shift);
    if v1.position.char_index > 0 {
        move_to(v1, v1.position.char_index - 1, shift)
    } else {
        v1
    }
}

/// Arrow right: one byte forward, if there is one.
pub open spec fn arrow_right_view(v: EditView, shift: bool) -> EditView {
    let v1 = arrow_prepare(v, shift);
    if v1.position.char_index < utf8_len(v1.text) {
        move_to(v1, v1.position.char_index + 1, shift)
    } else {
        v1
    }
}

/// Ctrl+A: selects everything and puts the cursor at the end.
pub open spec fn select_all_view(v: EditView) -> EditView {
    let z = CursorPosition { line: 0, column: 0, char_index: 0 };
    let p = pos_of(v.text, utf8_len(v.text) as int);
    EditView {
        drag_start: Some(z),
        selection: Some(TextSelection { start: z, end: p }),
        position: p,
        ..v
    }
}

/// The result of `char::is_alphanumeric` on `c`.
pub uninterp spec fn char_is_alphanumeric(c: char) -> bool;

/// `char::is_alphanumeric`: whether `c` is alphabetic or numeric in the
/// Unicode sense.  The contract only names the result (Unicode tables are
/// not restated here).
#[verifier::external_body]
fn is_alphanumeric(c: char) -> (b: bool)
    ensures
        b == char_is_alphanumeric(c),
{
    c.is_alphanumeric()
}

/// Moving back from `i` over alphanumeric characters.
pub open spec fn word_start(t: Seq<char>, i: int) -> int
    decreases i,
{
    if i <= 0 || i > t.len() {
        i
    } else if char_is_alphanumeric(t[i - 1]) {
        word_start(t, i - 1)
    } else {
        i
    }
}

/// Moving forward from `i` over alphanumeric characters.
pub open spec fn word_end(t: Seq<char>, i: int) -> int
    decreases t.len() - i,
{
    if i < 0 || i >= t.len() {
        i
    } else if char_is_alphanumeric(t[i]) {
        word_end(t, i + 1)
    } else {
        i
    }
}

/// Selecting the word around position `p`: the run of alphanumeric
/// characters around it becomes the selection, with the cursor at its end;
/// nothing happens past the text or without such a run.
pub open spec fn select_word_view(v: EditView, p: int) -> EditView {
    let t = v.text;
    if t.len() == 0 || p >= t.len() {
        v
    } else {
        let s = word_start(t, p);
        let e = word_end(t, p);
        if s != e {
            EditView {
                selection: Some(TextSelection { start: pos_of(t, s), end: pos_of(t, e) }),
                position: pos_of(t, e),
                ..v
            }
        } else {
            v
        }
    }
}

/// A press at character `p`: a double press selects the word there, a
/// single one moves the cursor there and ends the selection.
pub open spec fn press_view(v: EditView, p: int, double_click: bool) -> EditView {
    if double_click {
        select_word_view(v, p)
    } else {
        EditView { position: pos_of(v.text, p), selection: None, ..v }
    }
}

/// Dragging to character `p`: a selection starts at the cursor when there
/// is none, and follows the cursor to `p`.
pub open spec fn drag_view(v: EditView, p: int) -> EditView {
    let v1 = if v.selection is None {
        EditView {
            drag_start: Some(v.position),
            selection: Some(TextSelection { start: v.position, end: v.position }),
            ..v
        }
    } else {
        v
    };
    move_to(v1, p, true)
}

/// The snapshot of an entry as a view (the drag start does not change).
pub open spec fn restore_view(v: EditView, e: HistoryEntry) -> EditView {
    EditView { text: e.text@, position: e.cursor, selection: e.selection, ..v }
}

/// The cursor of every snapshot lies within the bytes of its text.
pub open spec fn entries_ok(entries: Seq<HistoryEntry>) -> bool {
    forall|i: int| 0 <= i < entries.len() ==> (#[trigger] entries[i]).cursor.char_index
        <= utf8_len(entries[i].text@)
}


/// Keys the rich text input reacts to.
#[derive(Debug, Clone, Copy, PartialEq, Eq, Structural)]
pub enum InputKey {
    ArrowLeft,
    ArrowRight,
    ReturnKey,
    Backspace,
    Delete,
    KeyC,
    KeyX,
    KeyV,
    KeyZ,
    KeyY,
    KeyA,
    Other,
}

/// A key whose action repeats while it is held.
#[derive(Debug, Clone, Copy, PartialEq, Eq, Structural)]
pub enum RepeatKey {
    Backspace,
    Delete,
}

/// What the view does after a key: text for the system clipboard, a key
/// to repeat, and whether to redraw.
#[derive(Debug)]
pub struct KeyOutcome {
    pub clipboard: Option<String>,
    pub repeat: Option<RepeatKey>,
    pub redraw: bool,
}

/// Where a key press is defined: Enter, and Ctrl+V with a clipboard, type
/// (see `type_allowed`); Backspace and Delete delete (see
/// `backspace_allowed`, `delete_allowed`); Ctrl+X with a selection cuts
/// it (see `selection_cut_ok`).
pub open spec fn key_allowed(e: &RichTextEditor, key: InputKey, control: bool) -> bool {
    let v = e.edit_view();
    match key {
        InputKey::ReturnKey => type_allowed(v),
        InputKey::Backspace => backspace_allowed(v),
        InputKey::Delete => delete_allowed(v),
        InputKey::KeyX => control && v.selection is Some ==> selection_cut_ok(v),
        InputKey::KeyV => control && e.clipboard_content is Some ==> type_allowed(v),
        _ => true,
    }
}

impl RichTextEditor {
    /// The editing state abstractly.
    pub open spec fn edit_view(&self) -> EditView {
        EditView {
            text: self.text@,
            position: self.cursor.position,
            selection: self.cursor.selection,
            drag_start: self.cursor.drag_start,
        }
    }

    /// The cursor lies within the text's bytes, and so do those of the
    /// snapshots; the history is well formed.
    pub open spec fn wf(&self) -> bool {
        &&& self.cursor.position.char_index <= utf8_len(self.text@)
        &&& self.history.wf()
        &&& entries_ok(self.history@.entries)
    }

    /// The snapshot of the current state.
    pub open spec fn snapshot(&self) -> HistoryEntry {
        HistoryEntry {
            text: self.text,
            cursor: self.cursor.position,
            selection: self.cursor.selection,
        }
    }

    /// An empty input.
    pub fn new() -> (r: Self)
        ensures
            r.wf(),
            r.text@.len() == 0,
            r.cursor.position == (CursorPosition { line: 0, column: 0, char_index: 0 }),
            r.cursor.selection is None,
            r.cursor.drag_start is None,
            r.history@.entries.len() == 0,
            r.history@.position == 0,
            r.history@.capacity == 50,
            r.clipboard_content is None,
            !r.is_focused,
            !r.is_dragging,
    {
        RichTextEditor {
            text: String::new(),
            is_focused: false,
            is_dragging: false,
            clipboard_content: None,
            cursor: CursorManager::default(),
            history: HistoryManager::default(),
        }
    }

    /// The text.
    pub fn text(&self) -> (r: &str)
        ensures
            r@ == self.text@,
    {
        self.text.as_str()
    }

    /// Replaces the text; the cursor index is kept within its bytes and the
    /// selection ends.
    pub fn set_text(&mut self, text: String)
        requires
            old(self).wf(),
        ensures
            final(self).wf(),
            final(self).text == text,
            final(self).cursor.position == (CursorPosition {
                char_index: clamp(
                    old(self).cursor.position.char_index as int,
                    utf8_len(text@) as int,
                ) as usize,
                ..old(self).cursor.position
            }),
            final(self).cursor.selection is None,
            final(self).cursor.drag_start == old(self).cursor.drag_start,
            final(self).history@ == old(self).history@,
            final(self).clipboard_content == old(self).clipboard_content,
            final(self).is_dragging == old(self).is_dragging,
            final(self).is_focused == old(self).is_focused,
    {
        let n = str_byte_len(text.as_str());
        self.text = text;
        if self.cursor.position.char_index > n {
            self.cursor.position.char_index = n;
        }
        self.cursor.clear_selection();
    }

    /// The cursor position at index `ci` (see `pos_of`).
    fn position_at(&self, ci: usize) -> (r: CursorPosition)
        ensures
            r == pos_of(self.text@, ci as int),
    {
        let r = self.cursor.char_index_to_position(self.text.as_str(), ci);
        proof {
            lemma_line_col_bound(self.text@.subrange(0, clamp(ci as int, self.text@.len() as int)));
        }
        r
    }

    /// Records the current state in the history.
    fn save_undo_state(&mut self)
        requires
            old(self).wf(),
        ensures
            final(self).wf(),
            final(self).history@ == history_push(old(self).history@, old(self).snapshot()),
            final(self).edit_view() == old(self).edit_view(),
            final(self).text == old(self).text,
            final(self).clipboard_content == old(self).clipboard_content,
            final(self).is_dragging == old(self).is_dragging,
            final(self).is_focused == old(self).is_focused,
    {
        let selection = match &self.cursor.selection {
            Some(s) => Some(s.clone()),
            None => None,
        };
        let entry = HistoryEntry::new(self.text.clone(), self.cursor.position.clone(), selection);
        assert(entry == self.snapshot());
        let ghost before = self.history@;
        self.history.push(entry);
        proof {
            let kept = before.entries.subrange(0, before.position).push(entry);
            assert(entries_ok(kept)) by {
                assert forall|i: int| 0 <= i < kept.len() implies (#[trigger] kept[i]).cursor.char_index
                    <= utf8_len(kept[i].text@) by {
                    if i < kept.len() - 1 {
                        assert(kept[i] == before.entries[i]);
                    }
                }
            }
            let es = self.history@.entries;
            assert forall|i: int| 0 <= i < es.len() implies (#[trigger] es[i]).cursor.char_index
                <= utf8_len(es[i].text@) by {
                if kept.len() > before.capacity {
                    assert(es[i] == kept[i + 1]);
                } else {
                    assert(es[i] == kept[i]);
                }
            }
        }
    }

    /// Deletes the selection (see `delete_selection_view`).
    fn delete_selection(&mut self)
        requires
            old(self).wf(),
            selection_cut_ok(old(self).edit_view()),
        ensures
            final(self).wf(),
            final(self).edit_view() == delete_selection_view(old(self).edit_view()),
            final(self).history@ == old(self).history@,
            final(self).clipboard_content == old(self).clipboard_content,
            final(self).is_dragging == old(self).is_dragging,
            final(self).is_focused == old(self).is_focused,
    {
        match &self.cursor.selection {
            Some(selection) => {
                let (start, end) = selection.get_range();
                if start != end {
                    char_count_bound(self.text.as_str());
                    let chars = chars_of(self.text.as_str());
                    let n = str_byte_len(self.text.as_str());
                    proof {
                        lemma_ends_are_boundaries(chars@);
                        lemma_byte_prefix_len(chars@, end as int);
                        lemma_char_pos_mono(chars@, 0, start as int);
                        lemma_char_pos_mono(chars@, end as int, n as int);
                    }
                    let mut t = String::new();
                    push_byte_slice(&mut t, &chars, 0, start);
                    push_byte_slice(&mut t, &chars, end, n);
                    proof {
                        let a = byte_slice(chars@, 0, start as int);
                        let d = byte_slice(chars@, end as int, n as int);
                        lemma_byte_prefix_len(chars@, start as int);
                        lemma_utf8_len_concat(a, d);
                    }
                    self.text = t;
                    self.cursor.position = self.position_at(start);
                }
                self.cursor.clear_selection();
            },
            None => {},
        }
    }

    /// Inserts `s` at the cursor (see `insert_view`), whose byte offset
    /// starts a character.
    fn insert_at_cursor(&mut self, s: &str)
        requires
            old(self).wf(),
            is_boundary(old(self).text@, old(self).cursor.position.char_index as int),
        ensures
            final(self).wf(),
            final(self).edit_view() == insert_view(old(self).edit_view(), s@),
            final(self).history@ == old(self).history@,
            final(self).clipboard_content == old(self).clipboard_content,
            final(self).is_dragging == old(self).is_dragging,
            final(self).is_focused == old(self).is_focused,
    {
        char_count_bound(self.text.as_str());
        let chars = chars_of(self.text.as_str());
        let n = str_byte_len(self.text.as_str());
        let ci = self.cursor.position.char_index;
        proof {
            lemma_ends_are_boundaries(chars@);
            lemma_char_pos_mono(chars@, 0, ci as int);
            lemma_char_pos_mono(chars@, ci as int, n as int);
        }
        let mut t = String::new();
        push_byte_slice(&mut t, &chars, 0, ci);
        push_str(&mut t, s);
        push_byte_slice(&mut t, &chars, ci, n);
        let m = str_byte_len(t.as_str());
        let k = str_byte_len(s);
        proof {
            let a = byte_slice(chars@, 0, ci as int);
            let d = byte_slice(chars@, ci as int, n as int);
            lemma_byte_prefix_len(chars@, ci as int);
            lemma_utf8_len_concat(a + s@, d);
            lemma_utf8_len_concat(a, s@);
            assert(t@ =~= a + s@ + d);
        }
        self.text = t;
        self.cursor.position = self.position_at(ci + k);
    }

    /// Types `text` at the cursor: a snapshot is recorded, the selection is
    /// replaced (see `type_view`).
    pub fn insert_text_at_cursor(&mut self, text: &str)
        requires
            old(self).wf(),
            type_allowed(old(self).edit_view()),
        ensures
            final(self).wf(),
            final(self).edit_view() == type_view(old(self).edit_view(), text@),
            final(self).history@ == history_push(old(self).history@, old(self).snapshot()),
            final(self).clipboard_content == old(self).clipboard_content,
            final(self).is_dragging == old(self).is_dragging,
            final(self).is_focused == old(self).is_focused,
    {
        self.save_undo_state();
        self.delete_selection();
        self.insert_at_cursor(text);
    }

    /// Typed text (the same as `insert_text_at_cursor`).
    pub fn handle_text_input(&mut self, input: &str)
        requires
            old(self).wf(),
            type_allowed(old(self).edit_view()),
        ensures
            final(self).wf(),
            final(self).edit_view() == type_view(old(self).edit_view(), input@),
            final(self).history@ == history_push(old(self).history@, old(self).snapshot()),
            final(self).clipboard_content == old(self).clipboard_content,
            final(self).is_dragging == old(self).is_dragging,
            final(self).is_focused == old(self).is_focused,
    {
        self.insert_text_at_cursor(input);
    }

    /// Pastes `text` (the same as typing it).
    pub fn paste_text(&mut self, text: &str)
        requires
            old(self).wf(),
            type_allowed(old(self).edit_view()),
        ensures
            final(self).wf(),
            final(self).edit_view() == type_view(old(self).edit_view(), text@),
            final(self).history@ == history_push(old(self).history@, old(self).snapshot()),
            final(self).clipboard_content == old(self).clipboard_content,
            final(self).is_dragging == old(self).is_dragging,
            final(self).is_focused == old(self).is_focused,
    {
        self.insert_text_at_cursor(text);
    }

    /// Enter: records a snapshot and types a line break.
    pub fn press_return(&mut self)
        requires
            old(self).wf(),
            type_allowed(old(self).edit_view()),
        ensures
            final(self).wf(),
            final(self).edit_view() == type_view(old(self).edit_view(), seq!['\n']),
            final(self).history@ == history_push(old(self).history@, old(self).snapshot()),
            final(self).clipboard_content == old(self).clipboard_content,
            final(self).is_dragging == old(self).is_dragging,
            final(self).is_focused == old(self).is_focused,
    {
        proof {
            reveal_strlit("\n");
        }
        assert("\n"@ =~= seq!['\n']);
        self.insert_text_at_cursor("\n");
    }

    /// Backspace (see `backspace_view`).
    pub fn perform_backspace(&mut self)
        requires
            old(self).wf(),
            backspace_allowed(old(self).edit_view()),
        ensures
            final(self).wf(),
            final(self).edit_view() == backspace_view(old(self).edit_view()),
            final(self).history@ == old(self).history@,
            final(self).clipboard_content == old(self).clipboard_content,
            final(self).is_dragging == old(self).is_dragging,
            final(self).is_focused == old(self).is_focused,
    {
        if self.cursor.selection.is_some() {
            self.delete_selection();
        } else if self.cursor.position.char_index > 0 {
            char_count_bound(self.text.as_str());
            let chars = chars_of(self.text.as_str());
            let ci = self.cursor.position.char_index - 1;
            let n = chars.len();
            let _len = str_byte_len(self.text.as_str());
            proof {
                lemma_remove_keeps_prefix(chars@, ci as int);
            }
            match byte_to_char(&chars, ci) {
                Some(k) => {
                    let mut t = String::new();
                    push_chars(&mut t, &chars, 0, k);
                    push_chars(&mut t, &chars, k + 1, n);
                    assert(t@ =~= chars@.remove(k as int));
                    self.text = t;
                    self.cursor.position = self.position_at(ci);
                },
                None => {},
            }
        }
    }

    /// Delete (see `delete_view`).
    pub fn perform_delete(&mut self)
        requires
            old(self).wf(),
            delete_allowed(old(self).edit_view()),
        ensures
            final(self).wf(),
            final(self).edit_view() == delete_view(old(self).edit_view()),
            final(self).history@ == old(self).history@,
            final(self).clipboard_content == old(self).clipboard_content,
            final(self).is_dragging == old(self).is_dragging,
            final(self).is_focused == old(self).is_focused,
    {
        if self.cursor.selection.is_some() {
            self.delete_selection();
        } else {
            char_count_bound(self.text.as_str());
            let chars = chars_of(self.text.as_str());
            let ci = self.cursor.position.char_index;
            let n = chars.len();
            let len = str_byte_len(self.text.as_str());
            if ci < len {
                proof {
                    lemma_remove_keeps_prefix(chars@, ci as int);
                }
                match byte_to_char(&chars, ci) {
                    Some(k) => {
                        let mut t = String::new();
                        push_chars(&mut t, &chars, 0, k);
                        push_chars(&mut t, &chars, k + 1, n);
                        assert(t@ =~= chars@.remove(k as int));
                        self.text = t;
                    },
                    None => {},
                }
            }
        }
    }

    /// Backspace key: records a snapshot, then deletes.
    pub fn press_backspace(&mut self)
        requires
            old(self).wf(),
            backspace_allowed(old(self).edit_view()),
        ensures
            final(self).wf(),
            final(self).edit_view() == backspace_view(old(self).edit_view()),
            final(self).history@ == history_push(old(self).history@, old(self).snapshot()),
            final(self).clipboard_content == old(self).clipboard_content,
            final(self).is_dragging == old(self).is_dragging,
            final(self).is_focused == old(self).is_focused,
    {
        self.save_undo_state();
        self.perform_backspace();
    }

    /// Delete key: records a snapshot, then deletes.
    pub fn press_delete(&mut self)
        requires
            old(self).wf(),
            delete_allowed(old(self).edit_view()),
        ensures
            final(self).wf(),
            final(self).edit_view() == delete_view(old(self).edit_view()),
            final(self).history@ == history_push(old(self).history@, old(self).snapshot()),
            final(self).clipboard_content == old(self).clipboard_content,
            final(self).is_dragging == old(self).is_dragging,
            final(self).is_focused == old(self).is_focused,
    {
        self.save_undo_state();
        self.perform_delete();
    }

    /// Arrow left (see `arrow_left_view`).
    pub fn arrow_left(&mut self, shift: bool)
        requires
            old(self).wf(),
        ensures
            final(self).wf(),
            final(self).edit_view() == arrow_left_view(old(self).edit_view(), shift),
            final(self).history@ == old(self).history@,
            final(self).clipboard_content == old(self).clipboard_content,
            final(self).is_dragging == old(self).is_dragging,
            final(self).is_focused == old(self).is_focused,
    {
        if shift && self.cursor.selection.is_none() {
            let p = self.cursor.position.clone();
            self.cursor.start_selection(p);
        } else if !shift {
            self.cursor.clear_selection();
        }
        if self.cursor.position.char_index > 0 {
            let ci = self.cursor.position.char_index - 1;
            self.cursor.position = self.position_at(ci);
            if shift {
                let p = self.cursor.position.clone();
                self.cursor.update_selection(p);
            }
        }
    }

    /// Arrow right (see `arrow_right_view`).
    pub fn arrow_right(&mut self, shift: bool)
        requires
            old(self).wf(),
        ensures
            final(self).wf(),
            final(self).edit_view() == arrow_right_view(old(self).edit_view(), shift),
            final(self).history@ == old(self).history@,
            final(self).clipboard_content == old(self).clipboard_content,
            final(self).is_dragging == old(self).is_dragging,
            final(self).is_focused == old(self).is_focused,
    {
        if shift && self.cursor.selection.is_none() {
            let p = self.cursor.position.clone();
            self.cursor.start_selection(p);
        } else if !shift {
            self.cursor.clear_selection();
        }
        let n = str_byte_len(self.text.as_str());
        if self.cursor.position.char_index < n {
            let ci = self.cursor.position.char_index + 1;
            self.cursor.position = self.position_at(ci);
            if shift {
                let p = self.cursor.position.clone();
                self.cursor.update_selection(p);
            }
        }
    }

    /// Ctrl+A (see `select_all_view`).
    pub fn select_all(&mut self)
        requires
            old(self).wf(),
        ensures
            final(self).wf(),
            final(self).edit_view() == select_all_view(old(self).edit_view()),
            final(self).history@ == old(self).history@,
            final(self).clipboard_content == old(self).clipboard_content,
            final(self).is_dragging == old(self).is_dragging,
            final(self).is_focused == old(self).is_focused,
    {
        self.cursor.start_selection(CursorPosition { line: 0, column: 0, char_index: 0 });
        let n = str_byte_len(self.text.as_str());
        self.cursor.position = self.position_at(n);
        let p = self.cursor.position.clone();
        self.cursor.update_selection(p);
    }

    /// The selected text (Ctrl+C), if there is a selection.
    pub fn copy_selection(&self) -> (r: Option<String>)
        ensures
            match self.cursor.selection {
                Some(s) => r matches Some(t) && t@ == self.text@.subrange(
                    clamp(sel_lo(s), self.text@.len() as int),
                    clamp(sel_hi(s), self.text@.len() as int),
                ),
                None => r is None,
            },
    {
        self.cursor.get_selected_text(self.text.as_str())
    }

    /// Ctrl+X: returns the selected text and deletes it; nothing happens
    /// without a selection.
    pub fn cut_selection(&mut self) -> (r: Option<String>)
        requires
            old(self).wf(),
            selection_cut_ok(old(self).edit_view()),
        ensures
            final(self).wf(),
            match old(self).cursor.selection {
                Some(s) => r matches Some(t) && t@ == old(self).text@.subrange(
                    clamp(sel_lo(s), old(self).text@.len() as int),
                    clamp(sel_hi(s), old(self).text@.len() as int),
                ) && final(self).edit_view() == delete_selection_view(old(self).edit_view()),
                None => r is None && final(self).edit_view() == old(self).edit_view(),
            },
            final(self).history@ == old(self).history@,
            final(self).clipboard_content == old(self).clipboard_content,
            final(self).is_dragging == old(self).is_dragging,
            final(self).is_focused == old(self).is_focused,
    {
        let r = self.cursor.get_selected_text(self.text.as_str());
        if r.is_some() {
            self.delete_selection();
        }
        r
    }

    /// The copy event: the selected text, which is also kept as the
    /// internal clipboard.
    pub fn text_copy_event(&mut self) -> (r: Option<String>)
        requires
            old(self).wf(),
        ensures
            final(self).wf(),
            match old(self).cursor.selection {
                Some(s) => r matches Some(t) && t@ == old(self).text@.subrange(
                    clamp(sel_lo(s), old(self).text@.len() as int),
                    clamp(sel_hi(s), old(self).text@.len() as int),
                ) && final(self).clipboard_content == r,
                None => r is None && final(self).clipboard_content == old(self).clipboard_content,
            },
            final(self).edit_view() == old(self).edit_view(),
            final(self).history@ == old(self).history@,
            final(self).is_dragging == old(self).is_dragging,
            final(self).is_focused == old(self).is_focused,
    {
        let r = self.cursor.get_selected_text(self.text.as_str());
        match &r {
            Some(t) => {
                self.clipboard_content = Some(t.clone());
            },
            None => {},
        }
        r
    }

    /// The cut event: like the copy event, and the selection is deleted.
    pub fn text_cut_event(&mut self) -> (r: Option<String>)
        requires
            old(self).wf(),
            selection_cut_ok(old(self).edit_view()),
        ensures
            final(self).wf(),
            match old(self).cursor.selection {
                Some(s) => r matches Some(t) && t@ == old(self).text@.subrange(
                    clamp(sel_lo(s), old(self).text@.len() as int),
                    clamp(sel_hi(s), old(self).text@.len() as int),
                ) && final(self).clipboard_content == r && final(self).edit_view()
                    == delete_selection_view(old(self).edit_view()),
                None => r is None && final(self).clipboard_content == old(self).clipboard_content
                    && final(self).edit_view() == old(self).edit_view(),
            },
            final(self).history@ == old(self).history@,
            final(self).is_dragging == old(self).is_dragging,
            final(self).is_focused == old(self).is_focused,
    {
        let r = self.text_copy_event();
        if r.is_some() {
            self.delete_selection();
        }
        r
    }

    /// Ctrl+V: pastes the internal clipboard, if it holds something.
    pub fn paste_clipboard(&mut self)
        requires
            old(self).wf(),
            old(self).clipboard_content is Some ==> type_allowed(old(self).edit_view()),
        ensures
            final(self).wf(),
            match old(self).clipboard_content {
                Some(c) => final(self).edit_view() == type_view(old(self).edit_view(), c@)
                    && final(self).history@ == history_push(old(self).history@, old(self).snapshot()),
                None => final(self).edit_view() == old(self).edit_view() && final(self).history@
                    == old(self).history@,
            },
            final(self).clipboard_content == old(self).clipboard_content,
            final(self).is_dragging == old(self).is_dragging,
            final(self).is_focused == old(self).is_focused,
    {
        match self.clipboard_content.clone() {
            Some(c) => {
                self.paste_text(c.as_str());
            },
            None => {},
        }
    }

    /// Ctrl+Z: goes back to the previous snapshot, if there is one.
    pub fn undo(&mut self)
        requires
            old(self).wf(),
        ensures
            final(self).wf(),
            (final(self).history@, final(self).edit_view()) == match history_undo(old(self).history@).1 {
                Some(e) => (history_undo(old(self).history@).0, restore_view(old(self).edit_view(), e)),
                None => (history_undo(old(self).history@).0, old(self).edit_view()),
            },
            final(self).clipboard_content == old(self).clipboard_content,
            final(self).is_dragging == old(self).is_dragging,
            final(self).is_focused == old(self).is_focused,
    {
        let ghost h0 = self.history@;
        match self.history.undo() {
            Some(entry) => {
                let e = entry.clone();
                proof {
                    assert(h0.entries[h0.position - 1] == e);
                }
                self.text = e.text;
                self.cursor.position = e.cursor;
                self.cursor.selection = e.selection;
            },
            None => {},
        }
    }

    /// Ctrl+Y or Ctrl+Shift+Z: goes forward to the next snapshot, if there
    /// is one.
    pub fn redo(&mut self)
        requires
            old(self).wf(),
        ensures
            final(self).wf(),
            (final(self).history@, final(self).edit_view()) == match history_redo(old(self).history@).1 {
                Some(e) => (history_redo(old(self).history@).0, restore_view(old(self).edit_view(), e)),
                None => (history_redo(old(self).history@).0, old(self).edit_view()),
            },
            final(self).clipboard_content == old(self).clipboard_content,
            final(self).is_dragging == old(self).is_dragging,
            final(self).is_focused == old(self).is_focused,
    {
        let ghost h0 = self.history@;
        match self.history.redo() {
            Some(entry) => {
                let e = entry.clone();
                proof {
                    assert(h0.entries[h0.position] == e);
                }
                self.text = e.text;
                self.cursor.position = e.cursor;
                self.cursor.selection = e.selection;
            },
            None => {},
        }
    }

    /// Selects the word around position `pos` (see `select_word_view`).
    pub fn select_word_at_position(&mut self, pos: usize)
        requires
            old(self).wf(),
        ensures
            final(self).wf(),
            final(self).edit_view() == select_word_view(old(self).edit_view(), pos as int),
            final(self).history@ == old(self).history@,
            final(self).clipboard_content == old(self).clipboard_content,
            final(self).is_dragging == old(self).is_dragging,
            final(self).is_focused == old(self).is_focused,
    {
        let chars = chars_of(self.text.as_str());
        let n = chars.len();
        if n == 0 || pos >= n {
            return ;
        }
        let ghost t = chars@;
        let mut start = pos;
        while start > 0 && is_alphanumeric(chars[start - 1])
            invariant
                t == chars@,
                start <= pos < n == t.len(),
                word_start(t, pos as int) == word_start(t, start as int),
            decreases start,
        {
            start = start - 1;
        }
        let mut end = pos;
        while end < n && is_alphanumeric(chars[end])
            invariant
                t == chars@,
                pos <= end <= n == t.len(),
                word_end(t, pos as int) == word_end(t, end as int),
            decreases n - end,
        {
            end = end + 1;
        }
        proof {
            lemma_utf8_len_ge(t);
        }
        if start != end {
            let start_pos = self.position_at(start);
            let end_pos = self.position_at(end);
            self.cursor.selection = Some(TextSelection::new(start_pos, end_pos.clone()));
            self.cursor.position = end_pos;
        }
    }

    /// A press at index `pos` (at most the text's byte length): a double
    /// press selects the word around character `pos`; a single one moves
    /// the cursor there, ends the selection and starts dragging.
    pub fn mouse_down(&mut self, pos: usize, double_click: bool)
        requires
            old(self).wf(),
            pos <= utf8_len(old(self).text@),
        ensures
            final(self).wf(),
            final(self).is_focused,
            final(self).edit_view() == press_view(old(self).edit_view(), pos as int, double_click),
            final(self).is_dragging == (old(self).is_dragging || !double_click),
            final(self).history@ == old(self).history@,
            final(self).clipboard_content == old(self).clipboard_content,
    {
        self.is_focused = true;
        if double_click {
            self.select_word_at_position(pos);
        } else {
            self.cursor.position = self.position_at(pos);
            self.cursor.clear_selection();
            self.is_dragging = true;
        }
    }

    /// The pointer moved to index `pos` (at most the text's byte length)
    /// while dragging (see `drag_view`); without dragging nothing happens.
    pub fn mouse_drag(&mut self, pos: usize)
        requires
            old(self).wf(),
            pos <= utf8_len(old(self).text@),
        ensures
            final(self).wf(),
            final(self).edit_view() == if old(self).is_dragging {
                drag_view(old(self).edit_view(), pos as int)
            } else {
                old(self).edit_view()
            },
            final(self).history@ == old(self).history@,
            final(self).clipboard_content == old(self).clipboard_content,
            final(self).is_dragging == old(self).is_dragging,
            final(self).is_focused == old(self).is_focused,
    {
        if !self.is_dragging {
            return ;
        }
        if self.cursor.selection.is_none() {
            let p = self.cursor.position.clone();
            self.cursor.start_selection(p);
        }
        self.cursor.position = self.position_at(pos);
        let p = self.cursor.position.clone();
        self.cursor.update_selection(p);
    }

    /// A key press: arrows move (Shift extends the selection), Enter types
    /// a line break, Backspace and Delete delete and repeat, Ctrl+C copies,
    /// Ctrl+X cuts, Ctrl+V pastes the internal clipboard, Ctrl+Z undoes,
    /// Ctrl+Shift+Z and Ctrl+Y redo, Ctrl+A selects all; edits record a
    /// snapshot first.
    pub fn handle_key_down(&mut self, key: InputKey, shift: bool, control: bool) -> (r: KeyOutcome)
        requires
            old(self).wf(),
            key_allowed(old(self), key, control),
        ensures
            final(self).wf(),
            final(self).is_dragging == old(self).is_dragging,
            final(self).is_focused == old(self).is_focused,
            final(self).clipboard_content == old(self).clipboard_content,
            ({
                let v = old(self).edit_view();
                let h = old(self).history@;
                let pushed = history_push(h, old(self).snapshot());
                let sel = old(self).cursor.selection;
                let sel_text = match sel {
                    Some(s) => Some(old(self).text@.subrange(
                        clamp(sel_lo(s), old(self).text@.len() as int),
                        clamp(sel_hi(s), old(self).text@.len() as int),
                    )),
                    None => None,
                };
                let clip = match r.clipboard {
                    Some(c) => Some(c@),
                    None => None,
                };
                match key {
                    InputKey::ArrowLeft => final(self).edit_view() == arrow_left_view(v, shift)
                        && final(self).history@ == h && clip is None && r.repeat is None && r.redraw,
                    InputKey::ArrowRight => final(self).edit_view() == arrow_right_view(v, shift)
                        && final(self).history@ == h && clip is None && r.repeat is None && r.redraw,
                    InputKey::ReturnKey => final(self).edit_view() == type_view(v, seq!['\n'])
                        && final(self).history@ == pushed && clip is None && r.repeat is None
                        && r.redraw,
                    InputKey::Backspace => final(self).edit_view() == backspace_view(v)
                        && final(self).history@ == pushed && clip is None && r.repeat == Some(
                        RepeatKey::Backspace,
                    ) && r.redraw,
                    InputKey::Delete => final(self).edit_view() == delete_view(v)
                        && final(self).history@ == pushed && clip is None && r.repeat == Some(
                        RepeatKey::Delete,
                    ) && r.redraw,
                    InputKey::KeyC => if control {
                        final(self).edit_view() == v && final(self).history@ == h && clip
                            == sel_text && r.repeat is None && !r.redraw
                    } else {
                        final(self).edit_view() == v && final(self).history@ == h && clip is None
                            && r.repeat is None && !r.redraw
                    },
                    InputKey::KeyX => if control && sel is Some {
                        final(self).edit_view() == delete_selection_view(v) && final(self).history@
                            == h && clip == sel_text && r.repeat is None && r.redraw
                    } else {
                        final(self).edit_view() == v && final(self).history@ == h && clip is None
                            && r.repeat is None && !r.redraw
                    },
                    InputKey::KeyV => if control && old(self).clipboard_content is Some {
                        final(self).edit_view() == type_view(v, old(self).clipboard_content->0@)
                            && final(self).history@ == pushed && clip is None && r.repeat is None
                            && r.redraw
                    } else {
                        final(self).edit_view() == v && final(self).history@ == h && clip is None
                            && r.repeat is None && !r.redraw
                    },
                    InputKey::KeyZ => if control && !shift {
                        (final(self).history@, final(self).edit_view()) == match history_undo(h).1 {
                            Some(e) => (history_undo(h).0, restore_view(v, e)),
                            None => (history_undo(h).0, v),
                        } && clip is None && r.repeat is None && r.redraw
                    } else if control {
                        (final(self).history@, final(self).edit_view()) == match history_redo(h).1 {
                            Some(e) => (history_redo(h).0, restore_view(v, e)),
                            None => (history_redo(h).0, v),
                        } && clip is None && r.repeat is None && r.redraw
                    } else {
                        final(self).edit_view() == v && final(self).history@ == h && clip is None
                            && r.repeat is None && !r.redraw
                    },
                    InputKey::KeyY => if control {
                        (final(self).history@, final(self).edit_view()) == match history_redo(h).1 {
                            Some(e) => (history_redo(h).0, restore_view(v, e)),
                            None => (history_redo(h).0, v),
                        } && clip is None && r.repeat is None && r.redraw
                    } else {
                        final(self).edit_view() == v && final(self).history@ == h && clip is None
                            && r.repeat is None && !r.redraw
                    },
                    InputKey::KeyA => if control {
                        final(self).edit_view() == select_all_view(v) && final(self).history@ == h
                            && clip is None && r.repeat is None && r.redraw
                    } else {
                        final(self).edit_view() == v && final(self).history@ == h && clip is None
                            && r.repeat is None && !r.redraw
                    },
                    InputKey::Other => final(self).edit_view() == v && final(self).history@ == h
                        && clip is None && r.repeat is None && !r.redraw,
                }
            }),
    {
        let nothing = KeyOutcome { clipboard: None, repeat: None, redraw: false };
        match key {
            InputKey::ArrowLeft => {
                self.arrow_left(shift);
                KeyOutcome { clipboard: None, repeat: None, redraw: true }
            },
            InputKey::ArrowRight => {
                self.arrow_right(shift);
                KeyOutcome { clipboard: None, repeat: None, redraw: true }
            },
            InputKey::ReturnKey => {
                self.press_return();
                KeyOutcome { clipboard: None, repeat: None, redraw: true }
            },
            InputKey::Backspace => {
                self.press_backspace();
                KeyOutcome { clipboard: None, repeat: Some(RepeatKey::Backspace), redraw: true }
            },
            InputKey::Delete => {
                self.press_delete();
                KeyOutcome { clipboard: None, repeat: Some(RepeatKey::Delete), redraw: true }
            },
            InputKey::KeyC => {
                if control {
                    KeyOutcome { clipboard: self.copy_selection(), repeat: None, redraw: false }
                } else {
                    nothing
                }
            },
            InputKey::KeyX => {
                if control && self.cursor.selection.is_some() {
                    let t = self.cut_selection();
                    KeyOutcome { clipboard: t, repeat: None, redraw: true }
                } else {
                    nothing
                }
            },
            InputKey::KeyV => {
                if control && self.clipboard_content.is_some() {
                    self.paste_clipboard();
                    KeyOutcome { clipboard: None, repeat: None, redraw: true }
                } else {
                    nothing
                }
            },
            InputKey::KeyZ => {
                if control && !shift {
                    self.undo();
                    KeyOutcome { clipboard: None, repeat: None, redraw: true }
                } else if control {
                    self.redo();
                    KeyOutcome { clipboard: None, repeat: None, redraw: true }
                } else {
                    nothing
                }
            },
            InputKey::KeyY => {
                if control {
                    self.redo();
                    KeyOutcome { clipboard: None, repeat: None, redraw: true }
                } else {
                    nothing
                }
            },
            InputKey::KeyA => {
                if control {
                    self.select_all();
                    KeyOutcome { clipboard: None, repeat: None, redraw: true }
                } else {
                    nothing
                }
            },
            InputKey::Other => nothing,
        }
    }

}

impl Default for RichTextEditor {
    fn default() -> (r: Self)
        ensures
            r.wf(),
            r.text@.len() == 0,
            r.cursor.selection is None,
            r.history@.entries.len() == 0,
    {
        Self::new()
    }
}

/// Undoing right after an edit gives back the text, cursor and selection
/// from before the edit: the snapshot recorded by the edit comes back.
pub proof fn law_undo_after_edit_restores(
    h: crate::rich_text_editor::history::HistoryView,
    before: HistoryEntry,
    after: EditView,
)
    requires
        crate::rich_text_editor::history::history_wf(h),
    ensures
        ({
            let (h2, e) = history_undo(history_push(h, before));
            &&& e == Some(before)
            &&& restore_view(after, e->0).text == before.text@
            &&& restore_view(after, e->0).position == before.cursor
            &&& restore_view(after, e->0).selection == before.selection
        }),
{
}

/// Typing a one-byte character and deleting it with Backspace, without a
/// selection and with the cursor at the start of a character, gives back
/// the text; the cursor is back at its index.
pub proof fn law_backspace_undoes_typing(v: EditView, c: char)
    requires
        v.selection is None,
        char_utf8_len(c) == 1,
        is_boundary(v.text, v.position.char_index as int),
        v.position.char_index < usize::MAX,
    ensures
        backspace_view(type_view(v, seq![c])).text == v.text,
        backspace_view(type_view(v, seq![c])).position == pos_of(
            v.text,
            v.position.char_index as int,
        ),
{
    let ci = v.position.char_index as int;
    let n = utf8_len(v.text) as int;
    lemma_ends_are_boundaries(v.text);
    lemma_char_pos_mono(v.text, 0, ci);
    lemma_char_pos_mono(v.text, ci, n);
    let a = byte_slice(v.text, 0, ci);
    let d = byte_slice(v.text, ci, n);
    lemma_byte_prefix_len(v.text, ci);
    let t1 = a + seq![c] + d;
    let v1 = type_view(v, seq![c]);
    assert(delete_selection_view(v) == v);
    assert(utf8_len(seq![c]) == 1) by {
        assert(seq![c].drop_last() =~= Seq::<char>::empty());
        assert(seq![c].last() == c);
        assert(utf8_len(Seq::<char>::empty()) == 0);
    }
    assert(v1.text == t1);
    assert(v1.position.char_index == ci + 1);
    assert(v1.selection is None);
    let k = a.len() as int;
    assert((a + seq![c]).subrange(0, k + 1) =~= a + seq![c]);
    assert(t1.subrange(0, k + 1) =~= a + seq![c]);
    lemma_utf8_len_concat(a, seq![c]);
    crate::text::lemma_char_pos(t1, k + 1);
    assert(utf8_len(t1.subrange(0, k)) == ci) by {
        assert(t1.subrange(0, k) =~= a);
    }
    crate::text::lemma_char_pos(t1, k);
    assert(char_pos(t1, ci) == k);
    assert(t1.remove(k) =~= a + d);
    assert(a + d =~= v.text) by {
        assert(v.text.subrange(0, char_pos(v.text, ci)) + v.text.subrange(char_pos(v.text, ci), v.text.len() as int) =~= v.text);
    }
}

/// Selecting everything and copying gives the whole text.
pub proof fn law_select_all_copies_everything(v: EditView)
    requires
        utf8_len(v.text) <= usize::MAX,
    ensures
        ({
            let s = select_all_view(v).selection->0;
            v.text.subrange(clamp(sel_lo(s), v.text.len() as int), clamp(sel_hi(s), v.text.len() as int))
                == v.text
        }),
{
    lemma_utf8_len_ge(v.text);
    assert(v.text.subrange(0, v.text.len() as int) =~= v.text);
}

} // verus!
