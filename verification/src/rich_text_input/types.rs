//! Cursor positions, selections and history snapshots of a text input.
use vstd::prelude::*;

verus! {

/// A cursor: its line and column, and its index into the text (the editor
/// uses it as a byte offset; the line and column count characters).
#[derive(Debug)]
pub struct CursorPosition {
    pub line: usize,
    pub column: usize,
    pub char_index: usize,
}

impl Clone for CursorPosition {
    fn clone(&self) -> (r: Self)
        ensures
            r == *self,
    {
        CursorPosition { line: self.line, column: self.column, char_index: self.char_index }
    }
}

impl Default for CursorPosition {
    fn default() -> (r: Self)
        ensures
            r.line == 0 && r.column == 0 && r.char_index == 0,
    {
        CursorPosition { line: 0, column: 0, char_index: 0 }
    }
}

/// A selection between two cursor positions, in either order.
#[derive(Debug)]
pub struct TextSelection {
    pub start: CursorPosition,
    pub end: CursorPosition,
}

impl Clone for TextSelection {
    fn clone(&self) -> (r: Self)
        ensures
            r == *self,
    {
        TextSelection { start: self.start.clone(), end: self.end.clone() }
    }
}

/// Lower end of the character range a selection covers.
pub open spec fn sel_lo(s: TextSelection) -> int {
    if s.start.char_index <= s.end.char_index {
        s.start.char_index as int
    } else {
        s.end.char_index as int
    }
}

/// Upper end of the character range a selection covers.
pub open spec fn sel_hi(s: TextSelection) -> int {
    if s.start.char_index <= s.end.char_index {
        s.end.char_index as int
    } else {
        s.start.char_index as int
    }
}

impl TextSelection {
    pub fn new(start: CursorPosition, end: CursorPosition) -> (r: Self)
        ensures
            r.start == start,
            r.end == end,
    {
        TextSelection { start, end }
    }

    /// The selection covers no character.
    pub fn is_empty(&self) -> (b: bool)
        ensures
            b == (self.start.char_index == self.end.char_index),
    {
        self.start.char_index == self.end.char_index
    }

    /// The covered character range, lower end first.
    pub fn get_range(&self) -> (r: (usize, usize))
        ensures
            r.0 == sel_lo(*self),
            r.1 == sel_hi(*self),
    {
        let a = self.start.char_index;
        let b = self.end.char_index;
        if a <= b {
            (a, b)
        } else {
            (b, a)
        }
    }
}

/// A snapshot of a text input: its text, cursor and selection.
#[derive(Debug)]
pub struct HistoryEntry {
    pub text: String,
    pub cursor: CursorPosition,
    pub selection: Option<TextSelection>,
}

impl Clone for HistoryEntry {
    fn clone(&self) -> (r: Self)
        ensures
            r == *self,
    {
        let selection = match &self.selection {
            Some(s) => Some(s.clone()),
            None => None,
        };
        HistoryEntry { text: self.text.clone(), cursor: self.cursor.clone(), selection }
    }
}

impl HistoryEntry {
    pub fn new(text: String, cursor: CursorPosition, selection: Option<TextSelection>) -> (r: Self)
        ensures
            r.text == text,
            r.cursor == cursor,
            r.selection == selection,
    {
        HistoryEntry { text, cursor, selection }
    }
}

} // verus!
