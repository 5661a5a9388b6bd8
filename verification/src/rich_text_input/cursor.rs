//! Cursor and selection bookkeeping of a text input.
use vstd::prelude::*;

use crate::rich_text_input::types::{sel_hi, sel_lo, CursorPosition, TextSelection};
use crate::text::{chars_of, string_of};

verus! {

/// Line and column reached after the characters `p`: lines are separated
/// by `'\n'`, columns count the characters since the last one.
pub open spec fn line_col(p: Seq<char>) -> (int, int)
    decreases p.len(),
{
    if p.len() == 0 {
        (0, 0)
    } else {
        let lc = line_col(p.drop_last());
        if p.last() == '\n' {
            (lc.0 + 1, 0)
        } else {
            (lc.0, lc.1 + 1)
        }
    }
}

/// Line and column are bounded by the number of characters.
pub proof fn lemma_line_col_bound(p: Seq<char>)
    ensures
        0 <= line_col(p).0 <= p.len(),
        0 <= line_col(p).1 <= p.len(),
    decreases p.len(),
{
    if p.len() > 0 {
        lemma_line_col_bound(p.drop_last());
    }
}

/// The first index `k >= i` whose position is (`line`, `column`), or the
/// length of `s` when no index up to it has that position.
pub open spec fn index_of_line_col(s: Seq<char>, line: int, column: int, i: int) -> int
    decreases s.len() - i,
{
    if i >= s.len() || line_col(s.subrange(0, i)) == (line, column) {
        i
    } else {
        index_of_line_col(s, line, column, i + 1)
    }
}

/// Position `a` comes before position `b`: an earlier line, or the same
/// line and an earlier column.
pub open spec fn position_before(a: (int, int), b: (int, int)) -> bool {
    a.0 < b.0 || (a.0 == b.0 && a.1 < b.1)
}

/// A longer prefix of a text ends at a later position.
proof fn lemma_line_col_increasing(t: Seq<char>, j: int, i: int)
    requires
        0 <= j < i <= t.len(),
    ensures
        position_before(line_col(t.subrange(0, j)), line_col(t.subrange(0, i))),
    decreases i - j,
{
    assert(t.subrange(0, i).drop_last() =~= t.subrange(0, i - 1));
    if j < i - 1 {
        lemma_line_col_increasing(t, j, i - 1);
    }
}

/// Searching from `k` for the position that the first `i` characters
/// reach finds `i`.
proof fn lemma_index_of_prefix_position(t: Seq<char>, i: int, k: int)
    requires
        0 <= k <= i <= t.len(),
    ensures
        index_of_line_col(t, line_col(t.subrange(0, i)).0, line_col(t.subrange(0, i)).1, k) == i,
    decreases i - k,
{
    if k < i {
        lemma_line_col_increasing(t, k, i);
        lemma_index_of_prefix_position(t, i, k + 1);
    }
}

/// The character index of the position of character index `i` is `i`:
/// turning an index into a line and column and back gives the index.
pub proof fn law_position_round_trip(t: Seq<char>, i: int)
    requires
        0 <= i <= t.len(),
    ensures
        index_of_line_col(t, line_col(t.subrange(0, i)).0, line_col(t.subrange(0, i)).1, 0) == i,
{
    lemma_index_of_prefix_position(t, i, 0);
}

/// Clamps `k` to `0..=n`.
pub open spec fn clamp(k: int, n: int) -> int {
    if k < 0 {
        0
    } else if k > n {
        n
    } else {
        k
    }
}

/// Cursor position and selection state of a text input.
#[derive(Debug)]
pub struct CursorManager {
    pub position: CursorPosition,
    pub selection: Option<TextSelection>,
    pub drag_start: Option<CursorPosition>,
}

impl Default for CursorManager {
    fn default() -> (r: Self)
        ensures
            r.position.line == 0 && r.position.column == 0 && r.position.char_index == 0,
            r.selection is None,
            r.drag_start is None,
    {
        CursorManager { position: CursorPosition::default(), selection: None, drag_start: None }
    }
}

impl CursorManager {
    /// The position of character index `char_index` in `text`: line and
    /// column after the first `char_index` characters (all of them when the
    /// index lies beyond the end); the index itself is kept.
    pub fn char_index_to_position(&self, text: &str, char_index: usize) -> (r: CursorPosition)
        ensures
            r.char_index == char_index,
            (r.line as int, r.column as int) == line_col(
                text@.subrange(0, clamp(char_index as int, text@.len() as int)),
            ),
    {
        let chars = chars_of(text);
        let mut line: usize = 0;
        let mut column: usize = 0;
        let mut i: usize = 0;
        while i < chars.len() && i < char_index
            invariant
                chars@ == text@,
                i <= chars@.len(),
                i <= char_index,
                (line as int, column as int) == line_col(chars@.subrange(0, i as int)),
            decreases chars@.len() - i,
        {
            proof {
                lemma_line_col_bound(chars@.subrange(0, i as int));
            }
            assert(chars@.subrange(0, i + 1).drop_last() =~= chars@.subrange(0, i as int));
            if chars[i] == '\n' {
                line = line + 1;
                column = 0;
            } else {
                column = column + 1;
            }
            i = i + 1;
        }
        CursorPosition { line, column, char_index }
    }

    /// The first character index of `text` whose position is (`line`,
    /// `column`), or the number of characters when there is none.
    pub fn position_to_char_index(&self, text: &str, line: usize, column: usize) -> (r: usize)
        ensures
            r == index_of_line_col(text@, line as int, column as int, 0),
    {
        let chars = chars_of(text);
        let mut current_line: usize = 0;
        let mut current_column: usize = 0;
        let mut i: usize = 0;
        while i < chars.len()
            invariant
                chars@ == text@,
                i <= chars@.len(),
                (current_line as int, current_column as int) == line_col(
                    chars@.subrange(0, i as int),
                ),
                index_of_line_col(chars@, line as int, column as int, 0) == index_of_line_col(
                    chars@,
                    line as int,
                    column as int,
                    i as int,
                ),
            ensures
                index_of_line_col(chars@, line as int, column as int, 0) == i,
            decreases chars@.len() - i,
        {
            if current_line == line && current_column == column {
                break;
            }
            proof {
                lemma_line_col_bound(chars@.subrange(0, i as int));
            }
            assert(chars@.subrange(0, i + 1).drop_last() =~= chars@.subrange(0, i as int));
            if chars[i] == '\n' {
                current_line = current_line + 1;
                current_column = 0;
            } else {
                current_column = current_column + 1;
            }
            i = i + 1;
        }
        i
    }

    /// The selected characters of `text` (clipped to its end), or `None`
    /// without a selection.
    pub fn get_selected_text(&self, text: &str) -> (r: Option<String>)
        ensures
            match self.selection {
                Some(s) => r matches Some(t) && t@ == text@.subrange(
                    clamp(sel_lo(s), text@.len() as int),
                    clamp(sel_hi(s), text@.len() as int),
                ),
                None => r is None,
            },
    {
        match &self.selection {
            Some(selection) => {
                let (start, end) = selection.get_range();
                let chars = chars_of(text);
                let n = chars.len();
                let a = if start < n {
                    start
                } else {
                    n
                };
                let b = if end < n {
                    end
                } else {
                    n
                };
                Some(string_of(&chars, a, b))
            },
            None => None,
        }
    }

    /// Drops the selection.
    pub fn clear_selection(&mut self)
        ensures
            final(self).selection is None,
            final(self).position == old(self).position,
            final(self).drag_start == old(self).drag_start,
    {
        self.selection = None;
    }

    /// Starts a drag at `start_pos` with an empty selection there.
    pub fn start_selection(&mut self, start_pos: CursorPosition)
        ensures
            final(self).drag_start == Some(start_pos),
            final(self).selection == Some(TextSelection { start: start_pos, end: start_pos }),
            final(self).position == old(self).position,
    {
        self.drag_start = Some(start_pos.clone());
        self.selection = Some(TextSelection::new(start_pos.clone(), start_pos));
    }

    /// Extends the selection of the current drag to `end_pos`; without a
    /// drag nothing changes.
    pub fn update_selection(&mut self, end_pos: CursorPosition)
        ensures
            final(self).drag_start == old(self).drag_start,
            final(self).position == old(self).position,
            match old(self).drag_start {
                Some(d) => final(self).selection == Some(TextSelection { start: d, end: end_pos }),
                None => final(self).selection == old(self).selection,
            },
    {
        if let Some(start) = &self.drag_start {
            self.selection = Some(TextSelection::new(start.clone(), end_pos));
        }
    }

    /// Ends the drag; the selection stays.
    pub fn end_selection(&mut self)
        ensures
            final(self).drag_start is None,
            final(self).selection == old(self).selection,
            final(self).position == old(self).position,
    {
        self.drag_start = None;
    }
}

} // verus!
