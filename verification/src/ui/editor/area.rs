//! The editing state behind the span-based editor widget: the document,
//! the cursor, the selection anchor and the drag state.
use vstd::prelude::*;

use crate::model::block::{full_text, plain_span, Block, BlockType, BlockView};
use crate::model::document::{
    doc_after_convert, doc_after_format, doc_after_insert, doc_after_remove, doc_after_wrap,
    starting_blocks, Document,
};
use crate::text::{char_count_bound, chars_of};

verus! {

/// The editing state of the span-based editor.
#[derive(Debug)]
pub struct EditorAreaState {
    pub document: Document,
    pub cursor_block: usize,
    pub cursor_char: usize,
    pub selection_anchor: Option<(usize, usize)>,
    pub is_dragging: bool,
}

/// Keys the editor reacts to.
#[derive(Debug, Clone, Copy, PartialEq, Eq, Structural)]
pub enum AreaKey {
    ArrowUp,
    ArrowDown,
    ArrowLeft,
    ArrowRight,
    ReturnKey,
    Backspace,
    Other,
}

/// The state abstractly.
pub struct AreaView {
    pub blocks: Seq<BlockView>,
    pub cursor: (usize, usize),
    pub anchor: Option<(usize, usize)>,
    pub next_id: u64,
}

/// Number of characters of block `i`.
pub open spec fn len_of(v: AreaView, i: int) -> int {
    full_text(v.blocks[i].content).len() as int
}

/// `a` before `b` in document order.
pub open spec fn before(a: (usize, usize), b: (usize, usize)) -> bool {
    a.0 < b.0 || (a.0 == b.0 && a.1 < b.1)
}

/// The selection of an anchor and a cursor, in document order.
pub open spec fn selection_of(anchor: Option<(usize, usize)>, cursor: (usize, usize)) -> Option<
    ((usize, usize), (usize, usize)),
> {
    match anchor {
        Some(a) => if before(a, cursor) {
            Some((a, cursor))
        } else {
            Some((cursor, a))
        },
        None => None,
    }
}

/// The cursor after a press or drag found block `found` and column `col`:
/// the block is kept within the document, the column within that block.
pub open spec fn hit_cursor(v: AreaView, found: usize, col: usize) -> (usize, usize) {
    let n = v.blocks.len() as int;
    let len = if (found as int) < n {
        len_of(v, found as int)
    } else {
        0
    };
    (
        if (found as int) < n - 1 {
            found
        } else {
            (n - 1) as usize
        },
        if (col as int) < len {
            col
        } else {
            len as usize
        },
    )
}

/// Shift starts a selection at the cursor when there is none; an arrow
/// without Shift or a modifier ends it.
pub open spec fn anchor_step(v: AreaView, key: AreaKey, shift: bool, modifier: bool) -> AreaView {
    if shift {
        if v.anchor is None {
            AreaView { anchor: Some(v.cursor), ..v }
        } else {
            v
        }
    } else if !modifier && (key == AreaKey::ArrowUp || key == AreaKey::ArrowDown || key
        == AreaKey::ArrowLeft || key == AreaKey::ArrowRight) {
        AreaView { anchor: None, ..v }
    } else {
        v
    }
}

/// What a key does after the anchor step: arrows move (up and down keep
/// the column within the new block), Enter opens an empty paragraph after
/// the cursor's block, Backspace ends a selection, or removes the character
/// before the cursor, or at a block start moves to the end of the block
/// before.
pub open spec fn key_move(v: AreaView, key: AreaKey) -> AreaView {
    let (cb, cc) = v.cursor;
    let n = v.blocks.len();
    match key {
        AreaKey::ArrowUp => if cb > 0 {
            let l = len_of(v, cb - 1);
            AreaView {
                cursor: ((cb - 1) as usize, if cc < l {
                    cc
                } else {
                    l as usize
                }),
                ..v
            }
        } else {
            v
        },
        AreaKey::ArrowDown => if cb + 1 < n {
            let l = len_of(v, cb + 1);
            AreaView {
                cursor: ((cb + 1) as usize, if cc < l {
                    cc
                } else {
                    l as usize
                }),
                ..v
            }
        } else {
            v
        },
        AreaKey::ArrowLeft => if cc > 0 {
            AreaView { cursor: (cb, (cc - 1) as usize), ..v }
        } else if cb > 0 {
            AreaView { cursor: ((cb - 1) as usize, len_of(v, cb - 1) as usize), ..v }
        } else {
            v
        },
        AreaKey::ArrowRight => if cc < len_of(v, cb as int) {
            AreaView { cursor: (cb, (cc + 1) as usize), ..v }
        } else if cb + 1 < n {
            AreaView { cursor: ((cb + 1) as usize, 0), ..v }
        } else {
            v
        },
        AreaKey::ReturnKey => {
            let nb = BlockView {
                id: v.next_id,
                ty: BlockType::Paragraph,
                content: seq![plain_span(seq![])],
                is_dirty: true,
            };
            AreaView {
                blocks: v.blocks.insert(cb + 1, nb),
                cursor: ((cb + 1) as usize, 0),
                anchor: None,
                next_id: (v.next_id + 1) as u64,
            }
        },
        AreaKey::Backspace => if v.anchor is Some {
            AreaView { anchor: None, ..v }
        } else if cc > 0 {
            let (bl, ok) = doc_after_remove(v.blocks, cb as int, cc - 1);
            AreaView {
                blocks: bl,
                cursor: if ok {
                    (cb, (cc - 1) as usize)
                } else {
                    v.cursor
                },
                ..v
            }
        } else if cb > 0 {
            AreaView { cursor: ((cb - 1) as usize, len_of(v, cb - 1) as usize), ..v }
        } else {
            v
        },
        AreaKey::Other => v,
    }
}

/// What a key does.
pub open spec fn key_effect(v: AreaView, key: AreaKey, shift: bool, modifier: bool) -> AreaView {
    key_move(anchor_step(v, key, shift, modifier), key)
}

/// A typed `*`, `` ` `` or `_`.
pub open spec fn is_wrap_marker(s: Seq<char>) -> bool {
    s == seq!['*'] || s == seq!['`'] || s == seq!['_']
}

/// What typing `input` does: with a selection inside the cursor's block a
/// wrap marker wraps it (the selection moves right by one); otherwise a
/// selection ends, the input is inserted at the cursor, a block prefix is
/// converted and, after a space, inline formatting is applied.
pub open spec fn input_effect(v: AreaView, input: Seq<char>) -> AreaView {
    if input.len() == 0 {
        v
    } else {
        let (cb, cc) = v.cursor;
        let wraps = match selection_of(v.anchor, v.cursor) {
            Some((s, e)) => s.0 == e.0 && s.0 == cb && is_wrap_marker(input),
            None => false,
        };
        if wraps {
            let (s, e) = selection_of(v.anchor, v.cursor)->0;
            AreaView {
                blocks: doc_after_wrap(v.blocks, s.0 as int, s.1 as int, e.1 as int, input),
                anchor: Some((s.0, (s.1 + 1) as usize)),
                cursor: (cb, (e.1 + 1) as usize),
                ..v
            }
        } else {
            let i = cb as int;
            let b1 = doc_after_insert(v.blocks, i, cc as int, input);
            let c1 = cc + input.len();
            let (b2, r) = doc_after_convert(b1, i);
            let c2 = match r {
                Some(k) => if c1 >= k {
                    c1 - k
                } else {
                    0
                },
                None => c1,
            };
            let (b3, f) = if input == seq![' '] {
                doc_after_format(b2, i)
            } else {
                (b2, false)
            };
            AreaView {
                blocks: b3,
                cursor: (cb, (if f {
                    full_text(b3[i].content).len() as int
                } else {
                    c2
                }) as usize),
                anchor: None,
                ..v
            }
        }
    }
}

impl EditorAreaState {
    /// The state abstractly.
    pub open spec fn view(&self) -> AreaView {
        AreaView {
            blocks: self.document.blocks_view(),
            cursor: (self.cursor_block, self.cursor_char),
            anchor: self.selection_anchor,
            next_id: self.document.next_id_value(),
        }
    }

    /// The state is usable: the document has a block and the cursor and the
    /// anchor are in existing blocks.
    pub open spec fn wf(&self) -> bool {
        let n = self.document.blocks_view().len();
        &&& n > 0
        &&& self.cursor_block < n
        &&& self.selection_anchor matches Some(a) ==> a.0 < n
    }

    /// The starting document with the cursor at its start.
    pub fn new() -> (r: Self)
        ensures
            r.wf(),
            r.cursor_block == 0,
            r.cursor_char == 0,
            r.selection_anchor is None,
            !r.is_dragging,
            r.document.blocks_view() == starting_blocks(),
            r.document.next_id_value() == 5,
    {
        EditorAreaState {
            document: Document::new(),
            cursor_block: 0,
            cursor_char: 0,
            selection_anchor: None,
            is_dragging: false,
        }
    }

    /// The selection in document order (see `selection_of`).
    pub fn get_selection_range(&self) -> (r: Option<((usize, usize), (usize, usize))>)
        ensures
            r == selection_of(self.selection_anchor, (self.cursor_block, self.cursor_char)),
    {
        match self.selection_anchor {
            Some(anchor) => {
                let cursor = (self.cursor_block, self.cursor_char);
                if anchor.0 < cursor.0 || (anchor.0 == cursor.0 && anchor.1 < cursor.1) {
                    Some((anchor, cursor))
                } else {
                    Some((cursor, anchor))
                }
            },
            None => None,
        }
    }

    /// Moves the cursor to what a press or drag found (see `hit_cursor`).
    fn move_to_hit(&mut self, found: usize, col: usize)
        requires
            old(self).wf(),
        ensures
            final(self).wf(),
            final(self).view() == (AreaView {
                cursor: hit_cursor(old(self).view(), found, col),
                ..old(self).view()
            }),
            final(self).document == old(self).document,
            final(self).is_dragging == old(self).is_dragging,
    {
        proof {
            self.document.lemma_view();
        }
        let n = self.document.blocks.len();
        let len = if found < n {
            self.document.block_len(found)
        } else {
            0
        };
        self.cursor_block = if found < n - 1 {
            found
        } else {
            n - 1
        };
        self.cursor_char = if col < len {
            col
        } else {
            len
        };
    }

    /// A press found block `found` and column `col`: dragging starts, the
    /// cursor goes there, and the selection starts there (with Shift, an
    /// existing selection keeps its anchor).
    pub fn finger_down(&mut self, found: usize, col: usize, shift: bool)
        requires
            old(self).wf(),
        ensures
            final(self).wf(),
            final(self).is_dragging,
            final(self).document == old(self).document,
            (final(self).cursor_block, final(self).cursor_char) == hit_cursor(
                old(self).view(),
                found,
                col,
            ),
            final(self).selection_anchor == if shift && old(self).selection_anchor is Some {
                old(self).selection_anchor
            } else {
                Some(hit_cursor(old(self).view(), found, col))
            },
    {
        self.is_dragging = true;
        self.move_to_hit(found, col);
        if shift {
            if self.selection_anchor.is_none() {
                self.selection_anchor = Some((self.cursor_block, self.cursor_char));
            }
        } else {
            self.selection_anchor = Some((self.cursor_block, self.cursor_char));
        }
    }

    /// The pointer moved over block `found`, column `col`: while dragging
    /// the cursor follows.
    pub fn finger_move(&mut self, found: usize, col: usize)
        requires
            old(self).wf(),
        ensures
            final(self).wf(),
            final(self).view() == (if old(self).is_dragging {
                AreaView { cursor: hit_cursor(old(self).view(), found, col), ..old(self).view() }
            } else {
                old(self).view()
            }),
            final(self).is_dragging == old(self).is_dragging,
    {
        if self.is_dragging {
            self.move_to_hit(found, col);
        }
    }

    /// The press ends: dragging stops, and a selection that ends where it
    /// began is dropped.
    pub fn finger_up(&mut self)
        requires
            old(self).wf(),
        ensures
            final(self).wf(),
            !final(self).is_dragging,
            final(self).view() == (AreaView {
                anchor: if old(self).selection_anchor == Some((old(self).cursor_block, old(self).cursor_char)) {
                    None
                } else {
                    old(self).selection_anchor
                },
                ..old(self).view()
            }),
    {
        self.is_dragging = false;
        match self.selection_anchor {
            Some(a) => {
                if a.0 == self.cursor_block && a.1 == self.cursor_char {
                    self.selection_anchor = None;
                }
            },
            None => {},
        }
    }

    /// A key press (see `key_effect`); `modifier` is Ctrl or Logo.
    pub fn key_down(&mut self, key: AreaKey, shift: bool, modifier: bool)
        requires
            old(self).wf(),
            key == AreaKey::ReturnKey ==> old(self).document.next_id_value() < u64::MAX,
        ensures
            final(self).wf(),
            final(self).view() == key_effect(old(self).view(), key, shift, modifier),
            final(self).is_dragging == old(self).is_dragging,
    {
        proof {
            self.document.lemma_view();
        }
        if shift {
            if self.selection_anchor.is_none() {
                self.selection_anchor = Some((self.cursor_block, self.cursor_char));
            }
        } else if !modifier {
            match key {
                AreaKey::ArrowUp | AreaKey::ArrowDown | AreaKey::ArrowLeft | AreaKey::ArrowRight => {
                    self.selection_anchor = None;
                },
                _ => {},
            }
        }
        let n = self.document.blocks.len();
        let cb = self.cursor_block;
        let cc = self.cursor_char;
        match key {
            AreaKey::ArrowUp => {
                if cb > 0 {
                    self.cursor_block = cb - 1;
                    let len = self.document.block_len(cb - 1);
                    if cc >= len {
                        self.cursor_char = len;
                    }
                }
            },
            AreaKey::ArrowDown => {
                if cb < n - 1 {
                    self.cursor_block = cb + 1;
                    let len = self.document.block_len(cb + 1);
                    if cc >= len {
                        self.cursor_char = len;
                    }
                }
            },
            AreaKey::ArrowLeft => {
                if cc > 0 {
                    self.cursor_char = cc - 1;
                } else if cb > 0 {
                    self.cursor_block = cb - 1;
                    self.cursor_char = self.document.block_len(cb - 1);
                }
            },
            AreaKey::ArrowRight => {
                let len = self.document.block_len(cb);
                if cc < len {
                    self.cursor_char = cc + 1;
                } else if cb < n - 1 {
                    self.cursor_block = cb + 1;
                    self.cursor_char = 0;
                }
            },
            AreaKey::ReturnKey => {
                self.selection_anchor = None;
                let id = self.document.generate_id();
                proof {
                    reveal_strlit("");
                }
                let nb = Block::new(id, BlockType::Paragraph, "");
                assert(""@ =~= Seq::<char>::empty());
                self.document.insert_block(cb + 1, nb);
                self.cursor_block = cb + 1;
                self.cursor_char = 0;
            },
            AreaKey::Backspace => {
                if self.selection_anchor.is_some() {
                    self.selection_anchor = None;
                } else if cc > 0 {
                    let _len = self.document.block_len(cb);
                    if self.document.remove_char_at(cb, cc - 1) {
                        self.cursor_char = cc - 1;
                    }
                } else if cb > 0 {
                    self.cursor_block = cb - 1;
                    self.cursor_char = self.document.block_len(cb - 1);
                }
            },
            AreaKey::Other => {},
        }
    }

    /// Typed text (see `input_effect`).
    pub fn text_input(&mut self, input: &str)
        requires
            old(self).wf(),
            old(self).cursor_char + input@.len() <= usize::MAX,
            old(self).selection_anchor matches Some(a) ==> a.1 < usize::MAX,
        ensures
            final(self).wf(),
            final(self).view() == input_effect(old(self).view(), input@),
            final(self).is_dragging == old(self).is_dragging,
    {
        let chars = chars_of(input);
        char_count_bound(input);
        if chars.len() == 0 {
            return ;
        }
        proof {
            self.document.lemma_view();
            reveal_strlit("*");
            reveal_strlit("`");
            reveal_strlit("_");
        }
        let cb = self.cursor_block;
        let marker = chars.len() == 1 && (chars[0] == '*' || chars[0] == '`' || chars[0] == '_');
        assert(marker == is_wrap_marker(input@)) by {
            if chars@.len() == 1 {
                assert(chars@ =~= seq![chars@[0]]);
            }
        }
        match self.get_selection_range() {
            Some((s, e)) => {
                if s.0 == e.0 && s.0 == cb && marker {
                    let _len = self.document.block_len(s.0);
                    self.document.wrap_selection(s.0, s.1, e.1, input);
                    self.selection_anchor = Some((s.0, s.1 + 1));
                    self.cursor_char = e.1 + 1;
                    return ;
                }
                self.selection_anchor = None;
            },
            None => {},
        }
        let _len = self.document.block_len(cb);
        let added = self.document.insert_text_at(cb, self.cursor_char, input);
        self.cursor_char = self.cursor_char + added;
        match self.document.try_convert_block(cb) {
            Some(k) => {
                self.cursor_char = if self.cursor_char >= k {
                    self.cursor_char - k
                } else {
                    0
                };
            },
            None => {},
        }
        if chars.len() == 1 && chars[0] == ' ' {
            assert(input@ =~= seq![' ']);
            if self.document.apply_inline_formatting(cb) {
                proof {
                    self.document.lemma_view();
                }
                self.cursor_char = self.document.block_len(cb);
            }
        } else {
            assert(input@ != seq![' ']);
        }
    }
}

} // verus!
