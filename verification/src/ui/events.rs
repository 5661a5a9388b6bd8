//! Reactions of the block editor to edits and keys: what changes in the
//! editor state, and what the view has to do afterwards.
use vstd::prelude::*;

use crate::block::{Block, BlockType};
use crate::editor_state::{state_after_set_active, EditorState};
use crate::markdown::parser::{
    detect_heading_level, detect_list_item, heading_level, indent_level_of, is_list_item, list_item,
};
use crate::text::{
    chars_of, lemma_utf8_len_prefix, skip_white_space, str_byte_len, trim, trim_chars, utf8_len,
};
use crate::ui::components::indentation::{spaces, IndentationManager};

verus! {

/// Keys that move between blocks or delete one.
#[derive(Debug, Clone, Copy, PartialEq, Eq, Structural)]
pub enum NavigationKey {
    ArrowUp,
    ArrowDown,
    Backspace,
    Other,
}

/// What the handling of one event asks of the view.
#[derive(Debug)]
pub struct EventHandler {
    /// Block to make active.
    pub navigation_target: Option<usize>,
    /// The active block is to be deleted.
    pub should_delete_block: bool,
    /// Blocks whose widgets are to be made again.
    pub blocks_to_recreate: Vec<usize>,
    /// A block to insert: index and text.
    pub should_create_new_block: Option<(usize, String)>,
}

/// The kind a block takes after an edit that changes its heading level or
/// list status: a list block for a list item, else text.
pub open spec fn edited_kind(text: Seq<char>) -> BlockType {
    if list_item(text) is Some {
        BlockType::List
    } else {
        BlockType::Text
    }
}

/// The block after its text changes from `b.content` to `text`: the kind
/// changes (see `edited_kind`) when the heading level or the list status
/// changed.
pub open spec fn block_after_edit(b: Block, text: String) -> Block {
    if heading_level(b.content@) != heading_level(text@) || (list_item(b.content@) is Some) != (
    list_item(text@) is Some) {
        Block { content: text, block_type: edited_kind(text@), ..b }
    } else {
        Block { content: text, ..b }
    }
}

/// Whether an edit from `old` to `new` changes the heading level or the
/// list status.
pub open spec fn kind_changes(old: Seq<char>, new: Seq<char>) -> bool {
    heading_level(old) != heading_level(new) || (list_item(old) is Some) != (list_item(new) is Some)
}

/// The text of the block that Enter creates after a block with text
/// `content`: the next list item's start after a non-empty list item,
/// else nothing.
pub open spec fn text_after_enter(content: Seq<char>, indent: int) -> Seq<char> {
    match list_item(content) {
        Some(item) => if trim(item.2).len() == 0 {
            seq![]
        } else {
            spaces(item.1 * indent) + match item.0 {
                crate::markdown::parser::ListType::Unordered => seq![item.3, ' '],
                crate::markdown::parser::ListType::Ordered => seq!['1', '.', ' '],
            }
        },
        None => seq![],
    }
}

impl EventHandler {
    /// A handler with nothing to do.
    pub fn new() -> (r: Self)
        ensures
            r.navigation_target is None,
            !r.should_delete_block,
            r.blocks_to_recreate@.len() == 0,
            r.should_create_new_block is None,
    {
        EventHandler {
            navigation_target: None,
            should_delete_block: false,
            blocks_to_recreate: Vec::new(),
            should_create_new_block: None,
        }
    }

    /// The text of block `block_id` becomes `text` (see `block_after_edit`);
    /// a block whose kind changes is to be made again.  Nothing happens
    /// when there is no such block.
    pub fn handle_text_changed(
        &mut self,
        block_id: usize,
        text: String,
        editor_state: &mut EditorState,
    )
        ensures
            block_id < old(editor_state)@.0.len() ==> final(editor_state)@ == (
                old(editor_state)@.0.update(
                    block_id as int,
                    block_after_edit(old(editor_state)@.0[block_id as int], text),
                ),
                old(editor_state)@.1,
            ),
            block_id >= old(editor_state)@.0.len() ==> final(editor_state)@ == old(editor_state)@,
            final(self).blocks_to_recreate@ == if block_id < old(editor_state)@.0.len()
                && kind_changes(old(editor_state)@.0[block_id as int].content@, text@) {
                old(self).blocks_to_recreate@.push(block_id)
            } else {
                old(self).blocks_to_recreate@
            },
            final(self).navigation_target == old(self).navigation_target,
            final(self).should_delete_block == old(self).should_delete_block,
            final(self).should_create_new_block == old(self).should_create_new_block,
    {
        let blocks = editor_state.blocks_mut();
        if block_id >= blocks.len() {
            return ;
        }
        let old_level = detect_heading_level(&blocks[block_id].content);
        let new_level = detect_heading_level(&text);
        let was_list = is_list_item(&blocks[block_id].content);
        let is_list = is_list_item(&text);
        let id = blocks[block_id].id;
        let mut block_type = blocks[block_id].block_type;
        let changed = old_level != new_level || was_list != is_list;
        if changed {
            block_type = if detect_list_item(&text).is_some() {
                BlockType::List
            } else {
                BlockType::Text
            };
        }
        blocks.set(block_id, Block { id, block_type, content: text });
        if changed {
            self.blocks_to_recreate.push(block_id);
        }
    }

    /// Block `block_id` got the keyboard focus.  When it is not the active
    /// block it becomes active and both it and the formerly active block
    /// are to be made again, and false is returned; when it is already
    /// active, true is returned: its cursor is to go to the end.
    pub fn handle_key_focus(&mut self, block_id: usize, editor_state: &mut EditorState) -> (r: bool)
        ensures
            r == (block_id == old(editor_state)@.1),
            !r ==> final(editor_state)@ == state_after_set_active(
                old(editor_state)@,
                block_id as int,
            ) && final(self).blocks_to_recreate@ == old(self).blocks_to_recreate@.push(
                old(editor_state)@.1 as usize,
            ).push(block_id),
            r ==> final(editor_state)@ == old(editor_state)@ && final(self).blocks_to_recreate@
                == old(self).blocks_to_recreate@,
            final(self).navigation_target == old(self).navigation_target,
            final(self).should_delete_block == old(self).should_delete_block,
            final(self).should_create_new_block == old(self).should_create_new_block,
    {
        let old_active = editor_state.active_block_index();
        if block_id != old_active {
            editor_state.set_active_block(block_id);
            self.blocks_to_recreate.push(old_active);
            self.blocks_to_recreate.push(block_id);
            false
        } else {
            true
        }
    }

    /// Arrow up moves to the block before, arrow down to the block after
    /// (when there are ones); Backspace in an empty block that is not the
    /// first asks for its deletion and moves to the block before.
    pub fn handle_navigation(&mut self, block_id: usize, key_code: NavigationKey, editor_state: &EditorState)
        requires
            key_code == NavigationKey::ArrowDown ==> editor_state@.0.len() > 0,
        ensures
            final(self).navigation_target == match key_code {
                NavigationKey::ArrowUp => if block_id > 0 {
                    Some((block_id - 1) as usize)
                } else {
                    old(self).navigation_target
                },
                NavigationKey::ArrowDown => if block_id < editor_state@.0.len() - 1 {
                    Some((block_id + 1) as usize)
                } else {
                    old(self).navigation_target
                },
                NavigationKey::Backspace => if block_id > 0 && editor_state@.0.len() > 1 && block_id
                    < editor_state@.0.len() && editor_state@.0[block_id as int].content@.len() == 0 {
                    Some((block_id - 1) as usize)
                } else {
                    old(self).navigation_target
                },
                NavigationKey::Other => old(self).navigation_target,
            },
            final(self).should_delete_block == (old(self).should_delete_block || (key_code
                == NavigationKey::Backspace && block_id > 0 && editor_state@.0.len() > 1 && block_id
                < editor_state@.0.len() && editor_state@.0[block_id as int].content@.len() == 0)),
            final(self).blocks_to_recreate@ == old(self).blocks_to_recreate@,
            final(self).should_create_new_block == old(self).should_create_new_block,
    {
        let n = editor_state.blocks().len();
        match key_code {
            NavigationKey::ArrowUp => {
                if block_id > 0 {
                    self.navigation_target = Some(block_id - 1);
                }
            },
            NavigationKey::ArrowDown => {
                if block_id < n - 1 {
                    self.navigation_target = Some(block_id + 1);
                }
            },
            NavigationKey::Backspace => {
                if block_id > 0 && n > 1 && block_id < n {
                    let block = &editor_state.blocks()[block_id];
                    if block.content.as_str().is_empty() {
                        self.should_delete_block = true;
                        self.navigation_target = Some(block_id - 1);
                    }
                }
            },
            NavigationKey::Other => {},
        }
    }

    /// Enter in block `block_id` asks for a new block right after it, with
    /// the start of the next list item after a non-empty list item and no
    /// text otherwise (see `text_after_enter`).  Nothing happens when there
    /// is no such block.
    pub fn handle_enter_key(&mut self, block_id: usize, editor_state: &EditorState)
        ensures
            block_id < editor_state@.0.len() ==> (final(self).should_create_new_block matches Some(p)
                && p.0 == block_id + 1 && p.1@ == text_after_enter(
                editor_state@.0[block_id as int].content@,
                2,
            )),
            block_id >= editor_state@.0.len() ==> final(self).should_create_new_block == old(self).should_create_new_block,
            final(self).navigation_target == old(self).navigation_target,
            final(self).should_delete_block == old(self).should_delete_block,
            final(self).blocks_to_recreate@ == old(self).blocks_to_recreate@,
    {
        let blocks = editor_state.blocks();
        if block_id >= blocks.len() {
            return ;
        }
        let content = &blocks[block_id].content;
        match detect_list_item(content) {
            Some(list_info) => {
                let item = chars_of(&list_info.content);
                let (a, b) = trim_chars(&item);
                if a == b {
                    self.should_create_new_block = Some((block_id + 1, String::new()));
                    return ;
                }
                let _total = str_byte_len(content);
                proof {
                    let c = content@;
                    crate::text::lemma_skip_white_space_bounds(c, 0);
                    lemma_utf8_len_prefix(c, skip_white_space(c, 0));
                    assert(list_info.indent_level == indent_level_of(c));
                }
                let new_content = IndentationManager::new().continue_list_item(&list_info);
                self.should_create_new_block = Some((block_id + 1, new_content));
            },
            None => {
                self.should_create_new_block = Some((block_id + 1, String::new()));
            },
        }
    }

    /// Tab in a list item indents it by one level (two spaces), Shift+Tab
    /// removes one level; the block is then to be made again and true is returned.
    /// Other blocks stay, and false is returned.
    pub fn handle_tab_key(&mut self, block_id: usize, shift_pressed: bool, editor_state: &mut EditorState) -> (r:
        bool)
        ensures
            r == (block_id < old(editor_state)@.0.len() && list_item(
                old(editor_state)@.0[block_id as int].content@,
            ) is Some),
            r ==> ({
                let b = old(editor_state)@.0[block_id as int];
                let w = 2int;
                let c = b.content@;
                let nc = if shift_pressed {
                    if w <= c.len() && c.subrange(0, w) == spaces(w) {
                        c.subrange(w, c.len() as int)
                    } else {
                        c
                    }
                } else {
                    spaces(w) + c
                };
                &&& final(editor_state)@.1 == old(editor_state)@.1
                &&& final(editor_state)@.0.len() == old(editor_state)@.0.len()
                &&& final(editor_state)@.0[block_id as int].content@ == nc
                &&& final(editor_state)@.0[block_id as int].id == b.id
                &&& final(editor_state)@.0[block_id as int].block_type == b.block_type
                &&& forall|j: int|
                    0 <= j < old(editor_state)@.0.len() && j != block_id
                        ==> (#[trigger] final(editor_state)@.0[j]) == old(editor_state)@.0[j]
            }),
            !r ==> final(editor_state)@ == old(editor_state)@,
            final(self).blocks_to_recreate@ == if r {
                old(self).blocks_to_recreate@.push(block_id)
            } else {
                old(self).blocks_to_recreate@
            },
            final(self).navigation_target == old(self).navigation_target,
            final(self).should_delete_block == old(self).should_delete_block,
            final(self).should_create_new_block == old(self).should_create_new_block,
    {
        let blocks = editor_state.blocks_mut();
        if block_id >= blocks.len() {
            return false;
        }
        if !is_list_item(&blocks[block_id].content) {
            return false;
        }
        let new_content = if shift_pressed {
            IndentationManager::new().decrease_indent(&blocks[block_id].content)
        } else {
            IndentationManager::new().increase_indent(&blocks[block_id].content)
        };
        let id = blocks[block_id].id;
        let block_type = blocks[block_id].block_type;
        blocks.set(block_id, Block { id, block_type, content: new_content });
        self.blocks_to_recreate.push(block_id);
        true
    }
}

impl Default for EventHandler {
    fn default() -> (r: Self)
        ensures
            r.navigation_target is None,
            !r.should_delete_block,
            r.blocks_to_recreate@.len() == 0,
            r.should_create_new_block is None,
    {
        Self::new()
    }
}

} // verus!
