//! Decisions of the block editor widget: what a key or the outcome of the
//! event handling does to the list of blocks.
use vstd::prelude::*;

use crate::block::{Block, BlockIdGenerator, BlockType};
use crate::editor_state::{
    state_after_create, state_after_delete, state_after_set_active, EditorState,
};
use crate::markdown::inline::InlineFormat;
use crate::markdown::parser::{is_list_item, list_item};
use crate::text::{chars_of, trim, trim_chars};
use crate::ui::components::inline_formatter::{toggle_allowed, toggled, InlineFormatter};
use crate::ui::events::EventHandler;

verus! {

/// What the view does after the pending requests of an event were applied.
#[derive(Debug, Clone, Copy, PartialEq, Eq, Structural)]
pub enum PendingOutcome {
    /// The active block was deleted: all widgets are made again.
    Deleted,
    /// A block was inserted and made active: all widgets are made again.
    Created,
    /// Another block became active: the widgets of the formerly and the
    /// newly active block are made again.
    Navigated { old_active: usize, new_active: usize },
    /// Nothing to do.
    Nothing,
}

/// The kind of a block inserted with text `content`.
pub open spec fn new_block_kind(content: Seq<char>) -> BlockType {
    if list_item(content) is Some {
        BlockType::List
    } else {
        BlockType::Text
    }
}

/// Backspace in the active block deletes it, and activates the block
/// before, when it holds only white space and is neither the first nor the
/// only block; the result tells whether it did.
pub fn handle_backspace(editor_state: &mut EditorState) -> (r: bool)
    ensures
        ({
            let v = old(editor_state)@;
            let a = v.1;
            r == (0 <= a < v.0.len() && trim(v.0[a].content@).len() == 0 && a > 0 && v.0.len()
                > 1)
        }),
        r ==> final(editor_state)@ == state_after_set_active(
            state_after_delete(old(editor_state)@, old(editor_state)@.1).0,
            old(editor_state)@.1 - 1,
        ),
        !r ==> final(editor_state)@ == old(editor_state)@,
{
    let active = editor_state.active_block_index();
    let n = editor_state.blocks().len();
    if active >= n {
        return false;
    }
    let chars = chars_of(&editor_state.blocks()[active].content);
    let (a, b) = trim_chars(&chars);
    if a == b && active > 0 && n > 1 {
        editor_state.delete_block(active);
        editor_state.set_active_block(active - 1);
        true
    } else {
        false
    }
}

/// Applies what the event handling asked for, first match wins: deleting
/// the active block; inserting the requested block (a list block for a
/// list item, else text, with a fresh identity) and activating it; or
/// activating the navigation target.
pub fn apply_pending(handler: &EventHandler, editor_state: &mut EditorState, ids: &mut BlockIdGenerator) -> (r:
    PendingOutcome)
    ensures
        handler.should_delete_block ==> r == PendingOutcome::Deleted && final(editor_state)@
            == state_after_delete(old(editor_state)@, old(editor_state)@.1).0 && *final(ids)
            == *old(ids),
        !handler.should_delete_block && handler.should_create_new_block is Some ==> ({
            let (index, content) = handler.should_create_new_block->0;
            &&& r == PendingOutcome::Created
            &&& final(ids).next_value() == if old(ids).next_value() == usize::MAX {
                0
            } else {
                old(ids).next_value() + 1
            }
            &&& exists|b: Block|
                #![trigger state_after_create(old(editor_state)@, index as int, b)]
                b.block_type == new_block_kind(content@) && b.content == content && b.id.spec_value()
                    == old(ids).next_value() && final(editor_state)@ == state_after_set_active(
                    state_after_create(old(editor_state)@, index as int, b),
                    index as int,
                )
        }),
        !handler.should_delete_block && handler.should_create_new_block is None
            && handler.navigation_target is Some ==> r == (PendingOutcome::Navigated {
            old_active: old(editor_state)@.1 as usize,
            new_active: handler.navigation_target->0,
        }) && final(editor_state)@ == state_after_set_active(
            old(editor_state)@,
            handler.navigation_target->0 as int,
        ) && *final(ids) == *old(ids),
        !handler.should_delete_block && handler.should_create_new_block is None
            && handler.navigation_target is None ==> r == PendingOutcome::Nothing && final(editor_state)@ == old(editor_state)@ && *final(ids) == *old(ids),
{
    if handler.should_delete_block {
        let active = editor_state.active_block_index();
        editor_state.delete_block(active);
        return PendingOutcome::Deleted;
    }
    match &handler.should_create_new_block {
        Some(pair) => {
            let index = pair.0;
            let block_type = if is_list_item(&pair.1) {
                BlockType::List
            } else {
                BlockType::Text
            };
            let block = Block::new(block_type, pair.1.clone(), ids);
            let ghost b = block;
            editor_state.create_block(index, block);
            editor_state.set_active_block(index);
            assert(final(editor_state)@ == state_after_set_active(
                state_after_create(old(editor_state)@, index as int, b),
                index as int,
            ));
            return PendingOutcome::Created;
        },
        None => {},
    }
    match handler.navigation_target {
        Some(new_active) => {
            let old_active = editor_state.active_block_index();
            editor_state.set_active_block(new_active);
            PendingOutcome::Navigated { old_active, new_active }
        },
        None => PendingOutcome::Nothing,
    }
}

/// Toggles `format` at `cursor` of the active block's text `current_text`
/// (see `toggled`), stores the new text in the active block, and returns
/// it with the new cursor.
pub fn toggle_active_format(
    editor_state: &mut EditorState,
    current_text: &str,
    cursor: usize,
    format: InlineFormat,
) -> (r: (String, usize))
    requires
        toggle_allowed(current_text@, cursor as int, format),
    ensures
        (r.0@, r.1 as int) == toggled(current_text@, cursor as int, format),
        ({
            let v = old(editor_state)@;
            0 <= v.1 < v.0.len() ==> final(editor_state)@.1 == v.1 && final(editor_state)@.0.len()
                == v.0.len() && final(editor_state)@.0[v.1].content@ == r.0@ && final(editor_state)@.0[v.1].id == v.0[v.1].id && final(editor_state)@.0[v.1].block_type
                == v.0[v.1].block_type && forall|j: int|
                0 <= j < v.0.len() && j != v.1 ==> #[trigger] final(editor_state)@.0[j] == v.0[j]
        }),
        !(0 <= old(editor_state)@.1 < old(editor_state)@.0.len()) ==> final(editor_state)@ == old(editor_state)@,
{
    let (new_text, new_cursor) = match format {
        InlineFormat::Bold => InlineFormatter::toggle_bold(current_text, cursor),
        InlineFormat::Italic => InlineFormatter::toggle_italic(current_text, cursor),
        InlineFormat::Code => InlineFormatter::toggle_code(current_text, cursor),
    };
    let active = editor_state.active_block_index();
    let blocks = editor_state.blocks_mut();
    if active < blocks.len() {
        let id = blocks[active].id;
        let block_type = blocks[active].block_type;
        blocks.set(active, Block { id, block_type, content: new_text.clone() });
    }
    (new_text, new_cursor)
}

/// Replaces the blocks by `blocks` (a loaded file) and activates the first.
pub fn replace_blocks(editor_state: &mut EditorState, blocks: Vec<Block>)
    ensures
        final(editor_state)@ == state_after_set_active((blocks@, old(editor_state)@.1), 0),
{
    let v = editor_state.blocks_mut();
    *v = blocks;
    editor_state.set_active_block(0);
}

} // verus!
