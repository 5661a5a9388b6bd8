//! The list of blocks of the block editor and which one is active.
use vstd::prelude::*;

use crate::block::{Block, BlockIdGenerator};

verus! {

/// Blocks of a document and the index of the active one.
#[derive(Debug)]
pub struct EditorState {
    blocks: Vec<Block>,
    active_block_index: usize,
}

impl View for EditorState {
    type V = (Seq<Block>, int);

    /// The blocks, and the index of the active block.
    closed spec fn view(&self) -> (Seq<Block>, int) {
        (self.blocks@, self.active_block_index as int)
    }
}

impl EditorState {
    /// A state with one empty text block, which is active.
    pub fn new(ids: &mut BlockIdGenerator) -> (r: Self)
        ensures
            r@.0.len() == 1,
            r@.0[0].block_type == crate::block::BlockType::Text,
            r@.0[0].content@.len() == 0,
            r@.0[0].id.spec_value() == old(ids).next_value(),
            r@.1 == 0,
    {
        let b = Block::text(String::new(), ids);
        EditorState { blocks: vec![b], active_block_index: 0 }
    }

    /// The blocks.
    pub fn blocks(&self) -> (r: &[Block])
        ensures
            r@ == self@.0,
    {
        self.blocks.as_slice()
    }

    /// The blocks, for changing them.
    pub fn blocks_mut(&mut self) -> (r: &mut Vec<Block>)
        ensures
            r@ == old(self)@.0,
            final(self)@.0 == final(r)@,
            final(self)@.1 == old(self)@.1,
    {
        &mut self.blocks
    }

    /// Index of the active block.
    pub fn active_block_index(&self) -> (r: usize)
        ensures
            r == self@.1,
    {
        self.active_block_index
    }

    /// The active block, if its index is within the blocks.
    pub fn active_block(&self) -> (r: Option<&Block>)
        ensures
            self@.1 < self@.0.len() ==> r == Some(&self@.0[self@.1]),
            self@.1 >= self@.0.len() ==> r is None,
    {
        if self.active_block_index < self.blocks.len() {
            Some(&self.blocks[self.active_block_index])
        } else {
            None
        }
    }
}

impl EditorState {
    /// The active block, for changing it, if its index is within the
    /// blocks.
    pub fn active_block_mut(&mut self) -> (r: Option<&mut Block>)
        ensures
            old(self)@.1 < old(self)@.0.len() ==> (r matches Some(b) && *b == old(self)@.0[old(self)@.1] && final(self)@ == (old(self)@.0.update(old(self)@.1, *final(b)), old(self)@.1)),
            old(self)@.1 >= old(self)@.0.len() ==> r is None && final(self)@ == old(self)@,
    {
        let i = self.active_block_index;
        if i < self.blocks.len() {
            Some(&mut self.blocks[i])
        } else {
            None
        }
    }

    /// Inserts `block` at `index` when `index` is at most the number of
    /// blocks; otherwise nothing changes.  The active index stays.
    pub fn create_block(&mut self, index: usize, block: Block)
        ensures
            final(self)@ == state_after_create(old(self)@, index as int, block),
    {
        if index <= self.blocks.len() {
            self.blocks.insert(index, block);
        }
    }

    /// Removes and returns the block at `index` when it exists and is not
    /// the only one; an active index that then lies past the end moves to
    /// the last block.
    pub fn delete_block(&mut self, index: usize) -> (r: Option<Block>)
        ensures
            (final(self)@, r) == state_after_delete(old(self)@, index as int),
    {
        if index < self.blocks.len() && self.blocks.len() > 1 {
            let block = self.blocks.remove(index);
            if self.active_block_index >= self.blocks.len() {
                self.active_block_index = self.blocks.len() - 1;
            }
            Some(block)
        } else {
            None
        }
    }

    /// Makes the block at `index` active when it exists.
    pub fn set_active_block(&mut self, index: usize)
        ensures
            final(self)@ == state_after_set_active(old(self)@, index as int),
    {
        if index < self.blocks.len() {
            self.active_block_index = index;
        }
    }

    /// Moves the active index to the next block, if there is one.
    pub fn next_block(&mut self)
        ensures
            final(self)@ == state_after_next(old(self)@),
    {
        if self.active_block_index < self.blocks.len() && self.active_block_index + 1
            < self.blocks.len() {
            self.active_block_index = self.active_block_index + 1;
        }
    }

    /// Moves the active index to the previous block, if there is one.
    pub fn prev_block(&mut self)
        ensures
            final(self)@ == state_after_prev(old(self)@),
    {
        if self.active_block_index > 0 {
            self.active_block_index = self.active_block_index - 1;
        }
    }
}

/// Effect of `create_block`.
pub open spec fn state_after_create(v: (Seq<Block>, int), index: int, block: Block) -> (
    Seq<Block>,
    int,
) {
    if 0 <= index <= v.0.len() {
        (v.0.insert(index, block), v.1)
    } else {
        v
    }
}

/// Effect of `delete_block`, and the block it returns.
pub open spec fn state_after_delete(v: (Seq<Block>, int), index: int) -> (
    (Seq<Block>, int),
    Option<Block>,
) {
    if 0 <= index < v.0.len() && v.0.len() > 1 {
        let blocks = v.0.remove(index);
        let active = if v.1 >= blocks.len() {
            blocks.len() - 1
        } else {
            v.1
        };
        ((blocks, active), Some(v.0[index]))
    } else {
        (v, None)
    }
}

/// Effect of `set_active_block`.
pub open spec fn state_after_set_active(v: (Seq<Block>, int), index: int) -> (Seq<Block>, int) {
    if 0 <= index < v.0.len() {
        (v.0, index)
    } else {
        v
    }
}

/// Effect of `next_block`.
pub open spec fn state_after_next(v: (Seq<Block>, int)) -> (Seq<Block>, int) {
    if v.1 + 1 < v.0.len() {
        (v.0, v.1 + 1)
    } else {
        v
    }
}

/// Effect of `prev_block`.
pub open spec fn state_after_prev(v: (Seq<Block>, int)) -> (Seq<Block>, int) {
    if v.1 > 0 {
        (v.0, v.1 - 1)
    } else {
        v
    }
}

/// The active index points at a block.
pub open spec fn active_in_range(v: (Seq<Block>, int)) -> bool {
    0 <= v.1 < v.0.len()
}

/// Creating, deleting, choosing, and moving to the next or previous block
/// keep the active index on a block, and never leave the document without
/// blocks.
pub proof fn law_state_ops_keep_active_in_range(v: (Seq<Block>, int), index: int, block: Block)
    requires
        active_in_range(v),
    ensures
        active_in_range(state_after_create(v, index, block)),
        active_in_range(state_after_delete(v, index).0),
        active_in_range(state_after_set_active(v, index)),
        active_in_range(state_after_next(v)),
        active_in_range(state_after_prev(v)),
{
}

/// Deleting the block just created at `index` gives it back and restores
/// the blocks.
pub proof fn law_delete_undoes_create(v: (Seq<Block>, int), index: int, block: Block)
    requires
        active_in_range(v),
        0 <= index <= v.0.len(),
    ensures
        state_after_delete(state_after_create(v, index, block), index).1 == Some(block),
        state_after_delete(state_after_create(v, index, block), index).0.0 == v.0,
{
    assert(v.0.insert(index, block).remove(index) =~= v.0);
}

/// Moving to the next block and back returns to the same block when there
/// is a next one.
pub proof fn law_prev_undoes_next(v: (Seq<Block>, int))
    requires
        active_in_range(v),
        v.1 + 1 < v.0.len(),
    ensures
        state_after_prev(state_after_next(v)) == v,
{
}

/// The only block is never deleted.
pub proof fn law_last_block_stays(v: (Seq<Block>, int), index: int)
    requires
        v.0.len() == 1,
    ensures
        state_after_delete(v, index) == (v, None::<Block>),
{
}

} // verus!
