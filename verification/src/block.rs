//! Blocks of the block editor: a kind and the raw Markdown text of a line.
use vstd::prelude::*;

verus! {

/// Identity of a block.
#[derive(Debug, Clone, Copy, PartialEq, Eq, Structural)]
pub struct BlockId(usize);

/// Source of fresh block identities: each one handed out is the counter's
/// value, after which the counter advances (wrapping).
#[derive(Debug)]
pub struct BlockIdGenerator {
    next: usize,
}

impl BlockId {
    /// The number of the identity.
    pub closed spec fn spec_value(self) -> usize {
        self.0
    }

    /// The number of the identity.
    pub fn value(&self) -> (r: usize)
        ensures
            r == self.spec_value(),
    {
        self.0
    }

    /// A fresh identity taken from `ids`.
    pub fn new(ids: &mut BlockIdGenerator) -> (r: Self)
        ensures
            r.spec_value() == old(ids).next_value(),
            final(ids).next_value() == if old(ids).next_value() == usize::MAX {
                0
            } else {
                old(ids).next_value() + 1
            },
            final(ids).next_value() == nth_draw(old(ids).next_value(), 1),
    {
        let id = ids.next;
        assert(nth_draw(id, 0) == id);
        ids.next = ids.next.wrapping_add(1);
        BlockId(id)
    }
}

impl BlockIdGenerator {
    /// The identity the next `BlockId::new` hands out.
    pub closed spec fn next_value(&self) -> usize {
        self.next
    }

    /// A generator that starts at 0.
    pub fn new() -> (r: Self)
        ensures
            r.next_value() == 0,
    {
        BlockIdGenerator { next: 0 }
    }
}

/// Identities drawn one after another from a generator differ, as long as
/// the counter does not wrap around.
pub proof fn law_fresh_ids_differ(first: BlockId, second: BlockId, before: usize, after: usize)
    requires
        first.spec_value() == before,
        after == if before == usize::MAX {
            0
        } else {
            before + 1
        },
        second.spec_value() == after,
        before < usize::MAX,
    ensures
        first != second,
{
}

/// The value a generator that holds `start` hands out at its `k`-th draw
/// from now (each `BlockId::new` moves it on by one, wrapping at the top).
pub open spec fn nth_draw(start: usize, k: nat) -> usize
    decreases k,
{
    if k == 0 {
        start
    } else {
        let p = nth_draw(start, (k - 1) as nat);
        if p == usize::MAX {
            0
        } else {
            (p + 1) as usize
        }
    }
}

/// Without wrapping, the `k`-th draw is `start + k`.
proof fn lemma_nth_draw(start: usize, k: nat)
    requires
        start + k <= usize::MAX,
    ensures
        nth_draw(start, k) == start + k,
    decreases k,
{
    if k > 0 {
        lemma_nth_draw(start, (k - 1) as nat);
    }
}

/// Any two draws from one generator differ, as long as fewer than
/// `usize::MAX` draws separate the first from the top of the counter.
pub proof fn law_draws_differ(start: usize, i: nat, j: nat)
    requires
        i < j,
        start + j <= usize::MAX,
    ensures
        nth_draw(start, i) != nth_draw(start, j),
{
    lemma_nth_draw(start, i);
    lemma_nth_draw(start, j);
}

/// Kind of a block.
#[derive(Debug, Clone, Copy, PartialEq, Eq, Structural)]
pub enum BlockType {
    Text,
    /// A heading of level 1 to 5.
    Heading(u8),
    List,
}

/// A block: its identity, kind and raw text.
#[derive(Debug)]
pub struct Block {
    pub id: BlockId,
    pub block_type: BlockType,
    pub content: String,
}

impl Clone for Block {
    fn clone(&self) -> (r: Self)
        ensures
            r == *self,
    {
        Block { id: self.id, block_type: self.block_type, content: self.content.clone() }
    }
}

impl Block {
    /// A block of the given kind and text with a fresh identity.
    pub fn new(block_type: BlockType, content: String, ids: &mut BlockIdGenerator) -> (r: Self)
        ensures
            r.block_type == block_type,
            r.content == content,
            r.id.spec_value() == old(ids).next_value(),
            final(ids).next_value() == if old(ids).next_value() == usize::MAX {
                0
            } else {
                old(ids).next_value() + 1
            },
            final(ids).next_value() == nth_draw(old(ids).next_value(), 1),
    {
        Block { id: BlockId::new(ids), block_type, content }
    }

    /// A text block.
    pub fn text(content: String, ids: &mut BlockIdGenerator) -> (r: Self)
        ensures
            r.block_type == BlockType::Text,
            r.content == content,
            r.id.spec_value() == old(ids).next_value(),
            final(ids).next_value() == if old(ids).next_value() == usize::MAX {
                0
            } else {
                old(ids).next_value() + 1
            },
            final(ids).next_value() == nth_draw(old(ids).next_value(), 1),
    {
        Self::new(BlockType::Text, content, ids)
    }

    /// A heading block of the given level.
    pub fn heading(level: u8, content: String, ids: &mut BlockIdGenerator) -> (r: Self)
        ensures
            r.block_type == BlockType::Heading(level),
            r.content == content,
            r.id.spec_value() == old(ids).next_value(),
            final(ids).next_value() == if old(ids).next_value() == usize::MAX {
                0
            } else {
                old(ids).next_value() + 1
            },
            final(ids).next_value() == nth_draw(old(ids).next_value(), 1),
    {
        Self::new(BlockType::Heading(level), content, ids)
    }

    /// A list block.
    pub fn list(content: String, ids: &mut BlockIdGenerator) -> (r: Self)
        ensures
            r.block_type == BlockType::List,
            r.content == content,
            r.id.spec_value() == old(ids).next_value(),
            final(ids).next_value() == if old(ids).next_value() == usize::MAX {
                0
            } else {
                old(ids).next_value() + 1
            },
            final(ids).next_value() == nth_draw(old(ids).next_value(), 1),
    {
        Self::new(BlockType::List, content, ids)
    }
}

} // verus!
