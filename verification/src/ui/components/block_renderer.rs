//! What a block's input widget shows and which template it is made from.
use vstd::prelude::*;

use crate::block::{Block, BlockType};
use crate::storage::local_storage::hashes;
use crate::text::{push_char, push_str};
use crate::ui::template_selector::{get_template_for_block, template_for, BlockTemplate};

verus! {

/// The text a block's input shows: a heading gets its level's `#`s and a
/// space in front of its text; other blocks show their text.
pub open spec fn shown_content(b: Block) -> Seq<char> {
    match b.block_type {
        BlockType::Heading(level) => hashes(level as int) + seq![' '] + b.content@,
        _ => b.content@,
    }
}

/// The text a block's input shows (see `shown_content`) and the template
/// its widget is made from (see `template_for`).
pub fn render_content(block: &Block, is_active: bool) -> (r: (String, BlockTemplate))
    ensures
        r.0@ == shown_content(*block),
        r.1 == template_for(r.0@, is_active),
{
    let mut content = String::new();
    match block.block_type {
        BlockType::Heading(level) => {
            let mut i: u8 = 0;
            while i < level
                invariant
                    i <= level,
                    content@ == hashes(i as int),
                decreases level - i,
            {
                push_char(&mut content, '#');
                i = i + 1;
                assert(content@ =~= hashes(i as int));
            }
            push_char(&mut content, ' ');
            push_str(&mut content, block.content.as_str());
        },
        _ => {
            push_str(&mut content, block.content.as_str());
            assert(content@ =~= block.content@);
        },
    }
    let template = get_template_for_block(content.as_str(), is_active);
    (content, template)
}

} // verus!
