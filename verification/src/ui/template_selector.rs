//! Choice of the input template a block is drawn with.
use vstd::prelude::*;

use crate::markdown::parser::{detect_heading_level, heading_level};

verus! {

/// The input templates: plain text and the three heading levels, each
/// active (editable) or inactive.
#[derive(Debug, Clone, Copy, PartialEq, Eq, Structural)]
pub enum BlockTemplate {
    BlockInput,
    BlockInputInactive,
    BlockInputH1,
    BlockInputInactiveH1,
    BlockInputH2,
    BlockInputInactiveH2,
    BlockInputH3,
    BlockInputInactiveH3,
}

/// The template of a block: by the heading level of its text, active or not.
pub open spec fn template_for(content: Seq<char>, is_active: bool) -> BlockTemplate {
    match heading_level(content) {
        Some(1) => if is_active {
            BlockTemplate::BlockInputH1
        } else {
            BlockTemplate::BlockInputInactiveH1
        },
        Some(2) => if is_active {
            BlockTemplate::BlockInputH2
        } else {
            BlockTemplate::BlockInputInactiveH2
        },
        Some(3) => if is_active {
            BlockTemplate::BlockInputH3
        } else {
            BlockTemplate::BlockInputInactiveH3
        },
        _ => if is_active {
            BlockTemplate::BlockInput
        } else {
            BlockTemplate::BlockInputInactive
        },
    }
}

/// The template for a block with text `content` (see `template_for`).
pub fn get_template_for_block(content: &str, is_active: bool) -> (r: BlockTemplate)
    ensures
        r == template_for(content@, is_active),
{
    match detect_heading_level(content) {
        Some(1) => if is_active {
            BlockTemplate::BlockInputH1
        } else {
            BlockTemplate::BlockInputInactiveH1
        },
        Some(2) => if is_active {
            BlockTemplate::BlockInputH2
        } else {
            BlockTemplate::BlockInputInactiveH2
        },
        Some(3) => if is_active {
            BlockTemplate::BlockInputH3
        } else {
            BlockTemplate::BlockInputInactiveH3
        },
        _ => if is_active {
            BlockTemplate::BlockInput
        } else {
            BlockTemplate::BlockInputInactive
        },
    }
}

} // verus!
