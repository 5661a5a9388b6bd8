//! The counting behind drawing the document: list numbers, the part of a
//! style run that is selected, where the cursor falls in a run, and the
//! characters of a run.
use vstd::prelude::*;

use crate::editor::model::block::{BlockType, BlockView};
use crate::text::{decimal, push_decimal, push_str};

verus! {

/// A list block.
pub open spec fn is_list_type(ty: BlockType) -> bool {
    ty == BlockType::ListItem || ty == BlockType::OrderedListItem
}

/// The list counters after a block: any block outside a list resets them
/// all; an ordered item counts one more at its level (the counters grow to
/// reach the level) and resets the deeper levels; a bullet item leaves
/// them.
pub open spec fn counters_after(c: Seq<u32>, ty: BlockType, level: int) -> Seq<u32> {
    if !is_list_type(ty) {
        Seq::new(c.len(), |_i: int| 0u32)
    } else if ty == BlockType::OrderedListItem {
        let grown = if level >= c.len() {
            c + Seq::new((level + 1 - c.len()) as nat, |_i: int| 0u32)
        } else {
            c
        };
        Seq::new(
            grown.len(),
            |i: int| if i == level {
                (grown[i] + 1) as u32
            } else if i > level {
                0u32
            } else {
                grown[i]
            },
        )
    } else {
        c
    }
}

/// Moves the list counters past a block (see `counters_after`).
pub fn advance_list_counters(counters: &mut Vec<u32>, ty: BlockType, level: usize)
    requires
        ty == BlockType::OrderedListItem && level < old(counters)@.len() ==> old(counters)@[level as int]
            < u32::MAX,
        level < usize::MAX,
    ensures
        final(counters)@ == counters_after(old(counters)@, ty, level as int),
{
    if !(ty == BlockType::ListItem || ty == BlockType::OrderedListItem) {
        let n = counters.len();
        let mut i: usize = 0;
        while i < n
            invariant
                i <= n == counters@.len(),
                forall|j: int| 0 <= j < i ==> counters@[j] == 0,
            decreases n - i,
        {
            counters.set(i, 0);
            i = i + 1;
        }
        assert(counters@ =~= counters_after(old(counters)@, ty, level as int));
    } else if ty == BlockType::OrderedListItem {
        let ghost c0 = counters@;
        while counters.len() <= level
            invariant
                c0 == old(counters)@,
                counters@.len() >= c0.len(),
                counters@.len() <= if level + 1 > c0.len() {
                    level + 1
                } else {
                    c0.len() as int
                },
                forall|j: int| 0 <= j < c0.len() ==> counters@[j] == c0[j],
                forall|j: int| c0.len() <= j < counters@.len() ==> counters@[j] == 0,
            decreases level + 1 - counters@.len(),
        {
            counters.push(0);
        }
        let ghost grown = if level >= c0.len() {
            c0 + Seq::new((level + 1 - c0.len()) as nat, |_i: int| 0u32)
        } else {
            c0
        };
        assert(counters@ =~= grown);
        let v = counters[level];
        counters.set(level, v + 1);
        let n = counters.len();
        let mut i: usize = level + 1;
        while i < n
            invariant
                level + 1 <= i <= n == counters@.len() == grown.len(),
                counters@[level as int] == grown[level as int] + 1,
                forall|j: int| 0 <= j < level ==> counters@[j] == grown[j],
                forall|j: int| level < j < i ==> counters@[j] == 0,
                forall|j: int| i <= j < n ==> counters@[j] == grown[j],
            decreases n - i,
        {
            counters.set(i, 0);
            i = i + 1;
        }
        assert(counters@ =~= counters_after(old(counters)@, ty, level as int));
    }
}

/// The first block of the run of list blocks that ends just before
/// `i` (`i` itself when the block before is not a list block).
pub open spec fn list_run_start(blocks: Seq<BlockView>, i: int) -> int
    decreases i,
{
    if i <= 0 {
        0
    } else if !is_list_type(blocks[i - 1].ty) {
        i
    } else {
        list_run_start(blocks, i - 1)
    }
}

/// Where counting list numbers starts for drawing from block `start`: the
/// start of the list run before it.
pub fn list_scan_start(blocks: &[crate::editor::model::block::Block], start: usize) -> (r: usize)
    requires
        start <= blocks@.len(),
    ensures
        r == list_run_start(blocks@.map_values(|b: crate::editor::model::block::Block| b@), start as int),
{
    let ghost bv = blocks@.map_values(|b: crate::editor::model::block::Block| b@);
    let mut i = start;
    while i > 0 && (blocks[i - 1].ty == BlockType::ListItem || blocks[i - 1].ty
        == BlockType::OrderedListItem)
        invariant
            i <= start <= blocks@.len(),
            bv == blocks@.map_values(|b: crate::editor::model::block::Block| b@),
            list_run_start(bv, start as int) == list_run_start(bv, i as int),
        decreases i,
    {
        assert(bv[i - 1] == blocks@[i - 1]@);
        i = i - 1;
    }
    if i > 0 {
        assert(bv[i - 1] == blocks@[i - 1]@);
    }
    i
}

/// The number label of an ordered item: `"n. "`.
pub fn ordered_label(number: u32) -> (r: String)
    ensures
        r@ == decimal(number as nat) + seq!['.', ' '],
{
    let mut r = String::new();
    push_decimal(&mut r, number);
    push_str(&mut r, ". ");
    proof {
        reveal_strlit(". ");
    }
    assert(r@ =~= decimal(number as nat) + seq!['.', ' ']);
    r
}

/// The part of a run at characters `span_start .. span_start + span_len`
/// of block `block_idx` that the selection covers, relative to the run
/// start, when it is not empty.
pub open spec fn selected_in_run(
    block_idx: int,
    selection: Option<((usize, usize), (usize, usize))>,
    span_start: int,
    span_len: int,
) -> Option<(int, int)> {
    match selection {
        Some(((sb, sc), (eb, ec))) => if sb <= block_idx <= eb {
            let blk_start = if block_idx == sb {
                sc as int
            } else {
                0
            };
            let blk_end = if block_idx == eb {
                ec as int
            } else {
                usize::MAX as int
            };
            let a = if span_start > blk_start {
                span_start
            } else {
                blk_start
            };
            let b = if span_start + span_len < blk_end {
                span_start + span_len
            } else {
                blk_end
            };
            if a < b {
                Some((a - span_start, b - span_start))
            } else {
                None
            }
        } else {
            None
        },
        None => None,
    }
}

/// The selected part of a run (see `selected_in_run`).
pub fn selection_in_span(
    block_idx: usize,
    selection: Option<((usize, usize), (usize, usize))>,
    span_start: usize,
    span_len: usize,
) -> (r: Option<(usize, usize)>)
    requires
        span_start + span_len <= usize::MAX,
    ensures
        match selected_in_run(block_idx as int, selection, span_start as int, span_len as int) {
            Some((a, b)) => r == Some((a as usize, b as usize)),
            None => r is None,
        },
{
    match selection {
        Some(((sb, sc), (eb, ec))) => {
            if block_idx >= sb && block_idx <= eb {
                let blk_start = if block_idx == sb {
                    sc
                } else {
                    0
                };
                let blk_end = if block_idx == eb {
                    ec
                } else {
                    usize::MAX
                };
                let span_end = span_start + span_len;
                let a = if span_start > blk_start {
                    span_start
                } else {
                    blk_start
                };
                let b = if span_end < blk_end {
                    span_end
                } else {
                    blk_end
                };
                if a < b {
                    Some((a - span_start, b - span_start))
                } else {
                    None
                }
            } else {
                None
            }
        },
        None => None,
    }
}

/// Where the cursor falls in a run of block `block_idx` starting at
/// character `span_start`: its offset in the run when the cursor is in
/// that block, not found yet, and within the run (both ends included).
pub fn cursor_in_span(
    block_idx: usize,
    cursor: (usize, usize),
    found: bool,
    span_start: usize,
    span_len: usize,
) -> (r: Option<usize>)
    requires
        span_start + span_len <= usize::MAX,
    ensures
        r == if block_idx == cursor.0 && !found && span_start <= cursor.1 <= span_start + span_len {
            Some((cursor.1 - span_start) as usize)
        } else {
            None::<usize>
        },
{
    if block_idx == cursor.0 && !found && cursor.1 >= span_start && cursor.1 <= span_start
        + span_len {
        Some(cursor.1 - span_start)
    } else {
        None
    }
}

} // verus!
