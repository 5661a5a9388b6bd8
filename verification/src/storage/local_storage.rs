//! The Markdown file format of a list of blocks: blocks are separated by a
//! blank line.
use vstd::prelude::*;

use crate::block::{Block, BlockIdGenerator, BlockType};
use crate::markdown::parser::{detect_heading_level, heading_level, is_list_item, list_item};
use crate::text::{
    chars_of, find_from, find_seq, lemma_find_from, lemma_find_from_shift, occurs_at, push_str, starts_with, string_of,
    is_white_space, skip_white_space, sub_chars, trailing_white_space, trim, trim_chars,
};

verus! {

/// Blocks kept as a Markdown file on the local disk.
#[derive(Debug)]
pub struct LocalStorage;

/// `n` `#` characters.
pub open spec fn hashes(n: int) -> Seq<char> {
    Seq::new(n as nat, |_i: int| '#')
}

/// The Markdown text of one block: a heading whose text does not already
/// start with its level's `#`s gets them and a space in front.
pub open spec fn block_markdown(b: Block) -> Seq<char> {
    match b.block_type {
        BlockType::Heading(level) => if starts_with(b.content@, hashes(level as int)) {
            b.content@
        } else {
            hashes(level as int) + seq![' '] + b.content@
        },
        _ => b.content@,
    }
}

/// `parts` joined with `sep` between neighbours.
pub open spec fn join(parts: Seq<Seq<char>>, sep: Seq<char>) -> Seq<char>
    decreases parts.len(),
{
    if parts.len() == 0 {
        seq![]
    } else if parts.len() == 1 {
        parts[0]
    } else {
        join(parts.drop_last(), sep) + sep + parts.last()
    }
}

/// The blank-line separator.
pub open spec fn blank_line() -> Seq<char> {
    seq!['\n', '\n']
}

/// The file text of a list of blocks.
pub open spec fn blocks_markdown(bs: Seq<Block>) -> Seq<char> {
    join(bs.map_values(|b: Block| block_markdown(b)), blank_line())
}

/// `str::split` on a non-empty separator: the pieces between the
/// occurrences of `sep` found from left to right.
pub open spec fn split_on(s: Seq<char>, sep: Seq<char>) -> Seq<Seq<char>>
    recommends
        sep.len() > 0,
    decreases s.len(),
{
    if sep.len() == 0 {
        seq![s]
    } else {
        match find_from(s, sep, 0) {
            Some(k) => if 0 <= k && k + sep.len() <= s.len() {
                seq![s.subrange(0, k)] + split_on(s.subrange(k + sep.len(), s.len() as int), sep)
            } else {
                seq![s]
            },
            None => seq![s],
        }
    }
}

/// The trimmed pieces that hold more than white space.
pub open spec fn nonblank_trimmed(parts: Seq<Seq<char>>) -> Seq<Seq<char>>
    decreases parts.len(),
{
    if parts.len() == 0 {
        seq![]
    } else {
        let t = trim(parts.last());
        nonblank_trimmed(parts.drop_last()) + if t.len() > 0 {
            seq![t]
        } else {
            seq![]
        }
    }
}

/// The lines of a file that become blocks.
pub open spec fn file_lines(content: Seq<char>) -> Seq<Seq<char>> {
    nonblank_trimmed(split_on(content, blank_line()))
}

/// The kind of block a line becomes: a heading for `"# "`, `"## "` or
/// `"### "`, a list block for a list item, else text.
pub open spec fn line_kind(line: Seq<char>) -> BlockType {
    match heading_level(line) {
        Some(level) => BlockType::Heading(level),
        None => if list_item(line) is Some {
            BlockType::List
        } else {
            BlockType::Text
        },
    }
}

/// The identity counter after `k` steps from `start` (wrapping).
pub open spec fn nth_id(start: usize, k: nat) -> usize
    decreases k,
{
    if k == 0 {
        start
    } else {
        let p = nth_id(start, (k - 1) as nat);
        if p == usize::MAX {
            0
        } else {
            (p + 1) as usize
        }
    }
}

/// The blocks of a file: one text block with no text when the file holds
/// only white space, else one block per line of `file_lines`, each with
/// its kind (`line_kind`) and the next identity of the generator.
pub open spec fn blocks_of_file(content: Seq<char>, bs: Seq<Block>, start: usize) -> bool {
    if trim(content).len() == 0 {
        &&& bs.len() == 1
        &&& bs[0].block_type == BlockType::Text
        &&& bs[0].content@ == Seq::<char>::empty()
        &&& bs[0].id.spec_value() == start
    } else {
        let lines = file_lines(content);
        &&& bs.len() == lines.len()
        &&& forall|j: int|
            0 <= j < bs.len() ==> (#[trigger] bs[j]).content@ == lines[j] && bs[j].block_type
                == line_kind(lines[j]) && bs[j].id.spec_value() == nth_id(start, j as nat)
    }
}

/// Appends the Markdown text of one block.
fn push_block_markdown(s: &mut String, b: &Block)
    ensures
        final(s)@ == old(s)@ + block_markdown(*b),
{
    match b.block_type {
        BlockType::Heading(level) => {
            let chars = chars_of(&b.content);
            let mut k: usize = 0;
            let lv = level as usize;
            while k < lv && k < chars.len() && chars[k] == '#'
                invariant
                    k <= lv,
                    k <= chars@.len(),
                    chars@ == b.content@,
                    forall|j: int| 0 <= j < k ==> chars@[j] == '#',
                decreases lv - k,
            {
                k = k + 1;
            }
            if k == lv {
                assert(chars@.subrange(0, lv as int) =~= hashes(level as int));
                push_str(s, &b.content);
            } else {
                if lv <= chars.len() {
                    assert(chars@.subrange(0, lv as int)[k as int] != hashes(level as int)[k as int]);
                }
                let mut i: usize = 0;
                while i < lv
                    invariant
                        i <= lv,
                        s@ == old(s)@ + hashes(i as int),
                    decreases lv - i,
                {
                    crate::text::push_char(s, '#');
                    i = i + 1;
                    assert(s@ =~= old(s)@ + hashes(i as int));
                }
                crate::text::push_char(s, ' ');
                push_str(s, &b.content);
                assert(s@ =~= old(s)@ + (hashes(level as int) + seq![' '] + b.content@));
            }
        },
        _ => {
            push_str(s, &b.content);
        },
    }
}

impl LocalStorage {
    /// The storage.
    pub fn new() -> (r: Self) {
        LocalStorage
    }

    /// The file text of `blocks` (see `blocks_markdown`).
    pub fn blocks_to_markdown(blocks: &[Block]) -> (r: String)
        ensures
            r@ == blocks_markdown(blocks@),
    {
        let ghost parts = blocks@.map_values(|b: Block| block_markdown(b));
        let mut r = String::new();
        let mut i: usize = 0;
        while i < blocks.len()
            invariant
                i <= blocks@.len(),
                parts == blocks@.map_values(|b: Block| block_markdown(b)),
                r@ == join(parts.subrange(0, i as int), blank_line()),
            decreases blocks@.len() - i,
        {
            assert(parts.subrange(0, i + 1).drop_last() =~= parts.subrange(0, i as int));
            assert(parts.subrange(0, i + 1).last() == block_markdown(blocks@[i as int]));
            if i > 0 {
                push_str(&mut r, "\n\n");
                proof {
                    reveal_strlit("\n\n");
                }
            }
            push_block_markdown(&mut r, &blocks[i]);
            i = i + 1;
            assert(r@ =~= join(parts.subrange(0, i as int), blank_line()));
        }
        assert(parts.subrange(0, blocks@.len() as int) =~= parts);
        r
    }

    /// The blocks of a file (see `blocks_of_file`); identities come from
    /// `ids`.
    pub fn markdown_to_blocks(content: &str, ids: &mut BlockIdGenerator) -> (r: Vec<Block>)
        ensures
            blocks_of_file(content@, r@, old(ids).next_value()),
            final(ids).next_value() == nth_id(old(ids).next_value(), r@.len()),
    {
        let chars = chars_of(content);
        let (a, b) = trim_chars(&chars);
        if a == b {
            let blk = Block::text(String::new(), ids);
            assert(nth_id(old(ids).next_value(), 0) == old(ids).next_value());
            return vec![blk];
        }
        assert(trim(content@).len() > 0);
        let sep = vec!['\n', '\n'];
        assert(sep@ == blank_line());
        let ghost start = ids.next_value();
        let ghost s = chars@;
        let ghost mut done: Seq<Seq<char>> = seq![];
        let mut out: Vec<Block> = Vec::new();
        let mut pos: usize = 0;
        let n = chars.len();
        assert(s.subrange(0, n as int) =~= s);
        loop
            invariant
                pos <= n == s.len(),
                start == old(ids).next_value(),
                s == chars@,
                s == content@,
                sep@ == blank_line(),
                trim(content@).len() > 0,
                file_lines(s) == done + nonblank_trimmed(
                    split_on(s.subrange(pos as int, n as int), blank_line()),
                ),
                out@.len() == done.len(),
                forall|j: int|
                    0 <= j < out@.len() ==> (#[trigger] out@[j]).content@ == done[j]
                        && out@[j].block_type == line_kind(done[j]) && out@[j].id.spec_value()
                        == nth_id(start, j as nat),
                ids.next_value() == nth_id(start, out@.len()),
            decreases n - pos,
        {
            let ghost rest = s.subrange(pos as int, n as int);
            let ghost old_done = done;
            proof {
                lemma_find_from_shift(s, blank_line(), pos as int, 0);
                lemma_find_from(s, blank_line(), pos as int);
            }
            let found = find_seq(&chars, &sep, pos);
            let end = match found {
                Some(k) => k,
                None => n,
            };
            proof {
                let piece = s.subrange(pos as int, end as int);
                match found {
                    Some(k) => {
                        assert(rest.subrange(0, k - pos) =~= piece);
                        assert(rest.subrange(k - pos + 2, rest.len() as int) =~= s.subrange(
                            k + 2,
                            n as int,
                        ));
                        assert(split_on(rest, blank_line()) == seq![piece] + split_on(
                            s.subrange(k + 2, n as int),
                            blank_line(),
                        ));
                        lemma_nonblank_concat(
                            seq![piece],
                            split_on(s.subrange(k + 2, n as int), blank_line()),
                        );
                    },
                    None => {
                        assert(piece =~= rest);
                        assert(split_on(rest, blank_line()) == seq![piece]);
                    },
                }
                assert(seq![piece].drop_last() =~= Seq::<Seq<char>>::empty());
                assert(nonblank_trimmed(seq![piece]) == nonblank_trimmed(Seq::<Seq<char>>::empty())
                    + if trim(piece).len() > 0 {
                    seq![trim(piece)]
                } else {
                    Seq::<Seq<char>>::empty()
                });
            }
            let piece = sub_chars(&chars, pos, end);
            let (a, b) = trim_chars(&piece);
            if a < b {
                let line = string_of(&piece, a, b);
                let kind = match detect_heading_level(&line) {
                    Some(level) => BlockType::Heading(level),
                    None => if is_list_item(&line) {
                        BlockType::List
                    } else {
                        BlockType::Text
                    },
                };
                let blk = Block::new(kind, line, ids);
                out.push(blk);
                proof {
                    done = done.push(trim(piece@));
                }
            }
            assert(done =~= old_done + nonblank_trimmed(seq![s.subrange(pos as int, end as int)]));
            match found {
                Some(k) => {
                    assert(file_lines(s) =~= done + nonblank_trimmed(
                        split_on(s.subrange(k + 2, n as int), blank_line()),
                    ));
                    pos = k + 2;
                },
                None => {
                    assert(file_lines(s) =~= done);
                    return out;
                },
            }
        }
    }
}

/// Filtering and trimming distributes over concatenation.
proof fn lemma_nonblank_concat(a: Seq<Seq<char>>, b: Seq<Seq<char>>)
    ensures
        nonblank_trimmed(a + b) == nonblank_trimmed(a) + nonblank_trimmed(b),
    decreases b.len(),
{
    if b.len() == 0 {
        assert(a + b =~= a);
    } else {
        lemma_nonblank_concat(a, b.drop_last());
        assert((a + b).drop_last() =~= a + b.drop_last());
        assert((a + b).last() == b.last());
    }
}

impl Default for LocalStorage {
    fn default() -> (r: Self) {
        Self::new()
    }
}

/// A saved line that loads back as itself: not empty, not starting or
/// ending with white space, and without a blank line (`"\n\n"`) inside.
pub open spec fn clean_line(c: Seq<char>) -> bool {
    &&& c.len() > 0
    &&& !is_white_space(c[0])
    &&& !is_white_space(c.last())
    &&& find_from(c, blank_line(), 0) is None
}

/// Joining at least two parts puts the first in front.
proof fn lemma_join_front(parts: Seq<Seq<char>>, sep: Seq<char>)
    requires
        parts.len() >= 2,
    ensures
        join(parts, sep) == parts[0] + sep + join(parts.drop_first(), sep),
    decreases parts.len(),
{
    if parts.len() == 2 {
        assert(parts.drop_last() =~= seq![parts[0]]);
        assert(parts.drop_first() =~= seq![parts[1]]);
        assert(join(seq![parts[0]], sep) == parts[0]);
        assert(join(seq![parts[1]], sep) == parts[1]);
        assert(join(parts, sep) == join(parts.drop_last(), sep) + sep + parts.last());
    } else {
        let d = parts.drop_last();
        lemma_join_front(d, sep);
        assert(join(parts.drop_first(), sep) == join(parts.drop_first().drop_last(), sep) + sep
            + parts.drop_first().last());
        assert(d.drop_first() =~= parts.drop_first().drop_last());
        assert(d[0] == parts[0]);
        assert(parts.drop_first().last() == parts.last());
        assert(join(parts, sep) =~= parts[0] + sep + join(parts.drop_first(), sep));
    }
}

/// Without an occurrence before `k` and with one at `k`, the first
/// occurrence from `i` is at `k`.
proof fn lemma_find_first_at(s: Seq<char>, p: Seq<char>, i: int, k: int)
    requires
        0 <= i <= k,
        occurs_at(s, p, k),
        forall|j: int| i <= j < k ==> !occurs_at(s, p, j),
    ensures
        find_from(s, p, i) == Some(k),
    decreases k - i,
{
    if i < k {
        lemma_find_first_at(s, p, i + 1, k);
    }
}

/// After a clean line, the blank line that follows it is the first one.
proof fn lemma_split_after_clean(p: Seq<char>, rest: Seq<char>)
    requires
        clean_line(p),
    ensures
        split_on(p + blank_line() + rest, blank_line()) == seq![p] + split_on(rest, blank_line()),
{
    let sep = blank_line();
    let s = p + sep + rest;
    lemma_find_from(p, sep, 0);
    assert forall|j: int| 0 <= j < p.len() implies !occurs_at(s, sep, j) by {
        if j + 1 < p.len() {
            if occurs_at(s, sep, j) {
                assert(s.subrange(j, j + 2) =~= p.subrange(j, j + 2));
                assert(occurs_at(p, sep, j));
            }
        } else {
            assert(s[j] == p.last());
        }
    }
    assert(s.subrange(p.len() as int, p.len() as int + 2) =~= sep);
    lemma_find_first_at(s, sep, 0, p.len() as int);
    assert(s.subrange(0, p.len() as int) =~= p);
    assert(s.subrange(p.len() as int + 2, s.len() as int) =~= rest);
}

/// A clean line splits into itself.
proof fn lemma_split_clean(p: Seq<char>)
    requires
        clean_line(p),
    ensures
        split_on(p, blank_line()) == seq![p],
{
}

/// A clean line is its own trimmed form.
proof fn lemma_trim_clean(p: Seq<char>)
    requires
        clean_line(p),
    ensures
        trim(p) == p,
{
    assert(skip_white_space(p, 0) == 0);
    assert(p.subrange(0, p.len() as int) =~= p);
    assert(trailing_white_space(p) == 0);
    assert(p.subrange(0, p.len() - 0) =~= p);
}

/// A clean line is kept as it is.
proof fn lemma_nonblank_clean(p: Seq<char>, x: Seq<Seq<char>>)
    requires
        clean_line(p),
    ensures
        nonblank_trimmed(seq![p] + x) == seq![p] + nonblank_trimmed(x),
{
    lemma_nonblank_concat(seq![p], x);
    lemma_trim_clean(p);
    assert(seq![p].drop_last() =~= Seq::<Seq<char>>::empty());
    assert(nonblank_trimmed(Seq::<Seq<char>>::empty()) == Seq::<Seq<char>>::empty());
    assert(nonblank_trimmed(seq![p]) =~= seq![p]);
}

/// Clean lines joined by blank lines are read back as the same lines.
pub proof fn law_split_reads_back_join(parts: Seq<Seq<char>>)
    requires
        forall|j: int| 0 <= j < parts.len() ==> clean_line(#[trigger] parts[j]),
    ensures
        nonblank_trimmed(split_on(join(parts, blank_line()), blank_line())) == parts,
    decreases parts.len(),
{
    let sep = blank_line();
    if parts.len() == 0 {
        let e = Seq::<char>::empty();
        assert(find_from(e, sep, 0) is None);
        assert(split_on(e, sep) =~= seq![e]);
        assert(seq![e].drop_last() =~= Seq::<Seq<char>>::empty());
        assert(trim(e) =~= e);
        assert(nonblank_trimmed(Seq::<Seq<char>>::empty()) == Seq::<Seq<char>>::empty());
        assert(join(parts, sep) == e);
        assert(nonblank_trimmed(seq![e]) =~= parts);
    } else if parts.len() == 1 {
        assert(clean_line(parts[0]));
        lemma_split_clean(parts[0]);
        lemma_nonblank_clean(parts[0], Seq::empty());
        assert(seq![parts[0]] + Seq::<Seq<char>>::empty() =~= parts);
        assert(seq![parts[0]] + nonblank_trimmed(Seq::<Seq<char>>::empty()) =~= parts);
    } else {
        let rest = parts.drop_first();
        assert forall|j: int| 0 <= j < rest.len() implies clean_line(#[trigger] rest[j]) by {
            assert(rest[j] == parts[j + 1]);
        }
        lemma_join_front(parts, sep);
        assert(clean_line(parts[0]));
        lemma_split_after_clean(parts[0], join(rest, sep));
        law_split_reads_back_join(rest);
        lemma_nonblank_clean(parts[0], split_on(join(rest, sep), sep));
        assert(seq![parts[0]] + rest =~= parts);
    }
}

/// Saving blocks and loading the file gives one block per saved block,
/// holding its saved text, when every saved text is a clean line.
pub proof fn law_load_reads_back_saved_blocks(bs: Seq<Block>)
    requires
        forall|j: int| 0 <= j < bs.len() ==> clean_line(#[trigger] block_markdown(bs[j])),
    ensures
        file_lines(blocks_markdown(bs)) == bs.map_values(|b: Block| block_markdown(b)),
{
    let parts = bs.map_values(|b: Block| block_markdown(b));
    assert forall|j: int| 0 <= j < parts.len() implies clean_line(#[trigger] parts[j]) by {
        assert(parts[j] == block_markdown(bs[j]));
    }
    law_split_reads_back_join(parts);
}

} // verus!
