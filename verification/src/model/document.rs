//! A document of span-based blocks and its editing operations.
use vstd::prelude::*;

use crate::editor::model::document::{italic_closes, tick_end};
use crate::model::block::{
    block_markdown, copy_spans, full_text, lemma_text_prefix_len_mono, plain_span, spans_view,
    text_prefix, Block, BlockType, BlockView, SpanView, TextSpan,
};
use crate::markdown::parser::heading_level;
use crate::text::{
    char_count_bound, chars_of, find_from, find_seq, lemma_find_from, push_char, push_chars,
    push_str, skip_white_space, starts_with, string_of, trim_start,
};

verus! {

/// A document: its blocks and the next identity to hand out.
#[derive(Debug)]
pub struct Document {
    pub blocks: Vec<Block>,
    pub(crate) next_id: u64,
}

/// The blocks of a list, abstractly.
pub open spec fn blocks_view(v: Seq<Block>) -> Seq<BlockView> {
    v.map_values(|b: Block| b@)
}

/// The characters of block `idx` and `extra` more fit in a `usize`.
pub open spec fn text_fits(blocks: Seq<BlockView>, idx: int, extra: int) -> bool {
    0 <= idx < blocks.len() ==> full_text(blocks[idx].content).len() + extra <= usize::MAX
}

impl Document {
    /// The blocks, abstractly.
    pub closed spec fn blocks_view(&self) -> Seq<BlockView> {
        blocks_view(self.blocks@)
    }

    /// The identity `generate_id` hands out next.
    pub closed spec fn next_id_value(&self) -> u64 {
        self.next_id
    }

    /// The abstract blocks are those of the `blocks` field.
    pub(crate) proof fn lemma_view(&self)
        ensures
            self.blocks_view() == blocks_view(self.blocks@),
            self.next_id_value() == self.next_id,
    {
    }

    /// A new identity: the current counter, which then advances.
    pub fn generate_id(&mut self) -> (id: u64)
        requires
            old(self).next_id_value() < u64::MAX,
        ensures
            id == old(self).next_id_value(),
            final(self).next_id_value() == old(self).next_id_value() + 1,
            final(self).blocks_view() == old(self).blocks_view(),
    {
        let id = self.next_id;
        self.next_id = self.next_id + 1;
        id
    }
}

/// Markdown prefix of a block kind.
pub open spec fn type_prefix(ty: BlockType) -> Seq<char> {
    match ty {
        BlockType::Heading1 => seq!['#', ' '],
        BlockType::Heading2 => seq!['#', '#', ' '],
        BlockType::Heading3 => seq!['#', '#', '#', ' '],
        BlockType::Quote => seq!['>', ' '],
        _ => seq![],
    }
}

/// Markdown of blocks `i..`: prefix and Markdown of each, separated by a
/// blank line.
pub open spec fn doc_markdown_from(blocks: Seq<BlockView>, i: int) -> Seq<char>
    decreases blocks.len() - i,
{
    if i < 0 || i >= blocks.len() {
        seq![]
    } else {
        type_prefix(blocks[i].ty) + block_markdown(blocks[i]) + (if i < blocks.len() - 1 {
            seq!['\n', '\n']
        } else {
            seq![]
        }) + doc_markdown_from(blocks, i + 1)
    }
}

/// Markdown of a document.
pub open spec fn doc_markdown(blocks: Seq<BlockView>) -> Seq<char> {
    doc_markdown_from(blocks, 0)
}

fn push_type_prefix(buf: &mut String, ty: BlockType)
    ensures
        final(buf)@ == old(buf)@ + type_prefix(ty),
{
    let ghost b0 = buf@;
    match ty {
        BlockType::Heading1 => {
            push_char(buf, '#');
            push_char(buf, ' ');
        },
        BlockType::Heading2 => {
            push_char(buf, '#');
            push_char(buf, '#');
            push_char(buf, ' ');
        },
        BlockType::Heading3 => {
            push_char(buf, '#');
            push_char(buf, '#');
            push_char(buf, '#');
            push_char(buf, ' ');
        },
        BlockType::Quote => {
            push_char(buf, '>');
            push_char(buf, ' ');
        },
        _ => {},
    }
    assert(buf@ =~= b0 + type_prefix(ty));
}

/// The blocks every editor starts with.
pub open spec fn starting_blocks() -> Seq<BlockView> {
    seq![
        BlockView { id: 1, ty: BlockType::Heading1, content: seq![plain_span("Bienvenue dans Ndown"@)], is_dirty: true },
        BlockView { id: 2, ty: BlockType::Paragraph, content: seq![plain_span("Ceci est un éditeur basé sur des blocs."@)], is_dirty: true },
        BlockView { id: 3, ty: BlockType::Quote, content: seq![plain_span("Essayez de taper # titre ou **gras**."@)], is_dirty: true },
        BlockView { id: 4, ty: BlockType::Paragraph, content: seq![plain_span("Faites Ctrl+S pour sauvegarder dans story.md"@)], is_dirty: true },
    ]
}

impl Document {
    /// The document every editor starts with.
    pub fn new() -> (r: Self)
        ensures
            r.blocks_view() == starting_blocks(),
            r.next_id_value() == 5,
    {
        Self::default()
    }

    /// The Markdown of the document (see `doc_markdown`), the text that
    /// saving writes.
    pub fn to_markdown(&self) -> (r: String)
        ensures
            r@ == doc_markdown(self.blocks_view()),
    {
        let mut out = String::new();
        let ghost v = self.blocks_view();
        let mut i: usize = 0;
        while i < self.blocks.len()
            invariant
                v == blocks_view(self.blocks@),
                i <= v.len(),
                doc_markdown(v) == out@ + doc_markdown_from(v, i as int),
            decreases v.len() - i,
        {
            let ghost before = out@;
            push_type_prefix(&mut out, self.blocks[i].ty);
            self.blocks[i].write_markdown_to(&mut out);
            if i < self.blocks.len() - 1 {
                push_char(&mut out, '\n');
                push_char(&mut out, '\n');
            }
            assert(v[i as int] == self.blocks@[i as int]@);
            assert(out@ + doc_markdown_from(v, i + 1) =~= before + doc_markdown_from(v, i as int));
            i = i + 1;
        }
        assert(out@ + doc_markdown_from(v, i as int) =~= out@);
        out
    }
}

impl Default for Document {
    fn default() -> (r: Self)
        ensures
            r.blocks_view() == starting_blocks(),
            r.next_id_value() == 5,
    {
        let b1 = Block::new(1, BlockType::Heading1, "Bienvenue dans Ndown");
        let b2 = Block::new(2, BlockType::Paragraph, "Ceci est un éditeur basé sur des blocs.");
        let b3 = Block::new(3, BlockType::Quote, "Essayez de taper # titre ou **gras**.");
        let b4 = Block::new(4, BlockType::Paragraph, "Faites Ctrl+S pour sauvegarder dans story.md");
        let blocks = vec![b1, b2, b3, b4];
        let r = Document { blocks, next_id: 5 };
        assert(r.blocks_view() =~= seq![b1@, b2@, b3@, b4@]);
        r
    }
}

/// A paragraph whose text starts with `"# "`, `"## "` or `"> "` becomes a
/// level-1 heading, a level-2 heading or a quote whose only span is the
/// plain rest of the text; the number of removed characters is returned.
pub open spec fn converted_block(b: BlockView) -> (BlockView, Option<usize>) {
    let t = full_text(b.content);
    if b.ty == BlockType::Paragraph {
        if starts_with(t, seq!['#', ' ']) {
            (
                BlockView {
                    ty: BlockType::Heading1,
                    content: seq![plain_span(t.subrange(2, t.len() as int))],
                    is_dirty: true,
                    ..b
                },
                Some(2usize),
            )
        } else if starts_with(t, seq!['#', '#', ' ']) {
            (
                BlockView {
                    ty: BlockType::Heading2,
                    content: seq![plain_span(t.subrange(3, t.len() as int))],
                    is_dirty: true,
                    ..b
                },
                Some(3usize),
            )
        } else if starts_with(t, seq!['>', ' ']) {
            (
                BlockView {
                    ty: BlockType::Quote,
                    content: seq![plain_span(t.subrange(2, t.len() as int))],
                    is_dirty: true,
                    ..b
                },
                Some(2usize),
            )
        } else {
            (b, None)
        }
    } else {
        (b, None)
    }
}

/// Effect of `try_convert_block`, and its result.
pub open spec fn doc_after_convert(blocks: Seq<BlockView>, idx: int) -> (
    Seq<BlockView>,
    Option<usize>,
) {
    if 0 <= idx < blocks.len() {
        let (b, r) = converted_block(blocks[idx]);
        (blocks.update(idx, b), r)
    } else {
        (blocks, None)
    }
}

/// Effect of `merge_block_with_prev`: the spans of block `idx` are appended
/// to the block before it; the result is that block's former length.
pub open spec fn doc_after_merge(blocks: Seq<BlockView>, idx: int) -> (
    Seq<BlockView>,
    Option<usize>,
) {
    if idx <= 0 || idx >= blocks.len() {
        (blocks, None)
    } else {
        let prev = blocks[idx - 1];
        let m = BlockView { content: prev.content + blocks[idx].content, is_dirty: true, ..prev };
        (blocks.remove(idx).update(idx - 1, m), Some(full_text(prev.content).len() as usize))
    }
}

/// The first span `k` (from `k` on, `acc` characters before it) whose end
/// is at or after position `c`, with `acc`.
pub open spec fn insert_span_from(c: Seq<SpanView>, ci: int, k: int, acc: int) -> Option<(int, int)>
    decreases c.len() - k,
{
    if k < 0 || k >= c.len() {
        None
    } else if ci <= acc + c[k].text.len() {
        Some((k, acc))
    } else {
        insert_span_from(c, ci, k + 1, acc + c[k].text.len())
    }
}

/// Spans after inserting `ins` at position `ci`: into the first span that
/// reaches `ci`, else at the end of the last span, else as a new plain
/// span.
pub open spec fn content_after_insert(c: Seq<SpanView>, ci: int, ins: Seq<char>) -> Seq<SpanView> {
    match insert_span_from(c, ci, 0, 0) {
        Some((k, acc)) => {
            let t = c[k].text;
            let l = ci - acc;
            c.update(k, SpanView { text: t.subrange(0, l) + ins + t.subrange(l, t.len() as int), ..c[k] })
        },
        None => if c.len() > 0 {
            c.update(c.len() - 1, SpanView { text: c.last().text + ins, ..c.last() })
        } else {
            seq![plain_span(ins)]
        },
    }
}

/// Effect of `insert_text_at`.
pub open spec fn doc_after_insert(blocks: Seq<BlockView>, idx: int, ci: int, ins: Seq<char>) -> Seq<
    BlockView,
> {
    if 0 <= idx < blocks.len() {
        blocks.update(
            idx,
            BlockView {
                content: content_after_insert(blocks[idx].content, ci, ins),
                is_dirty: true,
                ..blocks[idx]
            },
        )
    } else {
        blocks
    }
}

/// The first span `k` (from `k` on, `acc` characters before it) containing
/// position `ci`, with `acc`.
pub open spec fn remove_span_from(c: Seq<SpanView>, ci: int, k: int, acc: int) -> Option<(int, int)>
    decreases c.len() - k,
{
    if k < 0 || k >= c.len() {
        None
    } else if ci < acc + c[k].text.len() {
        Some((k, acc))
    } else {
        remove_span_from(c, ci, k + 1, acc + c[k].text.len())
    }
}

/// Block after removing the character at `ci`, and whether there was one.
pub open spec fn block_after_remove(b: BlockView, ci: int) -> (BlockView, bool) {
    match remove_span_from(b.content, ci, 0, 0) {
        Some((k, acc)) => (
            BlockView {
                content: b.content.update(
                    k,
                    SpanView { text: b.content[k].text.remove(ci - acc), ..b.content[k] },
                ),
                is_dirty: true,
                ..b
            },
            true,
        ),
        None => (b, false),
    }
}

/// Effect of `remove_char_at`, and its result.
pub open spec fn doc_after_remove(blocks: Seq<BlockView>, idx: int, ci: int) -> (
    Seq<BlockView>,
    bool,
) {
    if 0 <= idx < blocks.len() {
        let (b, r) = block_after_remove(blocks[idx], ci);
        (blocks.update(idx, b), r)
    } else {
        (blocks, false)
    }
}

proof fn lemma_insert_span_from(c: Seq<SpanView>, ci: int, k: int, acc: int)
    requires
        0 <= k,
        acc == text_prefix(c, k).len(),
        acc <= ci,
    ensures
        insert_span_from(c, ci, k, acc) matches Some((j, a)) ==> k <= j < c.len() && a
            == text_prefix(c, j).len() && a <= ci <= a + c[j].text.len(),
    decreases c.len() - k,
{
    if 0 <= k < c.len() && !(ci <= acc + c[k].text.len()) {
        lemma_insert_span_from(c, ci, k + 1, acc + c[k].text.len());
    }
}

proof fn lemma_remove_span_from(c: Seq<SpanView>, ci: int, k: int, acc: int)
    requires
        0 <= k,
        acc == text_prefix(c, k).len(),
        acc <= ci,
    ensures
        remove_span_from(c, ci, k, acc) matches Some((j, a)) ==> k <= j < c.len() && a
            == text_prefix(c, j).len() && a <= ci < a + c[j].text.len(),
    decreases c.len() - k,
{
    if 0 <= k < c.len() && !(ci < acc + c[k].text.len()) {
        lemma_remove_span_from(c, ci, k + 1, acc + c[k].text.len());
    }
}

/// `t` with `ins` inserted at character `l`.
fn insert_chars(t: &str, l: usize, ins: &[char]) -> (r: String)
    requires
        l <= t@.len(),
    ensures
        r@ == t@.subrange(0, l as int) + ins@ + t@.subrange(l as int, t@.len() as int),
{
    let chars = chars_of(t);
    let mut r = String::new();
    push_chars(&mut r, &chars, 0, l);
    push_chars(&mut r, ins, 0, ins.len());
    push_chars(&mut r, &chars, l, chars.len());
    assert(ins@.subrange(0, ins@.len() as int) =~= ins@);
    r
}

/// `t` without its character at `l`.
fn remove_char(t: &str, l: usize) -> (r: String)
    requires
        l < t@.len(),
    ensures
        r@ == t@.remove(l as int),
{
    let chars = chars_of(t);
    let n = chars.len();
    let mut r = String::new();
    push_chars(&mut r, &chars, 0, l);
    push_chars(&mut r, &chars, l + 1, n);
    assert(r@ =~= t@.remove(l as int));
    r
}

impl Document {
    /// See `doc_after_convert`.
    pub fn try_convert_block(&mut self, block_idx: usize) -> (r: Option<usize>)
        ensures
            (final(self).blocks_view(), r) == doc_after_convert(old(self).blocks_view(), block_idx as int),
            final(self).next_id_value() == old(self).next_id_value(),
    {
        if block_idx >= self.blocks.len() {
            return None;
        }
        if self.blocks[block_idx].ty != BlockType::Paragraph {
            return None;
        }
        let ghost bv = self.blocks@[block_idx as int]@;
        let text = self.blocks[block_idx].full_text();
        let chars = chars_of(text.as_str());
        let n = chars.len();
        let ghost t = chars@;
        let (ty, k): (BlockType, usize) = if n >= 2 && chars[0] == '#' && chars[1] == ' ' {
            assert(t.subrange(0, 2) =~= seq!['#', ' ']);
            (BlockType::Heading1, 2)
        } else if n >= 3 && chars[0] == '#' && chars[1] == '#' && chars[2] == ' ' {
            assert(t.subrange(0, 3) =~= seq!['#', '#', ' ']);
            assert(!starts_with(t, seq!['#', ' ']));
            (BlockType::Heading2, 3)
        } else if n >= 2 && chars[0] == '>' && chars[1] == ' ' {
            assert(t.subrange(0, 2) =~= seq!['>', ' ']);
            assert(!starts_with(t, seq!['#', ' ']));
            assert(!starts_with(t, seq!['#', '#', ' ']));
            (BlockType::Quote, 2)
        } else {
            assert(!starts_with(t, seq!['#', ' '])) by {
                if n >= 2 {
                    assert(t.subrange(0, 2)[0] == t[0]);
                    assert(t.subrange(0, 2)[1] == t[1]);
                }
            }
            assert(!starts_with(t, seq!['#', '#', ' '])) by {
                if n >= 3 {
                    assert(t.subrange(0, 3)[0] == t[0]);
                    assert(t.subrange(0, 3)[1] == t[1]);
                    assert(t.subrange(0, 3)[2] == t[2]);
                }
            }
            assert(!starts_with(t, seq!['>', ' '])) by {
                if n >= 2 {
                    assert(t.subrange(0, 2)[0] == t[0]);
                    assert(t.subrange(0, 2)[1] == t[1]);
                }
            }
            return None;
        };
        let rest = string_of(&chars, k, n);
        let mut span = TextSpan { text: rest, is_bold: false, is_italic: false, is_code: false };
        let content = vec![span];
        let id = self.blocks[block_idx].id;
        let nb = Block { id, ty, content, is_dirty: true };
        assert(nb@.content =~= seq![plain_span(t.subrange(k as int, n as int))]);
        self.blocks.set(block_idx, nb);
        assert(self.blocks_view() =~= doc_after_convert(old(self).blocks_view(), block_idx as int).0);
        Some(k)
    }

    /// See `doc_after_merge`.
    pub fn merge_block_with_prev(&mut self, block_idx: usize) -> (r: Option<usize>)
        requires
            text_fits(old(self).blocks_view(), block_idx - 1, 0),
        ensures
            (final(self).blocks_view(), r) == doc_after_merge(old(self).blocks_view(), block_idx as int),
            final(self).next_id_value() == old(self).next_id_value(),
    {
        if block_idx == 0 || block_idx >= self.blocks.len() {
            return None;
        }
        let block = self.blocks.remove(block_idx);
        assert(block@ == old(self).blocks_view()[block_idx as int]);
        assert(self.blocks@[block_idx - 1]@ == old(self).blocks_view()[block_idx - 1]);
        let offset = self.blocks[block_idx - 1].text_len();
        let mut content = copy_spans(&self.blocks[block_idx - 1].content);
        let ghost c0 = spans_view(content@);
        let mut i: usize = 0;
        while i < block.content.len()
            invariant
                i <= block.content@.len(),
                spans_view(content@) == c0 + spans_view(block.content@).subrange(0, i as int),
            decreases block.content@.len() - i,
        {
            let sp = block.content[i].clone();
            let ghost prev = content@;
            content.push(sp);
            assert(spans_view(content@) =~= spans_view(prev).push(sp@));
            i = i + 1;
            assert(spans_view(content@) =~= c0 + spans_view(block.content@).subrange(0, i as int));
        }
        assert(spans_view(block.content@).subrange(0, i as int) =~= spans_view(block.content@));
        let id = self.blocks[block_idx - 1].id;
        let ty = self.blocks[block_idx - 1].ty;
        self.blocks.set(block_idx - 1, Block { id, ty, content, is_dirty: true });
        assert(self.blocks_view() =~= doc_after_merge(old(self).blocks_view(), block_idx as int).0);
        Some(offset)
    }

    /// Inserts `text` at character `char_idx` of block `block_idx` (see
    /// `doc_after_insert`); returns the number of inserted characters, 0
    /// when there is no such block.
    pub fn insert_text_at(&mut self, block_idx: usize, char_idx: usize, text: &str) -> (r: usize)
        requires
            text_fits(old(self).blocks_view(), block_idx as int, 0),
        ensures
            final(self).blocks_view() == doc_after_insert(
                old(self).blocks_view(),
                block_idx as int,
                char_idx as int,
                text@,
            ),
            final(self).next_id_value() == old(self).next_id_value(),
            r == if block_idx < old(self).blocks_view().len() {
                text@.len()
            } else {
                0
            },
    {
        if block_idx >= self.blocks.len() {
            return 0;
        }
        let ghost bv = self.blocks@[block_idx as int]@;
        let ghost c = bv.content;
        let ins = chars_of(text);
        let added = ins.len();
        let mut content = copy_spans(&self.blocks[block_idx].content);
        let mut current: usize = 0;
        let mut k: usize = 0;
        let mut inserted = false;
        while k < content.len()
            invariant_except_break
                !inserted,
            invariant
                spans_view(content@) == c,
                full_text(c).len() <= usize::MAX,
                k <= c.len(),
                current == text_prefix(c, k as int).len(),
                current <= char_idx,
                insert_span_from(c, char_idx as int, 0, 0) == insert_span_from(
                    c,
                    char_idx as int,
                    k as int,
                    current as int,
                ),
            ensures
                inserted ==> (insert_span_from(c, char_idx as int, 0, 0) == Some(
                    (k as int, current as int),
                ) && k < c.len() && char_idx <= current + c[k as int].text.len()),
                !inserted ==> insert_span_from(c, char_idx as int, 0, 0) is None,
            decreases c.len() - k,
        {
            proof {
                lemma_text_prefix_len_mono(c, k + 1, c.len() as int);
            }
            assert(c[k as int] == content@[k as int]@);
            let span_len = content[k].len();
            if char_idx <= current + span_len {
                inserted = true;
                break;
            }
            current = current + span_len;
            k = k + 1;
        }
        let ghost before = content@;
        if inserted {
            assert(c[k as int] == content@[k as int]@);
            let local = char_idx - current;
            let new_text = insert_chars(content[k].text.as_str(), local, &ins);
            let sp = TextSpan {
                text: new_text,
                is_bold: content[k].is_bold,
                is_italic: content[k].is_italic,
                is_code: content[k].is_code,
            };
            content.set(k, sp);
            assert(spans_view(content@) =~= spans_view(before).update(k as int, sp@));
        } else if content.len() > 0 {
            let last = content.len() - 1;
            assert(c[last as int] == content@[last as int]@);
            let mut new_text = content[last].text.clone();
            push_str(&mut new_text, text);
            let sp = TextSpan {
                text: new_text,
                is_bold: content[last].is_bold,
                is_italic: content[last].is_italic,
                is_code: content[last].is_code,
            };
            content.set(last, sp);
            assert(spans_view(content@) =~= spans_view(before).update(last as int, sp@));
        } else {
            let sp = TextSpan::new(text);
            content.push(sp);
            assert(spans_view(content@) =~= seq![plain_span(text@)]);
        }
        assert(spans_view(content@) =~= content_after_insert(c, char_idx as int, text@));
        let id = self.blocks[block_idx].id;
        let ty = self.blocks[block_idx].ty;
        self.blocks.set(block_idx, Block { id, ty, content, is_dirty: true });
        assert(self.blocks_view() =~= doc_after_insert(
            old(self).blocks_view(),
            block_idx as int,
            char_idx as int,
            text@,
        ));
        added
    }

    /// Removes the character at `char_idx` of block `block_idx` (see
    /// `doc_after_remove`).
    pub fn remove_char_at(&mut self, block_idx: usize, char_idx: usize) -> (r: bool)
        requires
            text_fits(old(self).blocks_view(), block_idx as int, 0),
        ensures
            (final(self).blocks_view(), r) == doc_after_remove(
                old(self).blocks_view(),
                block_idx as int,
                char_idx as int,
            ),
            final(self).next_id_value() == old(self).next_id_value(),
    {
        if block_idx >= self.blocks.len() {
            return false;
        }
        let ghost bv = self.blocks@[block_idx as int]@;
        let ghost c = bv.content;
        let mut current: usize = 0;
        let mut k: usize = 0;
        let mut found = false;
        while k < self.blocks[block_idx].content.len()
            invariant_except_break
                !found,
            invariant
                block_idx < self.blocks@.len(),
                self.blocks@[block_idx as int]@ == bv,
                c == bv.content,
                full_text(c).len() <= usize::MAX,
                k <= c.len(),
                current == text_prefix(c, k as int).len(),
                current <= char_idx,
                remove_span_from(c, char_idx as int, 0, 0) == remove_span_from(
                    c,
                    char_idx as int,
                    k as int,
                    current as int,
                ),
            ensures
                found ==> (remove_span_from(c, char_idx as int, 0, 0) == Some(
                    (k as int, current as int),
                ) && k < c.len() && current <= char_idx < current + c[k as int].text.len()),
                !found ==> remove_span_from(c, char_idx as int, 0, 0) is None,
            decreases c.len() - k,
        {
            proof {
                lemma_text_prefix_len_mono(c, k + 1, c.len() as int);
            }
            assert(c[k as int] == self.blocks@[block_idx as int].content@[k as int]@);
            let span_len = self.blocks[block_idx].content[k].len();
            if char_idx < current + span_len {
                found = true;
                break;
            }
            current = current + span_len;
            k = k + 1;
        }
        if !found {
            return false;
        }
        let mut content = copy_spans(&self.blocks[block_idx].content);
        assert(c[k as int] == content@[k as int]@);
        let ghost before = content@;
        let new_text = remove_char(content[k].text.as_str(), char_idx - current);
        let sp = TextSpan {
            text: new_text,
            is_bold: content[k].is_bold,
            is_italic: content[k].is_italic,
            is_code: content[k].is_code,
        };
        content.set(k, sp);
        assert(spans_view(content@) =~= spans_view(before).update(k as int, sp@));
        let id = self.blocks[block_idx].id;
        let ty = self.blocks[block_idx].ty;
        self.blocks.set(block_idx, Block { id, ty, content, is_dirty: true });
        assert(self.blocks_view() =~= doc_after_remove(
            old(self).blocks_view(),
            block_idx as int,
            char_idx as int,
        ).0);
        true
    }
}

/// State of the inline-formatting scan over a block's Markdown: position,
/// open bold and italic markers, the characters of the span being built,
/// the finished spans, and whether a marker was consumed.
pub struct SpanFmtState {
    pub i: int,
    pub bold: bool,
    pub italic: bool,
    pub cur: Seq<char>,
    pub spans: Seq<SpanView>,
    pub changed: bool,
}

/// Closes the span being built, if it has characters, in the current
/// bold and italic style.
pub open spec fn flush(st: SpanFmtState) -> SpanFmtState {
    if st.cur.len() > 0 {
        SpanFmtState {
            spans: st.spans.push(
                SpanView { text: st.cur, is_bold: st.bold, is_italic: st.italic, is_code: false },
            ),
            cur: seq![],
            ..st
        }
    } else {
        st
    }
}

/// One step of the scan at `st.i`: a code span with a closing tick becomes
/// a code span of its own; at `**` the span being built is closed and bold
/// toggles when open or closed later by `**`; at a `*` the span being built
/// is closed and italic toggles when open or closed later by a lone `*`;
/// other characters, and unmatched markers, join the span being built.
pub open spec fn span_fmt_step(s: Seq<char>, st: SpanFmtState) -> SpanFmtState {
    let i = st.i;
    if s[i] == '`' && tick_end(s, i) < s.len() {
        let j = tick_end(s, i);
        let f = flush(st);
        SpanFmtState {
            i: j + 1,
            spans: f.spans.push(
                SpanView {
                    text: s.subrange(i + 1, j),
                    is_bold: false,
                    is_italic: false,
                    is_code: true,
                },
            ),
            changed: true,
            ..f
        }
    } else {
        let dbl = i + 1 < s.len() && s[i] == '*' && s[i + 1] == '*';
        let st1 = if dbl {
            flush(st)
        } else {
            st
        };
        if dbl && (st1.bold || find_from(s, seq!['*', '*'], i + 2) is Some) {
            SpanFmtState { i: i + 2, bold: !st1.bold, changed: true, ..st1 }
        } else if s[i] == '*' {
            let st2 = flush(st1);
            if st2.italic || italic_closes(s, i + 1) {
                SpanFmtState { i: i + 1, italic: !st2.italic, changed: true, ..st2 }
            } else {
                SpanFmtState { i: i + 1, cur: st2.cur.push(s[i]), ..st2 }
            }
        } else {
            SpanFmtState { i: i + 1, cur: st1.cur.push(s[i]), ..st1 }
        }
    }
}

/// The scan from `st` to the end of `s`.
pub open spec fn span_fmt_run(s: Seq<char>, st: SpanFmtState) -> SpanFmtState
    decreases s.len() - st.i,
{
    if st.i < 0 || st.i >= s.len() {
        st
    } else {
        proof {
            lemma_find_from(s, seq!['`'], st.i + 1);
        }
        span_fmt_run(s, span_fmt_step(s, st))
    }
}

/// The finished scan of Markdown `md`, its last span closed.
pub open spec fn span_fmt_result(md: Seq<char>) -> SpanFmtState {
    flush(
        span_fmt_run(
            md,
            SpanFmtState {
                i: 0,
                bold: false,
                italic: false,
                cur: seq![],
                spans: seq![],
                changed: false,
            },
        ),
    )
}

/// Block after `apply_inline_formatting`, and its result: when its
/// Markdown holds `*` or `` ` `` and the scan consumed a marker, the block
/// takes the scanned spans.
pub open spec fn block_after_format(b: BlockView) -> (BlockView, bool) {
    let md = block_markdown(b);
    let f = span_fmt_result(md);
    if (md.contains('*') || md.contains('`')) && f.changed {
        (BlockView { content: f.spans, is_dirty: true, ..b }, true)
    } else {
        (b, false)
    }
}

/// Effect of `apply_inline_formatting`, and its result.
pub open spec fn doc_after_format(blocks: Seq<BlockView>, idx: int) -> (Seq<BlockView>, bool) {
    if 0 <= idx < blocks.len() {
        let (b, r) = block_after_format(blocks[idx]);
        (blocks.update(idx, b), r)
    } else {
        (blocks, false)
    }
}

/// The scan state of the executable variables.
pub open spec fn span_state_of(
    i: usize,
    bold: bool,
    italic: bool,
    cur: Seq<char>,
    spans: Seq<TextSpan>,
    changed: bool,
) -> SpanFmtState {
    SpanFmtState { i: i as int, bold, italic, cur, spans: spans_view(spans), changed }
}

/// `flush` on the executable state.
fn flush_exec(cur: &mut String, spans: &mut Vec<TextSpan>, bold: bool, italic: bool)
    ensures
        ({
            let f = flush(
                SpanFmtState {
                    i: 0,
                    bold,
                    italic,
                    cur: old(cur)@,
                    spans: spans_view(old(spans)@),
                    changed: false,
                },
            );
            final(cur)@ == f.cur && spans_view(final(spans)@) == f.spans
        }),
{
    let chars = chars_of(cur.as_str());
    if chars.len() > 0 {
        let text = cur.clone();
        let sp = TextSpan { text, is_bold: bold, is_italic: italic, is_code: false };
        let ghost before = spans@;
        spans.push(sp);
        assert(spans_view(spans@) =~= spans_view(before).push(sp@));
        *cur = String::new();
    }
}

/// `italic_closes` (executable).
fn italic_closes_at(s: &[char], start: usize) -> (b: bool)
    ensures
        b == italic_closes(s@, start as int),
{
    let mut k = start;
    while k < s.len()
        invariant
            start <= k,
            italic_closes(s@, start as int) == italic_closes(s@, k as int),
        decreases s@.len() - k,
    {
        if s[k] == '*' {
            if k + 1 < s.len() && s[k + 1] == '*' {
                k = k + 2;
                continue;
            }
            return true;
        }
        k = k + 1;
    }
    false
}

/// `s` contains `c` (executable).
fn has_char(s: &[char], c: char) -> (b: bool)
    ensures
        b == s@.contains(c),
{
    let mut k: usize = 0;
    while k < s.len()
        invariant
            k <= s@.len(),
            forall|j: int| 0 <= j < k ==> s@[j] != c,
        decreases s@.len() - k,
    {
        if s[k] == c {
            assert(s@[k as int] == c);
            return true;
        }
        k = k + 1;
    }
    false
}

impl Document {
    /// Turns the Markdown markers of block `block_idx` into styled spans (see
    /// `block_after_format`); true when a marker was consumed.
    pub fn apply_inline_formatting(&mut self, block_idx: usize) -> (r: bool)
        ensures
            (final(self).blocks_view(), r) == doc_after_format(old(self).blocks_view(), block_idx as int),
            final(self).next_id_value() == old(self).next_id_value(),
    {
        if block_idx >= self.blocks.len() {
            return false;
        }
        let md = self.blocks[block_idx].to_markdown();
        let chars = chars_of(md.as_str());
        let ghost s = chars@;
        let len = chars.len();
        if !has_char(&chars, '*') && !has_char(&chars, '`') {
            return false;
        }
        let dstar = vec!['*', '*'];
        let tick = vec!['`'];
        assert(dstar@ == seq!['*', '*']);
        assert(tick@ == seq!['`']);
        let mut spans: Vec<TextSpan> = Vec::new();
        let mut current_text = String::new();
        let mut i: usize = 0;
        let mut is_bold = false;
        let mut is_italic = false;
        let mut changed = false;
        let ghost init = span_state_of(0, false, false, seq![], seq![], false);
        assert(spans_view(Seq::<TextSpan>::empty()) =~= Seq::<SpanView>::empty());
        assert(init == SpanFmtState { i: 0, bold: false, italic: false, cur: seq![], spans: seq![], changed: false });
        while i < len
            invariant
                s == chars@,
                len == s.len(),
                dstar@ == seq!['*', '*'],
                tick@ == seq!['`'],
                i <= len,
                span_fmt_run(s, init) == span_fmt_run(
                    s,
                    span_state_of(i, is_bold, is_italic, current_text@, spans@, changed),
                ),
            decreases len - i,
        {
            let ghost st = span_state_of(i, is_bold, is_italic, current_text@, spans@, changed);
            proof {
                lemma_find_from(s, seq!['`'], i + 1);
            }
            if chars[i] == '`' {
                if let Some(j) = find_seq(&chars, &tick, i + 1) {
                    flush_exec(&mut current_text, &mut spans, is_bold, is_italic);
                    let content = string_of(&chars, i + 1, j);
                    let sp = TextSpan { text: content, is_bold: false, is_italic: false, is_code: true };
                    let ghost before = spans@;
                    spans.push(sp);
                    assert(spans_view(spans@) =~= spans_view(before).push(sp@));
                    i = j + 1;
                    changed = true;
                    assert(span_state_of(i, is_bold, is_italic, current_text@, spans@, changed)
                        == span_fmt_step(s, st));
                    continue;
                }
            }
            let dbl = i + 1 < len && chars[i] == '*' && chars[i + 1] == '*';
            if dbl {
                flush_exec(&mut current_text, &mut spans, is_bold, is_italic);
                let has_closing = if !is_bold {
                    find_seq(&chars, &dstar, i + 2).is_some()
                } else {
                    true
                };
                if has_closing {
                    is_bold = !is_bold;
                    i = i + 2;
                    changed = true;
                    assert(span_state_of(i, is_bold, is_italic, current_text@, spans@, changed)
                        == span_fmt_step(s, st));
                    continue;
                }
            }
            if chars[i] == '*' {
                flush_exec(&mut current_text, &mut spans, is_bold, is_italic);
                let has_closing = if !is_italic {
                    italic_closes_at(&chars, i + 1)
                } else {
                    true
                };
                if has_closing {
                    is_italic = !is_italic;
                    i = i + 1;
                    changed = true;
                    assert(span_state_of(i, is_bold, is_italic, current_text@, spans@, changed)
                        == span_fmt_step(s, st));
                    continue;
                }
            }
            push_char(&mut current_text, chars[i]);
            i = i + 1;
            assert(span_state_of(i, is_bold, is_italic, current_text@, spans@, changed)
                == span_fmt_step(s, st));
        }
        flush_exec(&mut current_text, &mut spans, is_bold, is_italic);
        if changed {
            let id = self.blocks[block_idx].id;
            let ty = self.blocks[block_idx].ty;
            self.blocks.set(block_idx, Block { id, ty, content: spans, is_dirty: true });
            assert(self.blocks_view() =~= doc_after_format(old(self).blocks_view(), block_idx as int).0);
        }
        changed
    }
}

/// Length of the text of spans `c[..m]` after replacing span `k` by `x`.
pub proof fn lemma_text_prefix_update(c: Seq<SpanView>, k: int, m: int, x: SpanView)
    requires
        0 <= k < c.len(),
        0 <= m <= c.len(),
    ensures
        text_prefix(c.update(k, x), m).len() == if m <= k {
            text_prefix(c, m).len() as int
        } else {
            text_prefix(c, m).len() - c[k].text.len() + x.text.len()
        },
    decreases m,
{
    if m > 0 {
        lemma_text_prefix_update(c, k, m - 1, x);
    }
}

/// Inserting lengthens a block's text by the inserted characters.
pub proof fn lemma_insert_len(c: Seq<SpanView>, ci: int, ins: Seq<char>)
    requires
        0 <= ci,
    ensures
        full_text(content_after_insert(c, ci, ins)).len() == full_text(c).len() + ins.len(),
{
    lemma_insert_span_from(c, ci, 0, 0);
    match insert_span_from(c, ci, 0, 0) {
        Some((k, acc)) => {
            let t = c[k].text;
            let l = ci - acc;
            let x = SpanView { text: t.subrange(0, l) + ins + t.subrange(l, t.len() as int), ..c[k] };
            lemma_text_prefix_update(c, k, c.len() as int, x);
        },
        None => {
            if c.len() > 0 {
                let x = SpanView { text: c.last().text + ins, ..c.last() };
                lemma_text_prefix_update(c, c.len() - 1, c.len() as int, x);
            } else {
                let n = seq![plain_span(ins)];
                assert(text_prefix(n, 0) =~= Seq::<char>::empty());
                assert(text_prefix(n, 1) =~= ins);
            }
        },
    }
}

/// Removing never lengthens a block's text.
pub proof fn lemma_remove_len(b: BlockView, ci: int)
    requires
        0 <= ci,
    ensures
        full_text(block_after_remove(b, ci).0.content).len() <= full_text(b.content).len(),
{
    lemma_remove_span_from(b.content, ci, 0, 0);
    match remove_span_from(b.content, ci, 0, 0) {
        Some((k, acc)) => {
            let x = SpanView { text: b.content[k].text.remove(ci - acc), ..b.content[k] };
            lemma_text_prefix_update(b.content, k, b.content.len() as int, x);
        },
        None => {},
    }
}

/// Removal keeps every block's text fitting.
pub proof fn lemma_remove_keeps_fit(blocks: Seq<BlockView>, idx: int, ci: int, j: int)
    requires
        text_fits(blocks, j, 0),
        0 <= ci,
    ensures
        text_fits(doc_after_remove(blocks, idx, ci).0, j, 0),
        doc_after_remove(blocks, idx, ci).0.len() == blocks.len(),
{
    if 0 <= idx < blocks.len() {
        lemma_remove_len(blocks[idx], ci);
    }
}

/// Block `idx` after `n` removals of its character at `ci`.
pub open spec fn remove_n(blocks: Seq<BlockView>, idx: int, ci: int, n: nat) -> Seq<BlockView>
    decreases n,
{
    if n == 0 {
        blocks
    } else {
        remove_n(doc_after_remove(blocks, idx, ci).0, idx, ci, (n - 1) as nat)
    }
}

/// Repeated removals keep every block's text fitting.
pub proof fn lemma_remove_n_keeps_fit(blocks: Seq<BlockView>, idx: int, ci: int, n: nat, j: int)
    requires
        text_fits(blocks, j, 0),
        0 <= ci,
    ensures
        text_fits(remove_n(blocks, idx, ci, n), j, 0),
        remove_n(blocks, idx, ci, n).len() == blocks.len(),
    decreases n,
{
    if n > 0 {
        lemma_remove_keeps_fit(blocks, idx, ci, j);
        lemma_remove_n_keeps_fit(doc_after_remove(blocks, idx, ci).0, idx, ci, (n - 1) as nat, j);
    }
}

/// Effect of `delete_range` (see the editor document's version): within a
/// block the characters from `start.1` to `end.1` are removed one at a
/// time; across blocks the tail of the first and the head of the last are
/// removed, the blocks between dropped, and the next block merged into the
/// first.
pub open spec fn doc_after_delete_range(
    blocks: Seq<BlockView>,
    start: (int, int),
    end: (int, int),
) -> Seq<BlockView> {
    if start.0 == end.0 {
        remove_n(blocks, start.0, start.1, (end.1 - start.1) as nat)
    } else {
        let first_len = full_text(blocks[start.0].content).len() as int;
        let b1 = remove_n(
            blocks,
            start.0,
            start.1,
            (if first_len > start.1 {
                first_len - start.1
            } else {
                0
            }) as nat,
        );
        let b2 = remove_n(b1, end.0, 0, end.1 as nat);
        let b3 = if end.0 > start.0 + 1 {
            b2.subrange(0, start.0 + 1) + b2.subrange(end.0, b2.len() as int)
        } else {
            b2
        };
        if start.0 + 1 < b3.len() {
            doc_after_merge(b3, start.0 + 1).0
        } else {
            b3
        }
    }
}

/// Effect of `wrap_selection`: `marker` inserted at `end`, then at `start`,
/// then inline formatting applied.
pub open spec fn doc_after_wrap(
    blocks: Seq<BlockView>,
    idx: int,
    start: int,
    end: int,
    marker: Seq<char>,
) -> Seq<BlockView> {
    if 0 <= idx < blocks.len() {
        let b1 = doc_after_insert(blocks, idx, end, marker);
        let b2 = doc_after_insert(b1, idx, start, marker);
        doc_after_format(b2, idx).0
    } else {
        blocks
    }
}

impl Document {
    /// Surrounds characters `start..end` of block `block_idx` with `marker`
    /// and applies inline formatting (see `doc_after_wrap`).
    pub fn wrap_selection(&mut self, block_idx: usize, start: usize, end: usize, marker: &str)
        requires
            text_fits(old(self).blocks_view(), block_idx as int, marker@.len() as int),
        ensures
            final(self).blocks_view() == doc_after_wrap(
                old(self).blocks_view(),
                block_idx as int,
                start as int,
                end as int,
                marker@,
            ),
            final(self).next_id_value() == old(self).next_id_value(),
    {
        if block_idx >= self.blocks.len() {
            return ;
        }
        proof {
            lemma_insert_len(self.blocks_view()[block_idx as int].content, end as int, marker@);
        }
        self.insert_text_at(block_idx, end, marker);
        self.insert_text_at(block_idx, start, marker);
        self.apply_inline_formatting(block_idx);
    }

    /// Deletes the text between (block, character) positions `start` and
    /// `end` (see `doc_after_delete_range`) and returns `start`.
    pub fn delete_range(&mut self, start: (usize, usize), end: (usize, usize)) -> (r: (
        usize,
        usize,
    ))
        requires
            start.0 == end.0 ==> start.1 <= end.1,
            start.0 != end.0 ==> start.0 < old(self).blocks_view().len(),
            end.0 > start.0 + 1 ==> end.0 <= old(self).blocks_view().len(),
            text_fits(old(self).blocks_view(), start.0 as int, 0),
            text_fits(old(self).blocks_view(), end.0 as int, 0),
        ensures
            r == start,
            final(self).blocks_view() == doc_after_delete_range(
                old(self).blocks_view(),
                (start.0 as int, start.1 as int),
                (end.0 as int, end.1 as int),
            ),
            final(self).next_id_value() == old(self).next_id_value(),
    {
        let (start_blk, start_char) = start;
        let (end_blk, end_char) = end;
        let ghost v0 = self.blocks_view();
        if start_blk == end_blk {
            let count = end_char - start_char;
            let mut done: usize = 0;
            while done < count
                invariant
                    done <= count,
                    self.next_id_value() == old(self).next_id_value(),
                    text_fits(self.blocks_view(), start_blk as int, 0),
                    remove_n(v0, start_blk as int, start_char as int, count as nat) == remove_n(
                        self.blocks_view(),
                        start_blk as int,
                        start_char as int,
                        (count - done) as nat,
                    ),
                decreases count - done,
            {
                proof {
                    lemma_remove_keeps_fit(self.blocks_view(), start_blk as int, start_char as int, start_blk as int);
                }
                self.remove_char_at(start_blk, start_char);
                done = done + 1;
            }
            return (start_blk, start_char);
        }
        proof {
            self.lemma_view();
            assert(self.blocks@[start_blk as int]@ == v0[start_blk as int]);
        }
        let first_len = self.blocks[start_blk].text_len();
        let n1: usize = if first_len > start_char {
            first_len - start_char
        } else {
            0
        };
        let mut done: usize = 0;
        while done < n1
            invariant
                done <= n1,
                self.next_id_value() == old(self).next_id_value(),
                text_fits(self.blocks_view(), start_blk as int, 0),
                text_fits(self.blocks_view(), end_blk as int, 0),
                remove_n(v0, start_blk as int, start_char as int, n1 as nat) == remove_n(
                    self.blocks_view(),
                    start_blk as int,
                    start_char as int,
                    (n1 - done) as nat,
                ),
            decreases n1 - done,
        {
            proof {
                lemma_remove_keeps_fit(self.blocks_view(), start_blk as int, start_char as int, start_blk as int);
                lemma_remove_keeps_fit(self.blocks_view(), start_blk as int, start_char as int, end_blk as int);
            }
            self.remove_char_at(start_blk, start_char);
            done = done + 1;
        }
        let ghost v1 = self.blocks_view();
        let mut done: usize = 0;
        while done < end_char
            invariant
                done <= end_char,
                self.next_id_value() == old(self).next_id_value(),
                text_fits(self.blocks_view(), end_blk as int, 0),
                text_fits(self.blocks_view(), start_blk as int, 0),
                remove_n(v1, end_blk as int, 0, end_char as nat) == remove_n(
                    self.blocks_view(),
                    end_blk as int,
                    0,
                    (end_char - done) as nat,
                ),
            decreases end_char - done,
        {
            proof {
                lemma_remove_keeps_fit(self.blocks_view(), end_blk as int, 0, end_blk as int);
                lemma_remove_keeps_fit(self.blocks_view(), end_blk as int, 0, start_blk as int);
            }
            self.remove_char_at(end_blk, 0);
            done = done + 1;
        }
        let ghost v2 = self.blocks_view();
        proof {
            lemma_remove_n_keeps_fit(v0, start_blk as int, start_char as int, n1 as nat, start_blk as int);
            lemma_remove_n_keeps_fit(v1, end_blk as int, 0, end_char as nat, end_blk as int);
            self.lemma_view();
            assert(v1 == remove_n(v0, start_blk as int, start_char as int, n1 as nat));
            assert(v2 == remove_n(v1, end_blk as int, 0, end_char as nat));
            assert(v2.len() == v0.len());
            assert(self.blocks@.len() == v2.len());
        }
        let nb = self.blocks.len();
        assert(start_blk < nb);
        if end_blk > start_blk + 1 {
            let to_remove = end_blk - start_blk - 1;
            let mut k: usize = 0;
            while k < to_remove
                invariant
                    k <= to_remove,
                    to_remove == end_blk - start_blk - 1,
                    end_blk <= v2.len(),
                    start_blk < v2.len(),
                    text_fits(v2, start_blk as int, 0),
                    self.next_id_value() == old(self).next_id_value(),
                    self.blocks_view() == v2.subrange(0, start_blk + 1) + v2.subrange(
                        start_blk + 1 + k,
                        v2.len() as int,
                    ),
                decreases to_remove - k,
            {
                proof {
                    self.lemma_view();
                }
                assert(self.blocks_view().len() == self.blocks@.len());
                assert(self.blocks@.len() == v2.len() - k);
                let ghost before = self.blocks@;
                self.blocks.remove(start_blk + 1);
                assert(blocks_view(self.blocks@) =~= blocks_view(before).remove(start_blk + 1));
                k = k + 1;
                assert(self.blocks_view() =~= v2.subrange(0, start_blk + 1) + v2.subrange(
                    start_blk + 1 + k,
                    v2.len() as int,
                ));
            }
        }
        proof {
            self.lemma_view();
        }
        if start_blk + 1 < self.blocks.len() {
            assert(self.blocks_view()[start_blk as int] == v2[start_blk as int]);
            self.merge_block_with_prev(start_blk + 1);
        }
        (start_blk, start_char)
    }
}

impl Document {
    /// Number of characters of block `idx` (at most `isize::MAX`, as for
    /// any text in memory).
    pub fn block_len(&self, idx: usize) -> (n: usize)
        requires
            idx < self.blocks_view().len(),
        ensures
            n == full_text(self.blocks_view()[idx as int].content).len(),
            n <= isize::MAX,
    {
        proof {
            self.lemma_view();
        }
        let t = self.blocks[idx].full_text();
        char_count_bound(t.as_str());
        chars_of(t.as_str()).len()
    }

    /// The identity `generate_id` hands out next.
    pub fn peek_next_id(&self) -> (r: u64)
        ensures
            r == self.next_id_value(),
    {
        self.next_id
    }

    /// Inserts `block` at `idx`.
    pub fn insert_block(&mut self, idx: usize, block: Block)
        requires
            idx <= old(self).blocks_view().len(),
        ensures
            final(self).blocks_view() == old(self).blocks_view().insert(idx as int, block@),
            final(self).next_id_value() == old(self).next_id_value(),
    {
        let ghost before = self.blocks@;
        let ghost bv = block@;
        self.blocks.insert(idx, block);
        assert(blocks_view(self.blocks@) =~= blocks_view(before).insert(idx as int, bv));
    }
}

/// A saved heading keeps its level: the Markdown of a document whose first
/// block is a level-`n` heading (`n` from 1 to 3) starts with exactly `n`
/// `'#'` characters and a space, and reading that line back as Markdown
/// gives level `n` again; a quote starts with `"> "`.
pub proof fn law_saved_heading_keeps_level(blocks: Seq<BlockView>)
    requires
        blocks.len() > 0,
    ensures
        ({
            let md = doc_markdown(blocks);
            &&& blocks[0].ty == BlockType::Heading1 ==> md.subrange(0, 2) == seq!['#', ' ']
                && heading_level(md) == Some(1u8)
            &&& blocks[0].ty == BlockType::Heading2 ==> md.subrange(0, 3) == seq!['#', '#', ' ']
                && heading_level(md) == Some(2u8)
            &&& blocks[0].ty == BlockType::Heading3 ==> md.subrange(0, 4) == seq!['#', '#', '#', ' ']
                && heading_level(md) == Some(3u8)
            &&& blocks[0].ty == BlockType::Quote ==> md.subrange(0, 2) == seq!['>', ' ']
        }),
{
    let md = doc_markdown(blocks);
    let p = type_prefix(blocks[0].ty);
    assert(md == p + (block_markdown(blocks[0]) + (if 0 < blocks.len() - 1 {
        seq!['\n', '\n']
    } else {
        seq![]
    }) + doc_markdown_from(blocks, 1))) by {
        assert(md =~= p + (block_markdown(blocks[0]) + (if 0 < blocks.len() - 1 {
            seq!['\n', '\n']
        } else {
            seq![]
        }) + doc_markdown_from(blocks, 1)));
    }
    assert(md.subrange(0, p.len() as int) =~= p);
    let t = trim_start(md);
    if p.len() > 0 {
        assert(md[0] == p[0]);
        assert(skip_white_space(md, 0) == 0);
        assert(t =~= md.subrange(0, md.len() as int));
        assert(t =~= md);
    }
    if blocks[0].ty == BlockType::Heading1 {
        assert(!starts_with(md, seq!['#', '#', '#', ' ']));
        assert(!starts_with(md, seq!['#', '#', ' ']));
        assert(starts_with(md, seq!['#', ' ']));
    } else if blocks[0].ty == BlockType::Heading2 {
        assert(!starts_with(md, seq!['#', '#', '#', ' ']));
        assert(starts_with(md, seq!['#', '#', ' ']));
    } else if blocks[0].ty == BlockType::Heading3 {
        assert(starts_with(md, seq!['#', '#', '#', ' ']));
    }
}

} // verus!
