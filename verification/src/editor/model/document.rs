//! The document of the editor: an ordered list of styled blocks and the
//! editing operations on it.
use vstd::prelude::*;

use crate::editor::model::block::{
    block_markdown, min_int, plain_style, styles_cover, styles_len, styles_prefix_len, Block, BlockType, BlockView,
    StyleBits, StyleSpan,
};
use crate::text::{
    char_count_bound, chars_of, find_from, find_seq, lemma_find_from, push_char, push_chars,
    push_str, starts_with,
};

verus! {

/// A document: its blocks in order, and the next block identity to hand
/// out.
#[derive(Debug)]
pub struct Document {
    pub blocks: Vec<Block>,
    pub(crate) next_id: u64,
}

/// The blocks of a list, abstractly.
pub open spec fn blocks_view(v: Seq<Block>) -> Seq<BlockView> {
    v.map_values(|b: Block| b@)
}

/// Prefix sums of style runs never decrease.
pub proof fn lemma_prefix_len_mono(styles: Seq<StyleSpan>, a: int, b: int)
    requires
        0 <= a <= b <= styles.len(),
    ensures
        0 <= styles_prefix_len(styles, a) <= styles_prefix_len(styles, b),
    decreases b - a,
{
    if a < b {
        lemma_prefix_len_mono(styles, a, b - 1);
    } else {
        lemma_prefix_len_nonneg(styles, a);
    }
}

proof fn lemma_prefix_len_nonneg(styles: Seq<StyleSpan>, a: int)
    requires
        0 <= a <= styles.len(),
    ensures
        0 <= styles_prefix_len(styles, a),
    decreases a,
{
    if a > 0 {
        lemma_prefix_len_nonneg(styles, a - 1);
    }
}

/// `styles_prefix_len` only looks at the runs before `k`.
pub proof fn lemma_prefix_len_update(styles: Seq<StyleSpan>, k: int, m: int, sp: StyleSpan)
    requires
        0 <= k < styles.len(),
        0 <= m <= styles.len(),
    ensures
        styles_prefix_len(styles.update(k, sp), m) == if m <= k {
            styles_prefix_len(styles, m)
        } else {
            styles_prefix_len(styles, m) - styles[k].len + sp.len
        },
    decreases m,
{
    if m > 0 {
        lemma_prefix_len_update(styles, k, m - 1, sp);
    }
}

/// Sum of runs after appending one.
pub proof fn lemma_styles_len_push(styles: Seq<StyleSpan>, sp: StyleSpan)
    ensures
        styles_len(styles.push(sp)) == styles_len(styles) + sp.len,
{
    lemma_prefix_len_same(styles, styles.push(sp), styles.len() as int);
}

/// Prefix sums agree on a common prefix.
pub proof fn lemma_prefix_len_same(a: Seq<StyleSpan>, b: Seq<StyleSpan>, m: int)
    requires
        0 <= m <= a.len(),
        m <= b.len(),
        forall|j: int| 0 <= j < m ==> a[j] == b[j],
    ensures
        styles_prefix_len(a, m) == styles_prefix_len(b, m),
    decreases m,
{
    if m > 0 {
        lemma_prefix_len_same(a, b, m - 1);
    }
}

/// Sum of runs of a concatenation.
pub proof fn lemma_styles_len_concat(a: Seq<StyleSpan>, b: Seq<StyleSpan>)
    ensures
        styles_len(a + b) == styles_len(a) + styles_len(b),
    decreases b.len(),
{
    if b.len() == 0 {
        assert(a + b =~= a);
    } else {
        lemma_styles_len_concat(a, b.drop_last());
        assert(a + b =~= (a + b.drop_last()).push(b.last()));
        assert(b =~= b.drop_last().push(b.last()));
        lemma_styles_len_push(a + b.drop_last(), b.last());
        lemma_styles_len_push(b.drop_last(), b.last());
    }
}

/// Sum of runs after removing one.
pub proof fn lemma_styles_len_remove(styles: Seq<StyleSpan>, k: int)
    requires
        0 <= k < styles.len(),
    ensures
        styles_len(styles.remove(k)) == styles_len(styles) - styles[k].len,
{
    let a = styles.subrange(0, k);
    let b = styles.subrange(k + 1, styles.len() as int);
    assert(styles.remove(k) =~= a + b);
    assert(styles =~= a.push(styles[k]) + b);
    lemma_styles_len_concat(a, b);
    lemma_styles_len_concat(a.push(styles[k]), b);
    lemma_styles_len_push(a, styles[k]);
}

impl Document {
    /// The blocks, abstractly.
    pub closed spec fn blocks_view(&self) -> Seq<BlockView> {
        blocks_view(self.blocks@)
    }

    /// The abstract blocks are those of the `blocks` field.
    pub(crate) proof fn lemma_view(&self)
        ensures
            self.blocks_view() == blocks_view(self.blocks@),
            self.next_id_value() == self.next_id,
    {
    }

    /// The identity `generate_id` hands out next.
    pub closed spec fn next_id_value(&self) -> u64 {
        self.next_id
    }

    /// A new identity: the current counter, which then advances.
    pub fn generate_id(&mut self) -> (id: u64)
        requires
            old(self).next_id_value() < u64::MAX,
        ensures
            id == old(self).next_id_value(),
            final(self).next_id_value() == old(self).next_id_value() + 1,
            final(self).blocks_view() == old(self).blocks_view(),
    {
        let id = self.next_id;
        self.next_id = self.next_id + 1;
        id
    }

    /// A copy of the document.
    pub fn snapshot(&self) -> (r: Self)
        ensures
            r.blocks_view() == self.blocks_view(),
            r.next_id_value() == self.next_id_value(),
    {
        let mut blocks: Vec<Block> = Vec::new();
        let mut i: usize = 0;
        while i < self.blocks.len()
            invariant
                i <= self.blocks@.len(),
                blocks@.len() == i,
                blocks_view(blocks@) == blocks_view(self.blocks@).subrange(0, i as int),
            decreases self.blocks@.len() - i,
        {
            let b = self.blocks[i].clone();
            let ghost prev = blocks@;
            blocks.push(b);
            assert(blocks@ == prev.push(b));
            assert forall|j: int| 0 <= j <= i implies #[trigger] blocks_view(blocks@)[j]
                == blocks_view(self.blocks@)[j] by {
                if j < i {
                    assert(blocks@[j] == prev[j]);
                    assert(blocks_view(prev)[j] == blocks_view(self.blocks@).subrange(0, i as int)[j]);
                } else {
                    assert(blocks@[j] == b);
                }
            }
            i = i + 1;
            assert(blocks_view(blocks@) =~= blocks_view(self.blocks@).subrange(0, i as int));
        }
        assert(blocks_view(self.blocks@).subrange(0, i as int) =~= blocks_view(self.blocks@));
        Document { blocks, next_id: self.next_id }
    }
}

/// `styles` with the first run shortened by `n` (not below zero).
pub open spec fn shrink_first(styles: Seq<StyleSpan>, n: int) -> Seq<StyleSpan> {
    if styles.len() > 0 {
        styles.update(
            0,
            StyleSpan {
                len: (if styles[0].len >= n {
                    styles[0].len - n
                } else {
                    0
                }) as usize,
                style: styles[0].style,
            },
        )
    } else {
        styles
    }
}

/// A paragraph starting with `"# "`, `"## "` or `"> "` becomes a level-1
/// heading, a level-2 heading or a quote, without that prefix (its first
/// style run shortened accordingly); the number of removed characters is
/// returned.  Other blocks stay.
pub open spec fn converted_block(b: BlockView) -> (BlockView, Option<usize>) {
    if b.ty == BlockType::Paragraph {
        if starts_with(b.text, seq!['#', ' ']) {
            (
                BlockView {
                    ty: BlockType::Heading1,
                    text: b.text.subrange(2, b.text.len() as int),
                    styles: shrink_first(b.styles, 2),
                    is_dirty: true,
                    ..b
                },
                Some(2usize),
            )
        } else if starts_with(b.text, seq!['#', '#', ' ']) {
            (
                BlockView {
                    ty: BlockType::Heading2,
                    text: b.text.subrange(3, b.text.len() as int),
                    styles: shrink_first(b.styles, 3),
                    is_dirty: true,
                    ..b
                },
                Some(3usize),
            )
        } else if starts_with(b.text, seq!['>', ' ']) {
            (
                BlockView {
                    ty: BlockType::Quote,
                    text: b.text.subrange(2, b.text.len() as int),
                    styles: shrink_first(b.styles, 2),
                    is_dirty: true,
                    ..b
                },
                Some(2usize),
            )
        } else {
            (b, None)
        }
    } else {
        (b, None)
    }
}

/// Effect of `try_convert_block` on the blocks, and its result.
pub open spec fn doc_after_convert(blocks: Seq<BlockView>, idx: int) -> (
    Seq<BlockView>,
    Option<usize>,
) {
    if 0 <= idx < blocks.len() {
        let (b, r) = converted_block(blocks[idx]);
        (blocks.update(idx, b), r)
    } else {
        (blocks, None)
    }
}

/// Effect of `merge_block_with_prev`: block `idx` is appended (text and
/// style runs) to the block before it; the result is the length of that
/// block's text before the merge.
pub open spec fn doc_after_merge(blocks: Seq<BlockView>, idx: int) -> (
    Seq<BlockView>,
    Option<usize>,
) {
    if idx <= 0 || idx >= blocks.len() {
        (blocks, None)
    } else {
        let prev = blocks[idx - 1];
        let cur = blocks[idx];
        let m = BlockView {
            text: prev.text + cur.text,
            styles: prev.styles + cur.styles,
            is_dirty: true,
            ..prev
        };
        (blocks.remove(idx).update(idx - 1, m), Some(prev.text.len() as usize))
    }
}

/// The first run `k` (from `k` on, `acc` characters before it) whose end
/// is at or after position `c`.
pub open spec fn insert_run_from(styles: Seq<StyleSpan>, c: int, k: int, acc: int) -> Option<int>
    decreases styles.len() - k,
{
    if k < 0 || k >= styles.len() {
        None
    } else if c <= acc + styles[k].len {
        Some(k)
    } else {
        insert_run_from(styles, c, k + 1, acc + styles[k].len)
    }
}

/// Style runs after inserting `added` characters at position `c`: the
/// first run reaching `c` grows, else the last run, else a plain run is
/// created.
pub open spec fn styles_after_insert(styles: Seq<StyleSpan>, c: int, added: int) -> Seq<
    StyleSpan,
> {
    match insert_run_from(styles, c, 0, 0) {
        Some(k) => styles.update(
            k,
            StyleSpan { len: (styles[k].len + added) as usize, style: styles[k].style },
        ),
        None => if styles.len() > 0 {
            styles.update(
                styles.len() - 1,
                StyleSpan {
                    len: (styles.last().len + added) as usize,
                    style: styles.last().style,
                },
            )
        } else {
            seq![StyleSpan { len: added as usize, style: plain_style() }]
        },
    }
}

/// A block after inserting `ins` at character position `c` (at the end
/// when `c` lies beyond it).
pub open spec fn block_after_insert(b: BlockView, c: int, ins: Seq<char>) -> BlockView {
    let p = if c < b.text.len() {
        c
    } else {
        b.text.len() as int
    };
    BlockView {
        text: b.text.subrange(0, p) + ins + b.text.subrange(p, b.text.len() as int),
        styles: styles_after_insert(b.styles, c, ins.len() as int),
        is_dirty: true,
        ..b
    }
}

/// Effect of `insert_text_at` on the blocks.
pub open spec fn doc_after_insert(blocks: Seq<BlockView>, idx: int, c: int, ins: Seq<char>) -> Seq<
    BlockView,
> {
    if 0 <= idx < blocks.len() {
        blocks.update(idx, block_after_insert(blocks[idx], c, ins))
    } else {
        blocks
    }
}

/// The first run `k` (from `k` on, `acc` characters before it) that
/// contains position `c`.
pub open spec fn remove_run_from(styles: Seq<StyleSpan>, c: int, k: int, acc: int) -> Option<int>
    decreases styles.len() - k,
{
    if k < 0 || k >= styles.len() {
        None
    } else if c < acc + styles[k].len {
        Some(k)
    } else {
        remove_run_from(styles, c, k + 1, acc + styles[k].len)
    }
}

/// Style runs after removing the character at position `c`: the run
/// containing it shrinks by one and disappears when empty, unless it is
/// the only run.
pub open spec fn styles_after_remove(styles: Seq<StyleSpan>, c: int) -> Seq<StyleSpan> {
    match remove_run_from(styles, c, 0, 0) {
        Some(k) => if styles[k].len == 1 && styles.len() > 1 {
            styles.remove(k)
        } else {
            styles.update(k, StyleSpan { len: (styles[k].len - 1) as usize, style: styles[k].style })
        },
        None => styles,
    }
}

/// A block after removing the character at position `c`, and whether
/// there was one.
pub open spec fn block_after_remove(b: BlockView, c: int) -> (BlockView, bool) {
    if 0 <= c < b.text.len() {
        (
            BlockView {
                text: b.text.remove(c),
                styles: styles_after_remove(b.styles, c),
                is_dirty: true,
                ..b
            },
            true,
        )
    } else {
        (b, false)
    }
}

/// Effect of `remove_char_at` on the blocks, and its result.
pub open spec fn doc_after_remove(blocks: Seq<BlockView>, idx: int, c: int) -> (
    Seq<BlockView>,
    bool,
) {
    if 0 <= idx < blocks.len() {
        let (b, r) = block_after_remove(blocks[idx], c);
        (blocks.update(idx, b), r)
    } else {
        (blocks, false)
    }
}

/// The style runs of block `idx` add up to at most `usize::MAX - extra`.
pub open spec fn runs_fit(blocks: Seq<BlockView>, idx: int, extra: int) -> bool {
    0 <= idx < blocks.len() ==> styles_len(blocks[idx].styles) + extra <= usize::MAX
}

/// A copy of the run list `v`.
fn copy_styles(v: &Vec<StyleSpan>) -> (r: Vec<StyleSpan>)
    ensures
        r@ == v@,
{
    let mut r: Vec<StyleSpan> = Vec::new();
    let mut i: usize = 0;
    while i < v.len()
        invariant
            i <= v@.len(),
            r@ == v@.subrange(0, i as int),
        decreases v@.len() - i,
    {
        r.push(v[i]);
        i = i + 1;
        assert(r@ =~= v@.subrange(0, i as int));
    }
    assert(v@.subrange(0, i as int) =~= v@);
    r
}

/// `text` as a `String` with the characters `ins` inserted at `p`.
fn string_with_insert(text: &[char], p: usize, ins: &[char]) -> (r: String)
    requires
        p <= text@.len(),
    ensures
        r@ == text@.subrange(0, p as int) + ins@ + text@.subrange(p as int, text@.len() as int),
{
    let mut r = String::new();
    push_chars(&mut r, text, 0, p);
    push_chars(&mut r, ins, 0, ins.len());
    push_chars(&mut r, text, p, text.len());
    assert(ins@.subrange(0, ins@.len() as int) =~= ins@);
    r
}

/// `text` as a `String` without the character at `c`.
fn string_without(text: &[char], c: usize) -> (r: String)
    requires
        c < text@.len(),
    ensures
        r@ == text@.remove(c as int),
{
    let mut r = String::new();
    let n = text.len();
    assert(c + 1 <= n);
    push_chars(&mut r, text, 0, c);
    push_chars(&mut r, text, c + 1, n);
    assert(r@ =~= text@.remove(c as int));
    r
}

impl Document {
    /// A paragraph starting with `"# "`, `"## "` or `"> "` at `block_idx`
    /// turns into a heading or quote (see `converted_block`).
    pub fn try_convert_block(&mut self, block_idx: usize) -> (r: Option<usize>)
        ensures
            (final(self).blocks_view(), r) == doc_after_convert(old(self).blocks_view(), block_idx as int),
            final(self).next_id_value() == old(self).next_id_value(),
    {
        if block_idx >= self.blocks.len() {
            return None;
        }
        let ghost bv = self.blocks@[block_idx as int]@;
        let ty = self.blocks[block_idx].ty;
        if ty != BlockType::Paragraph {
            return None;
        }
        let chars = chars_of(self.blocks[block_idx].text.as_str());
        let n = chars.len();
        let (new_ty, k): (BlockType, usize) = if n >= 2 && chars[0] == '#' && chars[1] == ' ' {
            assert(chars@.subrange(0, 2) =~= seq!['#', ' ']);
            (BlockType::Heading1, 2)
        } else if n >= 3 && chars[0] == '#' && chars[1] == '#' && chars[2] == ' ' {
            assert(chars@.subrange(0, 3) =~= seq!['#', '#', ' ']);
            assert(!starts_with(bv.text, seq!['#', ' ']));
            (BlockType::Heading2, 3)
        } else if n >= 2 && chars[0] == '>' && chars[1] == ' ' {
            assert(chars@.subrange(0, 2) =~= seq!['>', ' ']);
            assert(!starts_with(bv.text, seq!['#', ' ']));
            assert(!starts_with(bv.text, seq!['#', '#', ' ']));
            (BlockType::Quote, 2)
        } else {
            assert(!starts_with(bv.text, seq!['#', ' '])) by {
                if n >= 2 { assert(bv.text.subrange(0, 2)[0] == chars@[0]); assert(bv.text.subrange(0, 2)[1] == chars@[1]); }
            }
            assert(!starts_with(bv.text, seq!['#', '#', ' '])) by {
                if n >= 3 { assert(bv.text.subrange(0, 3)[0] == chars@[0]); assert(bv.text.subrange(0, 3)[1] == chars@[1]); assert(bv.text.subrange(0, 3)[2] == chars@[2]); }
            }
            assert(!starts_with(bv.text, seq!['>', ' '])) by {
                if n >= 2 { assert(bv.text.subrange(0, 2)[0] == chars@[0]); assert(bv.text.subrange(0, 2)[1] == chars@[1]); }
            }
            return None;
        };
        let mut text = String::new();
        push_chars(&mut text, &chars, k, n);
        let mut styles = copy_styles(&self.blocks[block_idx].styles);
        if styles.len() > 0 {
            let first = styles[0];
            let len = if first.len >= k {
                first.len - k
            } else {
                0
            };
            styles.set(0, StyleSpan { len, style: first.style });
        }
        let id = self.blocks[block_idx].id;
        let indent = self.blocks[block_idx].indent;
        self.blocks.set(block_idx, Block { id, ty: new_ty, text, styles, indent, is_dirty: true });
        assert(self.blocks_view() =~= doc_after_convert(old(self).blocks_view(), block_idx as int).0);
        Some(k)
    }

    /// Appends block `block_idx` to the block before it (see
    /// `doc_after_merge`).
    pub fn merge_block_with_prev(&mut self, block_idx: usize) -> (r: Option<usize>)
        ensures
            (final(self).blocks_view(), r) == doc_after_merge(old(self).blocks_view(), block_idx as int),
            final(self).next_id_value() == old(self).next_id_value(),
    {
        if block_idx == 0 || block_idx >= self.blocks.len() {
            return None;
        }
        let block = self.blocks.remove(block_idx);
        let prev_chars = chars_of(self.blocks[block_idx - 1].text.as_str());
        let offset = prev_chars.len();
        let cur_chars = chars_of(block.text.as_str());
        let mut text = String::new();
        push_chars(&mut text, &prev_chars, 0, prev_chars.len());
        push_chars(&mut text, &cur_chars, 0, cur_chars.len());
        let mut styles = copy_styles(&self.blocks[block_idx - 1].styles);
        let ghost s0 = styles@;
        let mut i: usize = 0;
        while i < block.styles.len()
            invariant
                i <= block.styles@.len(),
                styles@ == s0 + block.styles@.subrange(0, i as int),
            decreases block.styles@.len() - i,
        {
            styles.push(block.styles[i]);
            i = i + 1;
            assert(styles@ =~= s0 + block.styles@.subrange(0, i as int));
        }
        assert(block.styles@.subrange(0, i as int) =~= block.styles@);
        assert(prev_chars@.subrange(0, prev_chars@.len() as int) =~= prev_chars@);
        assert(cur_chars@.subrange(0, cur_chars@.len() as int) =~= cur_chars@);
        let id = self.blocks[block_idx - 1].id;
        let indent = self.blocks[block_idx - 1].indent;
        let ty = self.blocks[block_idx - 1].ty;
        self.blocks.set(block_idx - 1, Block { id, ty, text, styles, indent, is_dirty: true });
        assert(self.blocks_view() =~= doc_after_merge(old(self).blocks_view(), block_idx as int).0);
        Some(offset)
    }

    /// Inserts `text` at character `char_idx` of block `block_idx` (see
    /// `doc_after_insert`) and returns the number of inserted characters;
    /// nothing happens, and 0 is returned, when there is no such block.
    pub fn insert_text_at(&mut self, block_idx: usize, char_idx: usize, text: &str) -> (r: usize)
        requires
            runs_fit(old(self).blocks_view(), block_idx as int, text@.len() as int),
        ensures
            final(self).blocks_view() == doc_after_insert(
                old(self).blocks_view(),
                block_idx as int,
                char_idx as int,
                text@,
            ),
            final(self).next_id_value() == old(self).next_id_value(),
            r == if block_idx < old(self).blocks_view().len() {
                text@.len()
            } else {
                0
            },
    {
        if block_idx >= self.blocks.len() {
            return 0;
        }
        let ghost bv = self.blocks@[block_idx as int]@;
        let ins = chars_of(text);
        let added = ins.len();
        let chars = chars_of(self.blocks[block_idx].text.as_str());
        let p = if char_idx < chars.len() {
            char_idx
        } else {
            chars.len()
        };
        let new_text = string_with_insert(&chars, p, &ins);
        let mut styles = copy_styles(&self.blocks[block_idx].styles);
        let ghost st = styles@;
        let mut current: usize = 0;
        let mut k: usize = 0;
        let mut inserted = false;
        while k < styles.len()
            invariant_except_break
                !inserted,
            invariant
                styles@ == st,
                st == bv.styles,
                styles_len(st) + added <= usize::MAX,
                k <= st.len(),
                current == styles_prefix_len(st, k as int),
                insert_run_from(st, char_idx as int, 0, 0) == insert_run_from(
                    st,
                    char_idx as int,
                    k as int,
                    current as int,
                ),
            ensures
                inserted ==> (insert_run_from(st, char_idx as int, 0, 0) == Some(k as int) && k
                    < st.len()),
                !inserted ==> insert_run_from(st, char_idx as int, 0, 0) is None,
            decreases st.len() - k,
        {
            proof {
                lemma_prefix_len_mono(st, k + 1, st.len() as int);
            }
            let span = styles[k];
            if char_idx <= current + span.len {
                inserted = true;
                break;
            }
            current = current + span.len;
            k = k + 1;
        }
        if inserted {
            let span = styles[k];
            proof {
                lemma_prefix_len_mono(st, k + 1, st.len() as int);
                lemma_prefix_len_nonneg(st, k as int);
            }
            styles.set(k, StyleSpan { len: span.len + added, style: span.style });
        } else if styles.len() > 0 {
            let last = styles.len() - 1;
            let span = styles[last];
            proof {
                lemma_prefix_len_nonneg(st, last as int);
            }
            styles.set(last, StyleSpan { len: span.len + added, style: span.style });
        } else {
            styles.push(StyleSpan { len: added, style: StyleBits::default() });
        }
        assert(styles@ =~= styles_after_insert(bv.styles, char_idx as int, ins@.len() as int));
        let id = self.blocks[block_idx].id;
        let indent = self.blocks[block_idx].indent;
        let ty = self.blocks[block_idx].ty;
        self.blocks.set(block_idx, Block { id, ty, text: new_text, styles, indent, is_dirty: true });
        assert(self.blocks_view() =~= doc_after_insert(
            old(self).blocks_view(),
            block_idx as int,
            char_idx as int,
            text@,
        ));
        added
    }

    /// Removes the character at `char_idx` of block `block_idx` (see
    /// `doc_after_remove`); false when there is no such character.
    pub fn remove_char_at(&mut self, block_idx: usize, char_idx: usize) -> (r: bool)
        requires
            runs_fit(old(self).blocks_view(), block_idx as int, 0),
        ensures
            (final(self).blocks_view(), r) == doc_after_remove(
                old(self).blocks_view(),
                block_idx as int,
                char_idx as int,
            ),
            final(self).next_id_value() == old(self).next_id_value(),
    {
        if block_idx >= self.blocks.len() {
            return false;
        }
        let ghost bv = self.blocks@[block_idx as int]@;
        let chars = chars_of(self.blocks[block_idx].text.as_str());
        if char_idx >= chars.len() {
            return false;
        }
        let new_text = string_without(&chars, char_idx);
        let mut styles = copy_styles(&self.blocks[block_idx].styles);
        let ghost st = styles@;
        let mut current: usize = 0;
        let mut k: usize = 0;
        let mut found = false;
        while k < styles.len()
            invariant_except_break
                !found,
            invariant
                styles@ == st,
                st == bv.styles,
                styles_len(st) <= usize::MAX,
                k <= st.len(),
                current == styles_prefix_len(st, k as int),
                remove_run_from(st, char_idx as int, 0, 0) == remove_run_from(
                    st,
                    char_idx as int,
                    k as int,
                    current as int,
                ),
                current <= char_idx,
            ensures
                found ==> (remove_run_from(st, char_idx as int, 0, 0) == Some(k as int) && k
                    < st.len() && char_idx < current + st[k as int].len),
                !found ==> remove_run_from(st, char_idx as int, 0, 0) is None,
            decreases st.len() - k,
        {
            proof {
                lemma_prefix_len_mono(st, k + 1, st.len() as int);
            }
            let span = styles[k];
            if char_idx < current + span.len {
                found = true;
                break;
            }
            current = current + span.len;
            k = k + 1;
        }
        if found {
            let span = styles[k];
            if span.len == 1 && styles.len() > 1 {
                styles.remove(k);
            } else {
                styles.set(k, StyleSpan { len: span.len - 1, style: span.style });
            }
        }
        assert(styles@ =~= styles_after_remove(bv.styles, char_idx as int));
        let id = self.blocks[block_idx].id;
        let indent = self.blocks[block_idx].indent;
        let ty = self.blocks[block_idx].ty;
        self.blocks.set(block_idx, Block { id, ty, text: new_text, styles, indent, is_dirty: true });
        assert(self.blocks_view() =~= doc_after_remove(
            old(self).blocks_view(),
            block_idx as int,
            char_idx as int,
        ).0);
        true
    }
}

/// State of the inline-formatting scan: position, open bold and italic
/// markers, characters pending in the current style, the text and style
/// runs produced so far, and whether a marker was consumed.
pub struct FmtState {
    pub i: int,
    pub bold: bool,
    pub italic: bool,
    pub pending: int,
    pub text: Seq<char>,
    pub styles: Seq<StyleSpan>,
    pub changed: bool,
}

/// The style with the given flags.
pub open spec fn style_of(b: bool, it: bool, c: bool) -> StyleBits {
    StyleBits { is_bold: b, is_italic: it, is_code: c }
}

/// `styles` after a run of `count` characters in style `st`: nothing for
/// zero characters, the last run grows when it has the same style, else a
/// new run.
pub open spec fn push_segment(styles: Seq<StyleSpan>, count: int, st: StyleBits) -> Seq<StyleSpan> {
    if count == 0 {
        styles
    } else if styles.len() > 0 && styles.last().style == st {
        styles.update(
            styles.len() - 1,
            StyleSpan { len: (styles.last().len + count) as usize, style: st },
        )
    } else {
        styles.push(StyleSpan { len: count as usize, style: st })
    }
}

/// Position of the first `` ` `` after `i`, or the end of `s`.
pub open spec fn tick_end(s: Seq<char>, i: int) -> int {
    match find_from(s, seq!['`'], i + 1) {
        Some(j) => j,
        None => s.len() as int,
    }
}

/// From `k` on there is a `*` that is not part of a `**` pair (pairs are
/// skipped whole).
pub open spec fn italic_closes(s: Seq<char>, k: int) -> bool
    decreases s.len() - k,
{
    if k < 0 || k >= s.len() {
        false
    } else if s[k] == '*' {
        if k + 1 < s.len() && s[k + 1] == '*' {
            italic_closes(s, k + 2)
        } else {
            true
        }
    } else {
        italic_closes(s, k + 1)
    }
}

/// One step of the scan at position `st.i`: a code span `` `...` `` with a
/// closing tick is copied as a code run; a `**` toggles bold when bold is
/// open or a later `**` closes it; a `*` toggles italic when italic is open
/// or a later lone `*` closes it; any other character is kept in the
/// current style.
pub open spec fn fmt_step(s: Seq<char>, st: FmtState) -> FmtState {
    let i = st.i;
    let cur = style_of(st.bold, st.italic, false);
    if s[i] == '`' && tick_end(s, i) < s.len() {
        let j = tick_end(s, i);
        let styles1 = push_segment(st.styles, st.pending, cur);
        FmtState {
            i: j + 1,
            pending: 0,
            text: st.text + s.subrange(i + 1, j),
            styles: push_segment(styles1, j - (i + 1), style_of(false, false, true)),
            changed: true,
            ..st
        }
    } else if i + 1 < s.len() && s[i] == '*' && s[i + 1] == '*' && (st.bold || find_from(
        s,
        seq!['*', '*'],
        i + 2,
    ) is Some) {
        FmtState {
            i: i + 2,
            pending: 0,
            styles: push_segment(st.styles, st.pending, cur),
            bold: !st.bold,
            changed: true,
            ..st
        }
    } else if s[i] == '*' && (st.italic || italic_closes(s, i + 1)) {
        FmtState {
            i: i + 1,
            pending: 0,
            styles: push_segment(st.styles, st.pending, cur),
            italic: !st.italic,
            changed: true,
            ..st
        }
    } else {
        FmtState { i: i + 1, pending: st.pending + 1, text: st.text.push(s[i]), ..st }
    }
}

/// The scan from state `st` to the end of `s`.
pub open spec fn fmt_run(s: Seq<char>, st: FmtState) -> FmtState
    decreases s.len() - st.i,
{
    if st.i < 0 || st.i >= s.len() {
        st
    } else {
        proof {
            lemma_find_from(s, seq!['`'], st.i + 1);
        }
        fmt_run(s, fmt_step(s, st))
    }
}

/// The initial scan state.
pub open spec fn fmt_init() -> FmtState {
    FmtState {
        i: 0,
        bold: false,
        italic: false,
        pending: 0,
        text: seq![],
        styles: seq![],
        changed: false,
    }
}

/// Result of scanning Markdown `md`: the final state, with its pending
/// characters flushed into the runs.
pub open spec fn fmt_result(md: Seq<char>) -> FmtState {
    let f = fmt_run(md, fmt_init());
    FmtState { styles: push_segment(f.styles, f.pending, style_of(f.bold, f.italic, false)), pending: 0, ..f }
}

/// A block after `apply_inline_formatting`, and its result: the block's
/// Markdown is scanned for markers; when any was consumed the block takes
/// the scanned text and runs.
pub open spec fn block_after_format(b: BlockView) -> (BlockView, bool) {
    let md = block_markdown(b);
    let f = fmt_result(md);
    if (md.contains('*') || md.contains('`')) && f.changed {
        (BlockView { text: f.text, styles: f.styles, is_dirty: true, ..b }, true)
    } else {
        (b, false)
    }
}

/// Effect of `apply_inline_formatting` on the blocks, and its result.
pub open spec fn doc_after_format(blocks: Seq<BlockView>, idx: int) -> (Seq<BlockView>, bool) {
    if 0 <= idx < blocks.len() {
        let (b, r) = block_after_format(blocks[idx]);
        (blocks.update(idx, b), r)
    } else {
        (blocks, false)
    }
}

/// Adding a segment adds its length to the total of the runs.
pub proof fn lemma_push_segment_len(styles: Seq<StyleSpan>, count: int, st: StyleBits)
    requires
        count >= 0,
        styles.len() > 0 ==> styles.last().len + count <= usize::MAX,
        count <= usize::MAX,
    ensures
        styles_len(push_segment(styles, count, st)) == styles_len(styles) + count,
{
    if count == 0 {
    } else if styles.len() > 0 && styles.last().style == st {
        let k = styles.len() - 1;
        lemma_prefix_len_update(
            styles,
            k,
            styles.len() as int,
            StyleSpan { len: (styles.last().len + count) as usize, style: st },
        );
    } else {
        lemma_styles_len_push(styles, StyleSpan { len: count as usize, style: st });
    }
}

/// The last run is no longer than all runs together.
pub proof fn lemma_last_le_total(styles: Seq<StyleSpan>)
    requires
        styles.len() > 0,
    ensures
        styles.last().len <= styles_len(styles),
{
    lemma_prefix_len_nonneg(styles, styles.len() - 1);
}

/// The scan keeps the runs covering the produced text, pending characters
/// included, and never produces more characters than it has read.
pub open spec fn fmt_inv(s: Seq<char>, st: FmtState) -> bool {
    &&& 0 <= st.i <= s.len()
    &&& 0 <= st.pending
    &&& styles_len(st.styles) + st.pending == st.text.len()
    &&& st.text.len() <= st.i
    &&& s.len() <= usize::MAX
}

/// One step keeps `fmt_inv`.
pub proof fn lemma_fmt_step_inv(s: Seq<char>, st: FmtState)
    requires
        fmt_inv(s, st),
        st.i < s.len(),
    ensures
        fmt_inv(s, fmt_step(s, st)),
        fmt_step(s, st).i > st.i,
{
    let i = st.i;
    let cur = style_of(st.bold, st.italic, false);
    lemma_find_from(s, seq!['`'], i + 1);
    if st.styles.len() > 0 {
        lemma_last_le_total(st.styles);
    }
    if s[i] == '`' && tick_end(s, i) < s.len() {
        let j = tick_end(s, i);
        let styles1 = push_segment(st.styles, st.pending, cur);
        lemma_push_segment_len(st.styles, st.pending, cur);
        if styles1.len() > 0 {
            lemma_last_le_total(styles1);
        }
        lemma_push_segment_len(styles1, j - (i + 1), style_of(false, false, true));
    } else if i + 1 < s.len() && s[i] == '*' && s[i + 1] == '*' && (st.bold || find_from(
        s,
        seq!['*', '*'],
        i + 2,
    ) is Some) {
        lemma_push_segment_len(st.styles, st.pending, cur);
    } else if s[i] == '*' && (st.italic || italic_closes(s, i + 1)) {
        lemma_push_segment_len(st.styles, st.pending, cur);
    } else {
    }
}

/// The whole scan keeps `fmt_inv`.
pub proof fn lemma_fmt_run_inv(s: Seq<char>, st: FmtState)
    requires
        fmt_inv(s, st),
    ensures
        fmt_inv(s, fmt_run(s, st)),
    decreases s.len() - st.i,
{
    if st.i < s.len() {
        lemma_fmt_step_inv(s, st);
        lemma_fmt_run_inv(s, fmt_step(s, st));
    }
}

/// Applying inline formatting leaves a block whose style runs cover its
/// text exactly (whether or not markers were consumed, provided they did
/// before).
pub proof fn law_format_keeps_runs_covering(b: BlockView)
    requires
        styles_cover(b),
        block_markdown(b).len() <= usize::MAX,
    ensures
        styles_cover(block_after_format(b).0),
{
    let md = block_markdown(b);
    lemma_fmt_run_inv(md, fmt_init());
    let f = fmt_run(md, fmt_init());
    if f.styles.len() > 0 {
        lemma_last_le_total(f.styles);
    }
    lemma_push_segment_len(f.styles, f.pending, style_of(f.bold, f.italic, false));
}

/// `push_segment` on a run list (executable).
fn push_segment_exec(styles: &mut Vec<StyleSpan>, count: usize, st: StyleBits)
    requires
        old(styles)@.len() > 0 ==> old(styles)@.last().len + count <= usize::MAX,
    ensures
        final(styles)@ == push_segment(old(styles)@, count as int, st),
{
    if count == 0 {
        return ;
    }
    let n = styles.len();
    if n > 0 {
        let last = styles[n - 1];
        if last.style == st {
            styles.set(n - 1, StyleSpan { len: last.len + count, style: st });
            return ;
        }
    }
    styles.push(StyleSpan { len: count, style: st });
}

/// The scan state of the executable variables.
pub open spec fn state_of(
    i: usize,
    bold: bool,
    italic: bool,
    pending: usize,
    text: Seq<char>,
    styles: Seq<StyleSpan>,
    changed: bool,
) -> FmtState {
    FmtState { i: i as int, bold, italic, pending: pending as int, text, styles, changed }
}

/// `italic_closes` (executable).
fn italic_closes_exec(s: &[char], start: usize) -> (b: bool)
    ensures
        b == italic_closes(s@, start as int),
{
    let mut k = start;
    while k < s.len()
        invariant
            start <= k,
            italic_closes(s@, start as int) == italic_closes(s@, k as int),
        decreases s@.len() - k,
    {
        if s[k] == '*' {
            if k + 1 < s.len() && s[k + 1] == '*' {
                k = k + 2;
                continue;
            }
            return true;
        }
        k = k + 1;
    }
    false
}

/// `s` contains `c` (executable).
pub fn contains_char(s: &[char], c: char) -> (b: bool)
    ensures
        b == s@.contains(c),
{
    let mut k: usize = 0;
    while k < s.len()
        invariant
            k <= s@.len(),
            forall|j: int| 0 <= j < k ==> s@[j] != c,
        decreases s@.len() - k,
    {
        if s[k] == c {
            assert(s@[k as int] == c);
            return true;
        }
        k = k + 1;
    }
    false
}

impl Document {
    /// Turns the Markdown markers of block `block_idx` into style runs (see
    /// `block_after_format`); true when some marker was consumed.
    pub fn apply_inline_formatting(&mut self, block_idx: usize) -> (r: bool)
        ensures
            (final(self).blocks_view(), r) == doc_after_format(old(self).blocks_view(), block_idx as int),
            final(self).next_id_value() == old(self).next_id_value(),
    {
        if block_idx >= self.blocks.len() {
            return false;
        }
        let md = self.blocks[block_idx].to_markdown();
        char_count_bound(md.as_str());
        let chars = chars_of(md.as_str());
        let ghost s = chars@;
        let len = chars.len();
        if !contains_char(&chars, '*') && !contains_char(&chars, '`') {
            return false;
        }
        let dstar = vec!['*', '*'];
        let tick = vec!['`'];
        assert(dstar@ == seq!['*', '*']);
        assert(tick@ == seq!['`']);
        let mut new_styles: Vec<StyleSpan> = Vec::new();
        let mut new_text = String::new();
        let mut i: usize = 0;
        let mut is_bold = false;
        let mut is_italic = false;
        let mut changed = false;
        let mut pending: usize = 0;
        while i < len
            invariant
                s == chars@,
                len == s.len(),
                s.len() <= isize::MAX,
                dstar@ == seq!['*', '*'],
                tick@ == seq!['`'],
                fmt_inv(s, state_of(i, is_bold, is_italic, pending, new_text@, new_styles@, changed)),
                fmt_run(s, fmt_init()) == fmt_run(
                    s,
                    state_of(i, is_bold, is_italic, pending, new_text@, new_styles@, changed),
                ),
            decreases len - i,
        {
            let ghost st = state_of(i, is_bold, is_italic, pending, new_text@, new_styles@, changed);
            proof {
                lemma_fmt_step_inv(s, st);
                lemma_find_from(s, seq!['`'], i + 1);
                if new_styles@.len() > 0 {
                    lemma_last_le_total(new_styles@);
                }
            }
            let cur = StyleBits { is_bold, is_italic, is_code: false };
            if chars[i] == '`' {
                if let Some(j) = find_seq(&chars, &tick, i + 1) {
                    push_segment_exec(&mut new_styles, pending, cur);
                    proof {
                        lemma_push_segment_len(st.styles, st.pending, cur);
                        if new_styles@.len() > 0 {
                            lemma_last_le_total(new_styles@);
                        }
                    }
                    pending = 0;
                    push_chars(&mut new_text, &chars, i + 1, j);
                    push_segment_exec(
                        &mut new_styles,
                        j - (i + 1),
                        StyleBits { is_bold: false, is_italic: false, is_code: true },
                    );
                    i = j + 1;
                    changed = true;
                    assert(state_of(i, is_bold, is_italic, pending, new_text@, new_styles@, changed)
                        == fmt_step(s, st));
                    continue;
                }
            }
            if i + 1 < len && chars[i] == '*' && chars[i + 1] == '*' {
                let has_closing = if !is_bold {
                    find_seq(&chars, &dstar, i + 2).is_some()
                } else {
                    true
                };
                if has_closing {
                    push_segment_exec(&mut new_styles, pending, cur);
                    pending = 0;
                    is_bold = !is_bold;
                    i = i + 2;
                    changed = true;
                    assert(state_of(i, is_bold, is_italic, pending, new_text@, new_styles@, changed)
                        == fmt_step(s, st));
                    continue;
                }
            }
            if chars[i] == '*' {
                let has_closing = if !is_italic {
                    italic_closes_exec(&chars, i + 1)
                } else {
                    true
                };
                if has_closing {
                    push_segment_exec(&mut new_styles, pending, cur);
                    pending = 0;
                    is_italic = !is_italic;
                    i = i + 1;
                    changed = true;
                    assert(state_of(i, is_bold, is_italic, pending, new_text@, new_styles@, changed)
                        == fmt_step(s, st));
                    continue;
                }
            }
            push_char(&mut new_text, chars[i]);
            pending = pending + 1;
            i = i + 1;
            assert(state_of(i, is_bold, is_italic, pending, new_text@, new_styles@, changed)
                == fmt_step(s, st));
        }
        proof {
            if new_styles@.len() > 0 {
                lemma_last_le_total(new_styles@);
            }
        }
        push_segment_exec(&mut new_styles, pending, StyleBits { is_bold, is_italic, is_code: false });
        if changed {
            let id = self.blocks[block_idx].id;
            let indent = self.blocks[block_idx].indent;
            let ty = self.blocks[block_idx].ty;
            self.blocks.set(block_idx, Block { id, ty, text: new_text, styles: new_styles, indent, is_dirty: true });
            assert(self.blocks_view() =~= doc_after_format(old(self).blocks_view(), block_idx as int).0);
        }
        changed
    }
}

/// Inserting adds the inserted length to the total of the runs.
pub proof fn lemma_styles_len_after_insert(styles: Seq<StyleSpan>, c: int, added: int)
    requires
        0 <= added,
        styles_len(styles) + added <= usize::MAX,
    ensures
        styles_len(styles_after_insert(styles, c, added)) == styles_len(styles) + added,
{
    lemma_insert_run_from(styles, c, 0, 0);
    match insert_run_from(styles, c, 0, 0) {
        Some(k) => {
            lemma_prefix_len_mono(styles, k + 1, styles.len() as int);
            lemma_prefix_len_nonneg(styles, k);
            assert(styles_prefix_len(styles, k + 1) == styles_prefix_len(styles, k) + styles[k].len);
            assert(styles[k].len + added <= usize::MAX);
            lemma_prefix_len_update(
                styles,
                k,
                styles.len() as int,
                StyleSpan { len: (styles[k].len + added) as usize, style: styles[k].style },
            );
            assert(styles_len(styles_after_insert(styles, c, added)) == styles_len(styles) + added);
        },
        None => {
            if styles.len() > 0 {
                lemma_last_le_total(styles);
                lemma_prefix_len_update(
                    styles,
                    styles.len() - 1,
                    styles.len() as int,
                    StyleSpan {
                        len: (styles.last().len + added) as usize,
                        style: styles.last().style,
                    },
                );
            } else {
                lemma_styles_len_push(
                    styles,
                    StyleSpan { len: added as usize, style: plain_style() },
                );
                assert(styles.push(StyleSpan { len: added as usize, style: plain_style() })
                    =~= seq![StyleSpan { len: added as usize, style: plain_style() }]);
            }
        },
    }
}

/// What `insert_run_from` finds lies within the runs.
proof fn lemma_insert_run_from(styles: Seq<StyleSpan>, c: int, k: int, acc: int)
    ensures
        insert_run_from(styles, c, k, acc) matches Some(j) ==> 0 <= j < styles.len(),
    decreases styles.len() - k,
{
    if 0 <= k < styles.len() && !(c <= acc + styles[k].len) {
        lemma_insert_run_from(styles, c, k + 1, acc + styles[k].len);
    }
}

/// What `remove_run_from` finds lies within the runs.
proof fn lemma_remove_run_from(styles: Seq<StyleSpan>, c: int, k: int, acc: int)
    ensures
        remove_run_from(styles, c, k, acc) matches Some(j) ==> 0 <= j < styles.len(),
    decreases styles.len() - k,
{
    if 0 <= k < styles.len() && !(c < acc + styles[k].len) {
        lemma_remove_run_from(styles, c, k + 1, acc + styles[k].len);
    }
}

/// Removing a character does not lengthen the runs.
pub proof fn lemma_styles_len_after_remove(styles: Seq<StyleSpan>, c: int)
    requires
        remove_run_from(styles, c, 0, 0) matches Some(k) ==> styles[k].len >= 1,
    ensures
        styles_len(styles_after_remove(styles, c)) <= styles_len(styles),
{
    lemma_remove_run_from(styles, c, 0, 0);
    match remove_run_from(styles, c, 0, 0) {
        Some(k) => {
            if styles[k].len == 1 && styles.len() > 1 {
                lemma_styles_len_remove(styles, k);
            } else {
                lemma_prefix_len_update(
                    styles,
                    k,
                    styles.len() as int,
                    StyleSpan { len: (styles[k].len - 1) as usize, style: styles[k].style },
                );
            }
        },
        None => {},
    }
}

/// The run `remove_run_from` finds is not empty.
proof fn lemma_remove_run_nonempty(styles: Seq<StyleSpan>, c: int, k: int, acc: int)
    requires
        acc <= c,
    ensures
        remove_run_from(styles, c, k, acc) matches Some(j) ==> styles[j].len >= 1,
    decreases styles.len() - k,
{
    if 0 <= k < styles.len() && !(c < acc + styles[k].len) {
        lemma_remove_run_nonempty(styles, c, k + 1, acc + styles[k].len);
    }
}

/// `remove_char_at` keeps the runs of every block fitting.
pub proof fn lemma_remove_keeps_fit(blocks: Seq<BlockView>, idx: int, c: int, j: int)
    requires
        runs_fit(blocks, j, 0),
    ensures
        runs_fit(doc_after_remove(blocks, idx, c).0, j, 0),
{
    if 0 <= idx < blocks.len() && 0 <= c < blocks[idx].text.len() && j == idx {
        lemma_remove_run_nonempty(blocks[idx].styles, c, 0, 0);
        lemma_styles_len_after_remove(blocks[idx].styles, c);
    }
}

/// Block `idx` after `n` removals of its character at `c`.
pub open spec fn remove_n(blocks: Seq<BlockView>, idx: int, c: int, n: nat) -> Seq<BlockView>
    decreases n,
{
    if n == 0 {
        blocks
    } else {
        remove_n(doc_after_remove(blocks, idx, c).0, idx, c, (n - 1) as nat)
    }
}

/// Repeated removals keep the runs of every block fitting.
pub proof fn lemma_remove_n_keeps_fit(blocks: Seq<BlockView>, idx: int, c: int, n: nat, j: int)
    requires
        runs_fit(blocks, j, 0),
    ensures
        runs_fit(remove_n(blocks, idx, c, n), j, 0),
        remove_n(blocks, idx, c, n).len() == blocks.len(),
    decreases n,
{
    if n > 0 {
        lemma_remove_keeps_fit(blocks, idx, c, j);
        lemma_remove_n_keeps_fit(doc_after_remove(blocks, idx, c).0, idx, c, (n - 1) as nat, j);
    }
}

/// Effect of `delete_range` on the blocks.  Within one block, the
/// characters from `start.1` up to `end.1` are removed one by one.  Across
/// blocks, the end of the first block from `start.1` and the first `end.1`
/// characters of the last block are removed, the blocks in between are
/// dropped, and the block after the first is merged into it.
pub open spec fn doc_after_delete_range(
    blocks: Seq<BlockView>,
    start: (int, int),
    end: (int, int),
) -> Seq<BlockView> {
    if start.0 == end.0 {
        remove_n(blocks, start.0, start.1, (end.1 - start.1) as nat)
    } else {
        let first_len = blocks[start.0].text.len() as int;
        let b1 = remove_n(
            blocks,
            start.0,
            start.1,
            (if first_len > start.1 {
                first_len - start.1
            } else {
                0
            }) as nat,
        );
        let b2 = remove_n(b1, end.0, 0, end.1 as nat);
        let b3 = if end.0 > start.0 + 1 {
            b2.subrange(0, start.0 + 1) + b2.subrange(end.0, b2.len() as int)
        } else {
            b2
        };
        if start.0 + 1 < b3.len() {
            doc_after_merge(b3, start.0 + 1).0
        } else {
            b3
        }
    }
}

/// Effect of `wrap_selection` on the blocks: `marker` is inserted at `end`
/// and then at `start`, and inline formatting is applied.
pub open spec fn doc_after_wrap(
    blocks: Seq<BlockView>,
    idx: int,
    start: int,
    end: int,
    marker: Seq<char>,
) -> Seq<BlockView> {
    if 0 <= idx < blocks.len() {
        let b1 = doc_after_insert(blocks, idx, end, marker);
        let b2 = doc_after_insert(b1, idx, start, marker);
        doc_after_format(b2, idx).0
    } else {
        blocks
    }
}

/// Whether `wrap_selection` consumed markers when formatting.
pub open spec fn wrap_consumed(
    blocks: Seq<BlockView>,
    idx: int,
    start: int,
    end: int,
    marker: Seq<char>,
) -> bool {
    if 0 <= idx < blocks.len() {
        let b1 = doc_after_insert(blocks, idx, end, marker);
        let b2 = doc_after_insert(b1, idx, start, marker);
        doc_after_format(b2, idx).1
    } else {
        false
    }
}

impl Document {
    /// Surrounds characters `start..end` of block `block_idx` with `marker`
    /// and applies inline formatting (see `doc_after_wrap`); true when the
    /// formatting consumed markers.
    pub fn wrap_selection(&mut self, block_idx: usize, start: usize, end: usize, marker: &str) -> (r:
        bool)
        requires
            runs_fit(old(self).blocks_view(), block_idx as int, 2 * (marker@.len() as int)),
        ensures
            r == wrap_consumed(old(self).blocks_view(), block_idx as int, start as int, end as int, marker@),
            final(self).blocks_view() == doc_after_wrap(
                old(self).blocks_view(),
                block_idx as int,
                start as int,
                end as int,
                marker@,
            ),
            final(self).next_id_value() == old(self).next_id_value(),
    {
        if block_idx >= self.blocks.len() {
            return false;
        }
        proof {
            lemma_styles_len_after_insert(
                self.blocks_view()[block_idx as int].styles,
                end as int,
                marker@.len() as int,
            );
        }
        self.insert_text_at(block_idx, end, marker);
        self.insert_text_at(block_idx, start, marker);
        self.apply_inline_formatting(block_idx)
    }

    /// Deletes the text between positions `start` and `end`, each a (block,
    /// character) pair (see `doc_after_delete_range`), and returns `start`.
    pub fn delete_range(&mut self, start: (usize, usize), end: (usize, usize)) -> (r: (
        usize,
        usize,
    ))
        requires
            start.0 == end.0 ==> start.1 <= end.1,
            start.0 != end.0 ==> start.0 < old(self).blocks_view().len(),
            end.0 > start.0 + 1 ==> end.0 <= old(self).blocks_view().len(),
            runs_fit(old(self).blocks_view(), start.0 as int, 0),
            runs_fit(old(self).blocks_view(), end.0 as int, 0),
        ensures
            r == start,
            final(self).blocks_view() == doc_after_delete_range(
                old(self).blocks_view(),
                (start.0 as int, start.1 as int),
                (end.0 as int, end.1 as int),
            ),
            final(self).next_id_value() == old(self).next_id_value(),
    {
        let (start_blk, start_char) = start;
        let (end_blk, end_char) = end;
        let ghost v0 = self.blocks_view();
        if start_blk == end_blk {
            let count = end_char - start_char;
            let mut done: usize = 0;
            while done < count
                invariant
                    done <= count,
                    self.next_id_value() == old(self).next_id_value(),
                    runs_fit(self.blocks_view(), start_blk as int, 0),
                    remove_n(v0, start_blk as int, start_char as int, count as nat) == remove_n(
                        self.blocks_view(),
                        start_blk as int,
                        start_char as int,
                        (count - done) as nat,
                    ),
                decreases count - done,
            {
                proof {
                    lemma_remove_keeps_fit(self.blocks_view(), start_blk as int, start_char as int, start_blk as int);
                }
                self.remove_char_at(start_blk, start_char);
                done = done + 1;
            }
            return (start_blk, start_char);
        }
        let first_len = self.blocks[start_blk].text_len();
        proof {
            self.lemma_view();
        }
        let n1: usize = if first_len > start_char {
            first_len - start_char
        } else {
            0
        };
        let mut done: usize = 0;
        while done < n1
            invariant
                done <= n1,
                self.next_id_value() == old(self).next_id_value(),
                runs_fit(self.blocks_view(), start_blk as int, 0),
                runs_fit(self.blocks_view(), end_blk as int, 0),
                remove_n(v0, start_blk as int, start_char as int, n1 as nat) == remove_n(
                    self.blocks_view(),
                    start_blk as int,
                    start_char as int,
                    (n1 - done) as nat,
                ),
            decreases n1 - done,
        {
            proof {
                lemma_remove_keeps_fit(self.blocks_view(), start_blk as int, start_char as int, start_blk as int);
                lemma_remove_keeps_fit(self.blocks_view(), start_blk as int, start_char as int, end_blk as int);
            }
            self.remove_char_at(start_blk, start_char);
            done = done + 1;
        }
        let ghost v1 = self.blocks_view();
        let mut done: usize = 0;
        while done < end_char
            invariant
                done <= end_char,
                self.next_id_value() == old(self).next_id_value(),
                runs_fit(self.blocks_view(), end_blk as int, 0),
                remove_n(v1, end_blk as int, 0, end_char as nat) == remove_n(
                    self.blocks_view(),
                    end_blk as int,
                    0,
                    (end_char - done) as nat,
                ),
            decreases end_char - done,
        {
            proof {
                lemma_remove_keeps_fit(self.blocks_view(), end_blk as int, 0, end_blk as int);
            }
            self.remove_char_at(end_blk, 0);
            done = done + 1;
        }
        let ghost v2 = self.blocks_view();
        proof {
            lemma_remove_n_keeps_fit(v0, start_blk as int, start_char as int, n1 as nat, start_blk as int);
            lemma_remove_n_keeps_fit(v1, end_blk as int, 0, end_char as nat, end_blk as int);
            self.lemma_view();
            assert(v1 == remove_n(v0, start_blk as int, start_char as int, n1 as nat));
            assert(v2 == remove_n(v1, end_blk as int, 0, end_char as nat));
            assert(v2.len() == v0.len());
            assert(self.blocks@.len() == v2.len());
        }
        let nb = self.blocks.len();
        assert(start_blk < nb);
        if end_blk > start_blk + 1 {
            let to_remove = end_blk - start_blk - 1;
            let mut k: usize = 0;
            while k < to_remove
                invariant
                    k <= to_remove,
                    to_remove == end_blk - start_blk - 1,
                    end_blk <= v2.len(),
                    start_blk < v2.len(),
                    self.next_id_value() == old(self).next_id_value(),
                    self.blocks_view() == v2.subrange(0, start_blk + 1) + v2.subrange(
                        start_blk + 1 + k,
                        v2.len() as int,
                    ),
                decreases to_remove - k,
            {
                proof {
                    self.lemma_view();
                }
                assert(self.blocks_view().len() == self.blocks@.len());
                assert(self.blocks@.len() == v2.len() - k);
                let ghost before = self.blocks@;
                self.blocks.remove(start_blk + 1);
                assert(blocks_view(self.blocks@) =~= blocks_view(before).remove(start_blk + 1));
                k = k + 1;
                assert(self.blocks_view() =~= v2.subrange(0, start_blk + 1) + v2.subrange(
                    start_blk + 1 + k,
                    v2.len() as int,
                ));
            }
        }
        if start_blk + 1 < self.blocks.len() {
            self.merge_block_with_prev(start_blk + 1);
        }
        (start_blk, start_char)
    }
}

/// Markdown prefix of a block kind when saving.
pub open spec fn type_prefix(ty: BlockType) -> Seq<char> {
    match ty {
        BlockType::Heading1 => seq!['#', ' '],
        BlockType::Heading2 => seq!['#', '#', ' '],
        BlockType::Heading3 => seq!['#', '#', '#', ' '],
        BlockType::Quote => seq!['>', ' '],
        _ => seq![],
    }
}

/// The saved form of blocks `i..`: each block's prefix and Markdown, blocks
/// separated by a blank line.
pub open spec fn doc_markdown_from(blocks: Seq<BlockView>, i: int) -> Seq<char>
    decreases blocks.len() - i,
{
    if i < 0 || i >= blocks.len() {
        seq![]
    } else {
        type_prefix(blocks[i].ty) + block_markdown(blocks[i]) + (if i < blocks.len() - 1 {
            seq!['\n', '\n']
        } else {
            seq![]
        }) + doc_markdown_from(blocks, i + 1)
    }
}

/// The saved form of a document.
pub open spec fn doc_markdown(blocks: Seq<BlockView>) -> Seq<char> {
    doc_markdown_from(blocks, 0)
}

fn push_type_prefix(buf: &mut String, ty: BlockType)
    ensures
        final(buf)@ == old(buf)@ + type_prefix(ty),
{
    let ghost b0 = buf@;
    match ty {
        BlockType::Heading1 => {
            push_char(buf, '#');
            push_char(buf, ' ');
        },
        BlockType::Heading2 => {
            push_char(buf, '#');
            push_char(buf, '#');
            push_char(buf, ' ');
        },
        BlockType::Heading3 => {
            push_char(buf, '#');
            push_char(buf, '#');
            push_char(buf, '#');
            push_char(buf, ' ');
        },
        BlockType::Quote => {
            push_char(buf, '>');
            push_char(buf, ' ');
        },
        _ => {},
    }
    assert(buf@ =~= b0 + type_prefix(ty));
}

impl Document {
    /// The text that saving the document writes (see `doc_markdown`).
    pub fn to_markdown(&self) -> (r: String)
        ensures
            r@ == doc_markdown(self.blocks_view()),
    {
        let mut out = String::new();
        let ghost v = self.blocks_view();
        let mut i: usize = 0;
        while i < self.blocks.len()
            invariant
                v == blocks_view(self.blocks@),
                i <= v.len(),
                doc_markdown(v) == out@ + doc_markdown_from(v, i as int),
            decreases v.len() - i,
        {
            let ghost before = out@;
            push_type_prefix(&mut out, self.blocks[i].ty);
            self.blocks[i].write_markdown_to(&mut out);
            if i < self.blocks.len() - 1 {
                push_char(&mut out, '\n');
                push_char(&mut out, '\n');
            }
            assert(v[i as int] == self.blocks@[i as int]@);
            assert(out@ + doc_markdown_from(v, i + 1) =~= before + doc_markdown_from(v, i as int));
            i = i + 1;
        }
        assert(out@ + doc_markdown_from(v, i as int) =~= out@);
        out
    }

    /// The document every editor starts with.
    pub fn new() -> (r: Self)
        ensures
            r.blocks_view().len() == 3,
            r.blocks_view()[0].ty == BlockType::Heading1,
            r.blocks_view()[0].text == "Bienvenue dans Ndown"@,
            r.blocks_view()[1].ty == BlockType::Paragraph,
            r.blocks_view()[1].text == "Ceci est un éditeur basé sur des blocs."@,
            r.blocks_view()[2].ty == BlockType::Quote,
            r.blocks_view()[2].text == "Essayez de taper # titre ou **gras**."@,
            forall|j: int| 0 <= j < 3 ==> #[trigger] r.blocks_view()[j].id == j + 1,
            forall|j: int|
                0 <= j < 3 ==> (#[trigger] r.blocks_view()[j]).styles == seq![
                    StyleSpan { len: r.blocks_view()[j].text.len() as usize, style: plain_style() },
                ],
            forall|j: int| 0 <= j < 3 ==> (#[trigger] r.blocks_view()[j]).indent == 0,
            forall|j: int| 0 <= j < 3 ==> (#[trigger] r.blocks_view()[j]).is_dirty,
            r.next_id_value() == 4,
    {
        Self::default()
    }
}

impl Default for Document {
    fn default() -> (r: Self)
        ensures
            r.blocks_view().len() == 3,
            r.blocks_view()[0].ty == BlockType::Heading1,
            r.blocks_view()[0].text == "Bienvenue dans Ndown"@,
            r.blocks_view()[1].ty == BlockType::Paragraph,
            r.blocks_view()[1].text == "Ceci est un éditeur basé sur des blocs."@,
            r.blocks_view()[2].ty == BlockType::Quote,
            r.blocks_view()[2].text == "Essayez de taper # titre ou **gras**."@,
            forall|j: int| 0 <= j < 3 ==> #[trigger] r.blocks_view()[j].id == j + 1,
            forall|j: int|
                0 <= j < 3 ==> (#[trigger] r.blocks_view()[j]).styles == seq![
                    StyleSpan { len: r.blocks_view()[j].text.len() as usize, style: plain_style() },
                ],
            forall|j: int| 0 <= j < 3 ==> (#[trigger] r.blocks_view()[j]).indent == 0,
            forall|j: int| 0 <= j < 3 ==> (#[trigger] r.blocks_view()[j]).is_dirty,
            r.next_id_value() == 4,
    {
        let b1 = Block::new(1, BlockType::Heading1, "Bienvenue dans Ndown");
        let b2 = Block::new(2, BlockType::Paragraph, "Ceci est un éditeur basé sur des blocs.");
        let b3 = Block::new(3, BlockType::Quote, "Essayez de taper # titre ou **gras**.");
        let blocks = vec![b1, b2, b3];
        let r = Document { blocks, next_id: 4 };
        assert(r.blocks_view()[0] == b1@);
        assert(r.blocks_view()[1] == b2@);
        assert(r.blocks_view()[2] == b3@);
        r
    }
}

/// The part of block `i` that the range from `start` to `end` covers:
/// from `start.1` in the first block and up to `end.1` in the last, both
/// clipped to the text.
pub open spec fn range_piece(b: BlockView, i: int, start: (int, int), end: (int, int)) -> Seq<char> {
    let n = b.text.len() as int;
    let a = if i == start.0 {
        min_int(start.1, n)
    } else {
        0
    };
    let e = if i == end.0 {
        min_int(end.1, n)
    } else {
        n
    };
    if a <= e {
        b.text.subrange(a, e)
    } else {
        seq![]
    }
}

/// The covered parts of blocks `start.0` to `i`, joined by line breaks.
pub open spec fn range_text_upto(
    blocks: Seq<BlockView>,
    start: (int, int),
    end: (int, int),
    i: int,
) -> Seq<char>
    decreases i - start.0,
{
    if i <= start.0 {
        range_piece(blocks[start.0], start.0, start, end)
    } else {
        range_text_upto(blocks, start, end, i - 1) + seq!['\n'] + range_piece(
            blocks[i],
            i,
            start,
            end,
        )
    }
}

/// The text between positions `start` and `end`, blocks separated by line
/// breaks.
pub open spec fn range_text(blocks: Seq<BlockView>, start: (int, int), end: (int, int)) -> Seq<
    char,
> {
    range_text_upto(blocks, start, end, end.0)
}

impl Document {
    /// Whether the style runs of block `block_idx` plus `extra` characters
    /// still add up within `usize` (see `runs_fit`).
    pub fn runs_fit_check(&self, block_idx: usize, extra: usize) -> (b: bool)
        ensures
            b == runs_fit(self.blocks_view(), block_idx as int, extra as int),
    {
        proof {
            self.lemma_view();
        }
        if block_idx >= self.blocks.len() {
            return true;
        }
        let styles = &self.blocks[block_idx].styles;
        let ghost st = styles@;
        assert(st == self.blocks_view()[block_idx as int].styles);
        let limit = usize::MAX - extra;
        let mut total: usize = 0;
        let mut k: usize = 0;
        while k < styles.len()
            invariant
                k <= st.len(),
                st == styles@,
                block_idx < self.blocks_view().len(),
                st == self.blocks_view()[block_idx as int].styles,
                limit == usize::MAX - extra,
                total == styles_prefix_len(st, k as int),
                total <= limit,
            decreases st.len() - k,
        {
            let len = styles[k].len;
            if len > limit - total {
                proof {
                    lemma_prefix_len_mono(st, k + 1, st.len() as int);
                }
                return false;
            }
            total = total + len;
            k = k + 1;
        }
        true
    }

    /// The text between `start` and `end` (see `range_text`).
    pub fn get_text_in_range(&self, start: (usize, usize), end: (usize, usize)) -> (r: String)
        requires
            start.0 <= end.0 < self.blocks_view().len(),
        ensures
            r@ == range_text(
                self.blocks_view(),
                (start.0 as int, start.1 as int),
                (end.0 as int, end.1 as int),
            ),
    {
        proof {
            self.lemma_view();
        }
        let ghost bv = self.blocks_view();
        let ghost s = (start.0 as int, start.1 as int);
        let ghost e = (end.0 as int, end.1 as int);
        let mut r = String::new();
        let mut i = start.0;
        loop
            invariant
                start.0 <= i <= end.0 < bv.len(),
                bv == self.blocks_view(),
                bv == blocks_view(self.blocks@),
                s == (start.0 as int, start.1 as int),
                e == (end.0 as int, end.1 as int),
                i == start.0 ==> r@.len() == 0,
                i > start.0 ==> r@ == range_text_upto(bv, s, e, i - 1) + seq!['\n'],
            decreases end.0 - i,
        {
            let chars = chars_of(self.blocks[i].text.as_str());
            assert(chars@ == bv[i as int].text);
            let n = chars.len();
            let a = if i == start.0 {
                if start.1 < n {
                    start.1
                } else {
                    n
                }
            } else {
                0
            };
            let b = if i == end.0 {
                if end.1 < n {
                    end.1
                } else {
                    n
                }
            } else {
                n
            };
            let ghost before = r@;
            if a <= b {
                push_chars(&mut r, &chars, a, b);
            }
            assert(r@ =~= before + range_piece(bv[i as int], i as int, s, e));
            if i == end.0 {
                assert(r@ =~= range_text_upto(bv, s, e, i as int));
                return r;
            }
            push_char(&mut r, '\n');
            assert(r@ =~= range_text_upto(bv, s, e, i as int) + seq!['\n']);
            i = i + 1;
        }
    }
}

impl Document {
    /// The identity `generate_id` hands out next.
    pub fn peek_next_id(&self) -> (r: u64)
        ensures
            r == self.next_id_value(),
    {
        self.next_id
    }

    /// Sets the kind of block `idx` (nothing else changes).
    pub fn set_block_type(&mut self, idx: usize, ty: BlockType)
        requires
            idx < old(self).blocks_view().len(),
        ensures
            final(self).blocks_view() == old(self).blocks_view().update(
                idx as int,
                BlockView { ty, ..old(self).blocks_view()[idx as int] },
            ),
            final(self).next_id_value() == old(self).next_id_value(),
    {
        let b = self.blocks[idx].clone();
        let ghost before = self.blocks@;
        self.blocks.set(
            idx,
            Block { id: b.id, ty, text: b.text, styles: b.styles, indent: b.indent, is_dirty: b.is_dirty },
        );
        assert(blocks_view(self.blocks@) =~= blocks_view(before).update(
            idx as int,
            BlockView { ty, ..blocks_view(before)[idx as int] },
        ));
    }

    /// Sets the list indentation of block `idx` (nothing else changes).
    pub fn set_block_indent(&mut self, idx: usize, indent: usize)
        requires
            idx < old(self).blocks_view().len(),
        ensures
            final(self).blocks_view() == old(self).blocks_view().update(
                idx as int,
                BlockView { indent, ..old(self).blocks_view()[idx as int] },
            ),
            final(self).next_id_value() == old(self).next_id_value(),
    {
        let b = self.blocks[idx].clone();
        let ghost before = self.blocks@;
        self.blocks.set(
            idx,
            Block { id: b.id, ty: b.ty, text: b.text, styles: b.styles, indent, is_dirty: b.is_dirty },
        );
        assert(blocks_view(self.blocks@) =~= blocks_view(before).update(
            idx as int,
            BlockView { indent, ..blocks_view(before)[idx as int] },
        ));
    }

    /// Inserts `block` at `idx`.
    pub fn insert_block(&mut self, idx: usize, block: Block)
        requires
            idx <= old(self).blocks_view().len(),
        ensures
            final(self).blocks_view() == old(self).blocks_view().insert(idx as int, block@),
            final(self).next_id_value() == old(self).next_id_value(),
    {
        let ghost before = self.blocks@;
        let ghost bv = block@;
        self.blocks.insert(idx, block);
        assert(blocks_view(self.blocks@) =~= blocks_view(before).insert(idx as int, bv));
    }
}

/// Removing the character just inserted gives the text back: inserting one
/// character at position `c` of a block and then removing the character at
/// `c` leaves the text of every block as it was.
pub proof fn law_remove_undoes_insert(blocks: Seq<BlockView>, idx: int, c: int, ch: char)
    requires
        0 <= idx < blocks.len(),
        0 <= c <= blocks[idx].text.len(),
    ensures
        ({
            let (after, removed) = doc_after_remove(doc_after_insert(blocks, idx, c, seq![ch]), idx, c);
            &&& removed
            &&& after.len() == blocks.len()
            &&& forall|j: int| 0 <= j < blocks.len() ==> #[trigger] after[j].text == blocks[j].text
        }),
{
    let t = blocks[idx].text;
    let ins = doc_after_insert(blocks, idx, c, seq![ch]);
    assert(ins[idx].text =~= t.subrange(0, c) + seq![ch] + t.subrange(c, t.len() as int));
    assert(ins[idx].text.remove(c) =~= t);
}

/// Removing `n` characters at `c` (with `c + n` within the text) cuts
/// `c..c + n` out of that block's text and leaves the other blocks' texts.
proof fn lemma_remove_n_text(blocks: Seq<BlockView>, i: int, c: int, n: nat)
    requires
        0 <= i < blocks.len(),
        0 <= c,
        c + n <= blocks[i].text.len(),
    ensures
        remove_n(blocks, i, c, n).len() == blocks.len(),
        remove_n(blocks, i, c, n)[i].text == blocks[i].text.subrange(0, c) + blocks[i].text.subrange(
            c + n,
            blocks[i].text.len() as int,
        ),
        forall|j: int|
            0 <= j < blocks.len() && j != i ==> #[trigger] remove_n(blocks, i, c, n)[j].text
                == blocks[j].text,
    decreases n,
{
    let t = blocks[i].text;
    if n == 0 {
        assert(t.subrange(0, c) + t.subrange(c, t.len() as int) =~= t);
    } else {
        let b1 = doc_after_remove(blocks, i, c).0;
        assert(b1[i].text == t.remove(c));
        lemma_remove_n_text(b1, i, c, (n - 1) as nat);
        assert(t.remove(c).subrange(0, c) + t.remove(c).subrange(c + n - 1, t.len() - 1) =~= t.subrange(
            0,
            c,
        ) + t.subrange(c + n, t.len() as int));
    }
}

/// Deleting a range inside one block cuts exactly that range out of its
/// text; the other blocks keep their texts.
pub proof fn law_delete_in_block_cuts_range(blocks: Seq<BlockView>, i: int, s: int, e: int)
    requires
        0 <= i < blocks.len(),
        0 <= s <= e <= blocks[i].text.len(),
    ensures
        ({
            let after = doc_after_delete_range(blocks, (i, s), (i, e));
            let t = blocks[i].text;
            &&& after.len() == blocks.len()
            &&& after[i].text == t.subrange(0, s) + t.subrange(e, t.len() as int)
            &&& forall|j: int| 0 <= j < blocks.len() && j != i ==> #[trigger] after[j].text == blocks[j].text
        }),
{
    lemma_remove_n_text(blocks, i, s, (e - s) as nat);
}

/// Joining a block to the one before it concatenates their texts, leaves
/// one block less, and reports where the joined text begins.
pub proof fn law_merge_joins_texts(blocks: Seq<BlockView>, idx: int)
    requires
        0 < idx < blocks.len(),
    ensures
        ({
            let (after, r) = doc_after_merge(blocks, idx);
            &&& r == Some(blocks[idx - 1].text.len() as usize)
            &&& after.len() == blocks.len() - 1
            &&& after[idx - 1].text == blocks[idx - 1].text + blocks[idx].text
        }),
{
}

} // verus!
