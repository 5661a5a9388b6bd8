//! Blocks of the document editor: plain text plus a run-length list of
//! styles covering it.
use vstd::prelude::*;

use crate::text::{chars_of, push_char, push_chars};

verus! {

/// Kind of a block.
#[derive(Debug, Clone, Copy, PartialEq, Eq, Structural)]
pub enum BlockType {
    Paragraph,
    Heading1,
    Heading2,
    Heading3,
    Heading4,
    Heading5,
    Quote,
    CodeBlock,
    ListItem,
    OrderedListItem,
}

/// Inline style of a run of characters.
#[derive(Debug, Clone, Copy, PartialEq, Eq, Structural)]
pub struct StyleBits {
    pub is_bold: bool,
    pub is_italic: bool,
    pub is_code: bool,
}

impl Default for StyleBits {
    fn default() -> (r: Self)
        ensures
            !r.is_bold && !r.is_italic && !r.is_code,
    {
        StyleBits { is_bold: false, is_italic: false, is_code: false }
    }
}

/// The plain style.
pub open spec fn plain_style() -> StyleBits {
    StyleBits { is_bold: false, is_italic: false, is_code: false }
}

/// `len` consecutive characters in one style.
#[derive(Debug, Clone, Copy, PartialEq, Eq, Structural)]
pub struct StyleSpan {
    pub len: usize,
    pub style: StyleBits,
}

/// A block: identity, kind, text, style runs, list indentation level, and
/// whether its layout must be computed again.
#[derive(Debug)]
pub struct Block {
    pub id: u64,
    pub ty: BlockType,
    pub text: String,
    pub styles: Vec<StyleSpan>,
    pub indent: usize,
    pub is_dirty: bool,
}

/// Abstract block: the text as characters and the style runs.
pub struct BlockView {
    pub id: u64,
    pub ty: BlockType,
    pub text: Seq<char>,
    pub styles: Seq<StyleSpan>,
    pub indent: usize,
    pub is_dirty: bool,
}

impl View for Block {
    type V = BlockView;

    open spec fn view(&self) -> BlockView {
        BlockView {
            id: self.id,
            ty: self.ty,
            text: self.text@,
            styles: self.styles@,
            indent: self.indent,
            is_dirty: self.is_dirty,
        }
    }
}

impl Clone for Block {
    fn clone(&self) -> (r: Self)
        ensures
            r@ == self@,
    {
        Block {
            id: self.id,
            ty: self.ty,
            text: self.text.clone(),
            styles: self.styles.clone(),
            indent: self.indent,
            is_dirty: self.is_dirty,
        }
    }
}

/// Opening markers of a style: code, then bold, then italic.
pub open spec fn open_markers(st: StyleBits) -> Seq<char> {
    (if st.is_code {
        seq!['`']
    } else {
        seq![]
    }) + (if st.is_bold {
        seq!['*', '*']
    } else {
        seq![]
    }) + (if st.is_italic {
        seq!['*']
    } else {
        seq![]
    })
}

/// Closing markers of a style: italic, then bold, then code.
pub open spec fn close_markers(st: StyleBits) -> Seq<char> {
    (if st.is_italic {
        seq!['*']
    } else {
        seq![]
    }) + (if st.is_bold {
        seq!['*', '*']
    } else {
        seq![]
    }) + (if st.is_code {
        seq!['`']
    } else {
        seq![]
    })
}

/// `a` clipped to at most `n`.
pub open spec fn min_int(a: int, n: int) -> int {
    if a < n {
        a
    } else {
        n
    }
}

/// Markdown of the style runs from `k` on, over `text` from position `p`:
/// each run takes its length of characters (fewer when the text runs out)
/// between its opening and closing markers.
pub open spec fn markdown_from(text: Seq<char>, styles: Seq<StyleSpan>, k: int, p: int) -> Seq<
    char,
>
    decreases styles.len() - k,
{
    if k < 0 || k >= styles.len() {
        seq![]
    } else {
        let q = min_int(p + styles[k].len, text.len() as int);
        open_markers(styles[k].style) + text.subrange(p, q) + close_markers(styles[k].style)
            + markdown_from(text, styles, k + 1, q)
    }
}

/// Markdown of a block's text and styles.
pub open spec fn block_markdown(b: BlockView) -> Seq<char> {
    markdown_from(b.text, b.styles, 0, 0)
}

/// Sum of the lengths of style runs `styles[..k]`.
pub open spec fn styles_prefix_len(styles: Seq<StyleSpan>, k: int) -> int
    decreases k,
{
    if k <= 0 || styles.len() == 0 {
        0
    } else {
        styles_prefix_len(styles, k - 1) + styles[k - 1].len
    }
}

/// Sum of the lengths of all style runs.
pub open spec fn styles_len(styles: Seq<StyleSpan>) -> int {
    styles_prefix_len(styles, styles.len() as int)
}

/// The style runs cover exactly the text.
pub open spec fn styles_cover(b: BlockView) -> bool {
    styles_len(b.styles) == b.text.len()
}

fn push_open_markers(buf: &mut String, st: StyleBits)
    ensures
        final(buf)@ == old(buf)@ + open_markers(st),
{
    let ghost b0 = buf@;
    if st.is_code {
        push_char(buf, '`');
    }
    if st.is_bold {
        push_char(buf, '*');
        push_char(buf, '*');
    }
    if st.is_italic {
        push_char(buf, '*');
    }
    assert(buf@ =~= b0 + open_markers(st));
}

fn push_close_markers(buf: &mut String, st: StyleBits)
    ensures
        final(buf)@ == old(buf)@ + close_markers(st),
{
    let ghost b0 = buf@;
    if st.is_italic {
        push_char(buf, '*');
    }
    if st.is_bold {
        push_char(buf, '*');
        push_char(buf, '*');
    }
    if st.is_code {
        push_char(buf, '`');
    }
    assert(buf@ =~= b0 + close_markers(st));
}

impl Block {
    /// A block of the given identity, kind and text, in one plain run.
    pub fn new(id: u64, ty: BlockType, text: &str) -> (r: Self)
        ensures
            r@.id == id,
            r@.ty == ty,
            r@.text == text@,
            r@.styles == seq![StyleSpan { len: text@.len() as usize, style: plain_style() }],
            r@.indent == 0,
            r@.is_dirty,
    {
        let chars = chars_of(text);
        let mut s = String::new();
        push_chars(&mut s, &chars, 0, chars.len());
        assert(chars@.subrange(0, chars@.len() as int) =~= chars@);
        let styles = vec![StyleSpan { len: chars.len(), style: StyleBits::default() }];
        Block { id, ty, text: s, styles, indent: 0, is_dirty: true }
    }

    /// Number of characters of the text.
    pub fn text_len(&self) -> (n: usize)
        ensures
            n == self@.text.len(),
    {
        chars_of(self.text.as_str()).len()
    }

    /// The text.
    pub fn full_text(&self) -> (r: &str)
        ensures
            r@ == self@.text,
    {
        self.text.as_str()
    }

    /// Appends the Markdown of the block (see `block_markdown`) to `buf`.
    #[verifier::rlimit(40)]
    #[verifier::spinoff_prover]
    pub fn write_markdown_to(&self, buf: &mut String)
        ensures
            final(buf)@ == old(buf)@ + block_markdown(self@),
    {
        let chars = chars_of(self.text.as_str());
        let n = chars.len();
        let mut p: usize = 0;
        let mut k: usize = 0;
        let ghost b0 = buf@;
        while k < self.styles.len()
            invariant
                chars@ == self@.text,
                n == chars@.len(),
                k <= self@.styles.len(),
                p <= n,
                b0 + markdown_from(self@.text, self@.styles, 0, 0) == buf@ + markdown_from(
                    self@.text,
                    self@.styles,
                    k as int,
                    p as int,
                ),
            decreases self@.styles.len() - k,
        {
            let span = self.styles[k];
            let q = if span.len <= n - p {
                p + span.len
            } else {
                n
            };
            let ghost before = buf@;
            push_open_markers(buf, span.style);
            push_chars(buf, &chars, p, q);
            push_close_markers(buf, span.style);
            assert(buf@ + markdown_from(self@.text, self@.styles, k + 1, q as int) =~= before
                + markdown_from(self@.text, self@.styles, k as int, p as int));
            p = q;
            k = k + 1;
        }
        assert(buf@ + markdown_from(self@.text, self@.styles, k as int, p as int) =~= buf@);
    }

    /// The Markdown of the block (see `block_markdown`).
    pub fn to_markdown(&self) -> (r: String)
        ensures
            r@ == block_markdown(self@),
    {
        let mut s = String::new();
        self.write_markdown_to(&mut s);
        assert(s@ =~= block_markdown(self@));
        s
    }

    /// Marks the layout of the block as out of date.
    pub fn mark_dirty(&mut self)
        ensures
            final(self)@ == (BlockView { is_dirty: true, ..old(self)@ }),
    {
        self.is_dirty = true;
    }
}

} // verus!
