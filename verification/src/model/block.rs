//! Blocks made of styled text spans.
use vstd::prelude::*;

use crate::text::{char_count_bound, chars_of, push_char, push_str};

verus! {

/// Kind of a block.
#[derive(Debug, Clone, Copy, PartialEq, Eq, Structural)]
pub enum BlockType {
    Paragraph,
    Heading1,
    Heading2,
    Heading3,
    Quote,
    CodeBlock,
}

/// A run of text in one style.
#[derive(Debug)]
pub struct TextSpan {
    pub text: String,
    pub is_bold: bool,
    pub is_italic: bool,
    pub is_code: bool,
}

/// Abstract span: its characters and style flags.
pub struct SpanView {
    pub text: Seq<char>,
    pub is_bold: bool,
    pub is_italic: bool,
    pub is_code: bool,
}

impl View for TextSpan {
    type V = SpanView;

    open spec fn view(&self) -> SpanView {
        SpanView {
            text: self.text@,
            is_bold: self.is_bold,
            is_italic: self.is_italic,
            is_code: self.is_code,
        }
    }
}

impl Clone for TextSpan {
    fn clone(&self) -> (r: Self)
        ensures
            r@ == self@,
    {
        TextSpan {
            text: self.text.clone(),
            is_bold: self.is_bold,
            is_italic: self.is_italic,
            is_code: self.is_code,
        }
    }
}

/// A plain span of the given characters.
pub open spec fn plain_span(t: Seq<char>) -> SpanView {
    SpanView { text: t, is_bold: false, is_italic: false, is_code: false }
}

impl TextSpan {
    /// A plain span holding `text`.
    pub fn new(text: &str) -> (r: Self)
        ensures
            r@ == plain_span(text@),
    {
        let mut s = String::new();
        push_str(&mut s, text);
        TextSpan { text: s, is_bold: false, is_italic: false, is_code: false }
    }

    /// Number of characters of the span.
    pub fn len(&self) -> (n: usize)
        ensures
            n == self@.text.len(),
    {
        chars_of(self.text.as_str()).len()
    }
}

/// A block: identity, kind, spans, and whether its layout is out of date.
#[derive(Debug)]
pub struct Block {
    pub id: u64,
    pub ty: BlockType,
    pub content: Vec<TextSpan>,
    pub is_dirty: bool,
}

/// Abstract block.
pub struct BlockView {
    pub id: u64,
    pub ty: BlockType,
    pub content: Seq<SpanView>,
    pub is_dirty: bool,
}

/// The spans of a list, abstractly.
pub open spec fn spans_view(v: Seq<TextSpan>) -> Seq<SpanView> {
    v.map_values(|s: TextSpan| s@)
}

impl View for Block {
    type V = BlockView;

    open spec fn view(&self) -> BlockView {
        BlockView { id: self.id, ty: self.ty, content: spans_view(self.content@), is_dirty: self.is_dirty }
    }
}

/// A copy of a list of spans.
pub fn copy_spans(v: &Vec<TextSpan>) -> (r: Vec<TextSpan>)
    ensures
        spans_view(r@) == spans_view(v@),
        r@.len() == v@.len(),
{
    let mut r: Vec<TextSpan> = Vec::new();
    let mut i: usize = 0;
    while i < v.len()
        invariant
            i <= v@.len(),
            r@.len() == i,
            spans_view(r@) == spans_view(v@).subrange(0, i as int),
        decreases v@.len() - i,
    {
        let s = v[i].clone();
        let ghost prev = r@;
        r.push(s);
        assert forall|j: int| 0 <= j <= i implies #[trigger] spans_view(r@)[j] == spans_view(v@)[j] by {
            if j < i {
                assert(r@[j] == prev[j]);
                assert(spans_view(prev)[j] == spans_view(v@).subrange(0, i as int)[j]);
            } else {
                assert(r@[j] == s);
            }
        }
        i = i + 1;
        assert(spans_view(r@) =~= spans_view(v@).subrange(0, i as int));
    }
    assert(spans_view(v@).subrange(0, i as int) =~= spans_view(v@));
    r
}

impl Clone for Block {
    fn clone(&self) -> (r: Self)
        ensures
            r@ == self@,
    {
        Block { id: self.id, ty: self.ty, content: copy_spans(&self.content), is_dirty: self.is_dirty }
    }
}

/// Characters of the spans `c[..k]`, concatenated.
pub open spec fn text_prefix(c: Seq<SpanView>, k: int) -> Seq<char>
    decreases k,
{
    if k <= 0 || c.len() == 0 {
        seq![]
    } else {
        text_prefix(c, k - 1) + c[k - 1].text
    }
}

/// All characters of the spans, concatenated.
pub open spec fn full_text(c: Seq<SpanView>) -> Seq<char> {
    text_prefix(c, c.len() as int)
}

/// Opening markers of a span: code, bold, italic.
pub open spec fn span_open(s: SpanView) -> Seq<char> {
    (if s.is_code {
        seq!['`']
    } else {
        seq![]
    }) + (if s.is_bold {
        seq!['*', '*']
    } else {
        seq![]
    }) + (if s.is_italic {
        seq!['*']
    } else {
        seq![]
    })
}

/// Closing markers of a span: italic, bold, code.
pub open spec fn span_close(s: SpanView) -> Seq<char> {
    (if s.is_italic {
        seq!['*']
    } else {
        seq![]
    }) + (if s.is_bold {
        seq!['*', '*']
    } else {
        seq![]
    }) + (if s.is_code {
        seq!['`']
    } else {
        seq![]
    })
}

/// Markdown of the spans `c[..k]`: each span's text between its markers.
pub open spec fn markdown_prefix(c: Seq<SpanView>, k: int) -> Seq<char>
    decreases k,
{
    if k <= 0 || c.len() == 0 {
        seq![]
    } else {
        markdown_prefix(c, k - 1) + span_open(c[k - 1]) + c[k - 1].text + span_close(c[k - 1])
    }
}

/// Markdown of a block.
pub open spec fn block_markdown(b: BlockView) -> Seq<char> {
    markdown_prefix(b.content, b.content.len() as int)
}

impl Block {
    /// A block of the given identity and kind with one plain span of `text`.
    pub fn new(id: u64, ty: BlockType, text: &str) -> (r: Self)
        ensures
            r@ == (BlockView { id, ty, content: seq![plain_span(text@)], is_dirty: true }),
    {
        let s = TextSpan::new(text);
        let content = vec![s];
        let r = Block { id, ty, content, is_dirty: true };
        assert(r@.content =~= seq![plain_span(text@)]);
        r
    }

    /// Number of characters of the block.
    pub fn text_len(&self) -> (n: usize)
        requires
            full_text(self@.content).len() <= usize::MAX,
        ensures
            n == full_text(self@.content).len(),
    {
        let mut n: usize = 0;
        let mut k: usize = 0;
        while k < self.content.len()
            invariant
                k <= self@.content.len(),
                full_text(self@.content).len() <= usize::MAX,
                n == text_prefix(self@.content, k as int).len(),
            decreases self@.content.len() - k,
        {
            proof {
                lemma_text_prefix_len_mono(self@.content, k + 1, self@.content.len() as int);
            }
            let l = self.content[k].len();
            assert(self@.content[k as int] == self.content@[k as int]@);
            n = n + l;
            k = k + 1;
        }
        n
    }

    /// All characters of the block.
    pub fn full_text(&self) -> (r: String)
        ensures
            r@ == full_text(self@.content),
    {
        let mut r = String::new();
        let mut k: usize = 0;
        while k < self.content.len()
            invariant
                k <= self@.content.len(),
                r@ == text_prefix(self@.content, k as int),
            decreases self@.content.len() - k,
        {
            assert(self@.content[k as int] == self.content@[k as int]@);
            push_str(&mut r, self.content[k].text.as_str());
            k = k + 1;
        }
        r
    }

    /// Appends the Markdown of the block to `buf`.
    pub fn write_markdown_to(&self, buf: &mut String)
        ensures
            final(buf)@ == old(buf)@ + block_markdown(self@),
    {
        let ghost b0 = buf@;
        let ghost c = self@.content;
        let mut k: usize = 0;
        while k < self.content.len()
            invariant
                c == self@.content,
                k <= c.len(),
                buf@ == b0 + markdown_prefix(c, k as int),
            decreases c.len() - k,
        {
            let span = &self.content[k];
            assert(c[k as int] == span@);
            let ghost before = buf@;
            push_span(buf, span);
            assert(markdown_prefix(c, k + 1) == markdown_prefix(c, k as int) + span_open(c[k as int])
                + c[k as int].text + span_close(c[k as int]));
            assert(buf@ =~= b0 + markdown_prefix(c, k + 1));
            k = k + 1;
        }
    }

    /// The Markdown of the block.
    pub fn to_markdown(&self) -> (r: String)
        ensures
            r@ == block_markdown(self@),
    {
        let mut s = String::new();
        self.write_markdown_to(&mut s);
        assert(s@ =~= block_markdown(self@));
        s
    }

    /// Marks the layout of the block as out of date.
    pub fn mark_dirty(&mut self)
        ensures
            final(self)@ == (BlockView { is_dirty: true, ..old(self)@ }),
    {
        self.is_dirty = true;
    }
}

/// Appends the Markdown of one span.
fn push_span(buf: &mut String, span: &TextSpan)
    ensures
        final(buf)@ == old(buf)@ + span_open(span@) + span@.text + span_close(span@),
{
    let ghost b0 = buf@;
    if span.is_code {
        push_char(buf, '`');
    }
    if span.is_bold {
        push_char(buf, '*');
        push_char(buf, '*');
    }
    if span.is_italic {
        push_char(buf, '*');
    }
    assert(buf@ =~= b0 + span_open(span@));
    let ghost b1 = buf@;
    push_str(buf, span.text.as_str());
    if span.is_italic {
        push_char(buf, '*');
    }
    if span.is_bold {
        push_char(buf, '*');
        push_char(buf, '*');
    }
    if span.is_code {
        push_char(buf, '`');
    }
    assert(buf@ =~= b1 + span@.text + span_close(span@));
}

/// The text of a prefix of the spans is no longer than that of a longer
/// prefix.
pub proof fn lemma_text_prefix_len_mono(c: Seq<SpanView>, a: int, b: int)
    requires
        0 <= a <= b <= c.len(),
    ensures
        text_prefix(c, a).len() <= text_prefix(c, b).len(),
    decreases b - a,
{
    if a < b {
        lemma_text_prefix_len_mono(c, a, b - 1);
    }
}

} // verus!
