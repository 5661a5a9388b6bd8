//! What a line with inline formatting is drawn as: runs of plain, bold,
//! italic and code text, without the markers.
use vstd::prelude::*;

use crate::markdown::inline::{
    inline_spans, lemma_spans_from_wf, marker_width, parse_inline_formatting, plain_cuts_ok, plain_text,
    span_view,
    spans_view, spans_wf, strip_spans, InlineFormat,
};
use crate::text::{
    byte_slice, char_count_bound, chars_of, is_boundary, lemma_char_pos_mono, lemma_ends_are_boundaries,
    lemma_utf8_len_ge,
    push_byte_slice, str_byte_len, utf8_len,
};

verus! {

/// Draws lines with inline formatting.
#[derive(Debug)]
pub struct RichTextRenderer;

/// How a run of text is drawn.
#[derive(Debug, Clone, Copy, PartialEq, Eq, Structural)]
pub enum RunStyle {
    Plain,
    Bold,
    Italic,
    Code,
}

/// A run of text and how it is drawn.
#[derive(Debug)]
pub struct TextRun {
    pub text: String,
    pub style: RunStyle,
}

/// The drawing style of a format.
pub open spec fn run_style(f: InlineFormat) -> RunStyle {
    match f {
        InlineFormat::Bold => RunStyle::Bold,
        InlineFormat::Italic => RunStyle::Italic,
        InlineFormat::Code => RunStyle::Code,
    }
}

/// The runs of `t` for the spans `sp`, the text before them having been
/// drawn up to byte `last`: plain text up to each span, the span's text
/// without its markers, and the plain rest of the line.  Span positions
/// are character positions taken as byte offsets.
pub open spec fn runs_from(t: Seq<char>, sp: Seq<(int, int, InlineFormat)>, last: int) -> Seq<
    (Seq<char>, RunStyle),
>
    decreases sp.len(),
{
    let n = utf8_len(t) as int;
    if sp.len() == 0 {
        if last < n {
            seq![(byte_slice(t, last, n), RunStyle::Plain)]
        } else {
            seq![]
        }
    } else {
        let (s, e, f) = sp[0];
        let w = marker_width(f);
        (if s > last {
            seq![(byte_slice(t, last, s), RunStyle::Plain)]
        } else {
            seq![]
        }) + seq![(byte_slice(t, s + w, e - w), run_style(f))] + runs_from(
            t,
            sp.subrange(1, sp.len() as int),
            e,
        )
    }
}

/// Every byte offset at which `runs_from` cuts the line lies on a
/// character boundary (elsewhere slicing the line fails).
pub open spec fn run_cuts_ok(t: Seq<char>, sp: Seq<(int, int, InlineFormat)>, last: int) -> bool
    decreases sp.len(),
{
    if sp.len() == 0 {
        last < utf8_len(t) ==> is_boundary(t, last)
    } else {
        let w = marker_width(sp[0].2);
        &&& sp[0].0 > last ==> is_boundary(t, last) && is_boundary(t, sp[0].0)
        &&& is_boundary(t, sp[0].0 + w)
        &&& is_boundary(t, sp[0].1 - w)
        &&& run_cuts_ok(t, sp.subrange(1, sp.len() as int), sp[0].1)
    }
}

/// The runs a line is drawn as.
pub open spec fn line_runs(t: Seq<char>) -> Seq<(Seq<char>, RunStyle)> {
    runs_from(t, inline_spans(t), 0)
}

/// A list of runs as (text, style) pairs.
pub open spec fn runs_view(v: Seq<TextRun>) -> Seq<(Seq<char>, RunStyle)> {
    v.map_values(|r: TextRun| (r.text@, r.style))
}

impl RichTextRenderer {
    /// The runs `text` is drawn as (see `line_runs`); the cuts must lie on
    /// character boundaries.
    pub fn render_segments(text: &str) -> (r: Vec<TextRun>)
        requires
            run_cuts_ok(text@, inline_spans(text@), 0),
        ensures
            runs_view(r@) == line_runs(text@),
    {
        char_count_bound(text);
        let spans = parse_inline_formatting(text);
        let chars = chars_of(text);
        let n = str_byte_len(text);
        let ghost sv = spans_view(spans@);
        proof {
            lemma_spans_from_wf(text@, 0);
            lemma_utf8_len_ge(text@);
            lemma_ends_are_boundaries(text@);
        }
        let mut out: Vec<TextRun> = Vec::new();
        let mut last: usize = 0;
        let mut i: usize = 0;
        assert(sv.subrange(0, sv.len() as int) =~= sv);
        while i < spans.len()
            invariant
                i <= spans@.len(),
                sv == spans_view(spans@),
                sv == inline_spans(text@),
                chars@ == text@,
                n == utf8_len(text@),
                n <= isize::MAX,
                spans_wf(text@, sv, 0),
                run_cuts_ok(text@, sv.subrange(i as int, sv.len() as int), last as int),
                i > 0 ==> last as int == sv[i - 1].1,
                i == 0 ==> last == 0,
                last <= chars@.len(),
                runs_view(out@) + runs_from(text@, sv.subrange(i as int, sv.len() as int), last as int)
                    == line_runs(text@),
            decreases spans@.len() - i,
        {
            let ghost rest = sv.subrange(i as int, sv.len() as int);
            assert(rest[0] == sv[i as int]);
            assert(rest.subrange(1, rest.len() as int) =~= sv.subrange(i + 1, sv.len() as int));
            assert(sv[i as int] == span_view(spans@[i as int]));
            if i > 0 {
                assert(sv[i - 1].1 <= sv[i as int].0);
            }
            let start = spans[i].range.start;
            let end = spans[i].range.end;
            let f = spans[i].format;
            let ghost before = runs_view(out@);
            if start > last {
                let mut plain = String::new();
                push_byte_slice(&mut plain, &chars, last, start);
                out.push(TextRun { text: plain, style: RunStyle::Plain });
            }
            let (w, style): (usize, RunStyle) = match f {
                InlineFormat::Bold => (2, RunStyle::Bold),
                InlineFormat::Italic => (1, RunStyle::Italic),
                InlineFormat::Code => (1, RunStyle::Code),
            };
            let mut inner = String::new();
            push_byte_slice(&mut inner, &chars, start + w, end - w);
            out.push(TextRun { text: inner, style });
            assert(runs_view(out@) =~= before + (if start > last {
                seq![(byte_slice(text@, last as int, start as int), RunStyle::Plain)]
            } else {
                Seq::<(Seq<char>, RunStyle)>::empty()
            }) + seq![(byte_slice(text@, start + w, end - w), run_style(f))]);
            last = end;
            i = i + 1;
        }
        let ghost before = runs_view(out@);
        if last < n {
            let mut plain = String::new();
            push_byte_slice(&mut plain, &chars, last, n);
            out.push(TextRun { text: plain, style: RunStyle::Plain });
        }
        assert(runs_view(out@) =~= before + runs_from(text@, Seq::empty(), last as int));
        assert(sv.subrange(i as int, sv.len() as int) =~= Seq::<(int, int, InlineFormat)>::empty());
        out
    }

    /// Whether `text` holds any inline formatting.
    pub fn has_inline_formatting(text: &str) -> (b: bool)
        ensures
            b == (inline_spans(text@).len() > 0),
    {
        let spans = parse_inline_formatting(text);
        spans.len() > 0
    }
}

/// The texts of the runs, one after another.
pub open spec fn run_texts(rs: Seq<(Seq<char>, RunStyle)>) -> Seq<char>
    decreases rs.len(),
{
    if rs.len() == 0 {
        seq![]
    } else {
        rs[0].0 + run_texts(rs.subrange(1, rs.len() as int))
    }
}

/// The text of a single run is its text.
proof fn lemma_run_texts_single(x: (Seq<char>, RunStyle))
    ensures
        run_texts(seq![x]) == x.0,
{
    assert(seq![x].subrange(1, 1) =~= Seq::<(Seq<char>, RunStyle)>::empty());
    assert(run_texts(Seq::<(Seq<char>, RunStyle)>::empty()) == Seq::<char>::empty());
    assert(x.0 + Seq::<char>::empty() =~= x.0);
}

/// The texts of concatenated runs are concatenated.
proof fn lemma_run_texts_concat(a: Seq<(Seq<char>, RunStyle)>, b: Seq<(Seq<char>, RunStyle)>)
    ensures
        run_texts(a + b) == run_texts(a) + run_texts(b),
    decreases a.len(),
{
    if a.len() == 0 {
        assert(a + b =~= b);
    } else {
        lemma_run_texts_concat(a.subrange(1, a.len() as int), b);
        assert((a + b).subrange(1, (a + b).len() as int) =~= a.subrange(1, a.len() as int) + b);
        assert(run_texts(a + b) =~= run_texts(a) + run_texts(b));
    }
}

/// The runs from byte `last` on show the text from there on without the
/// markers of the spans.
proof fn lemma_runs_are_stripped(t: Seq<char>, sp: Seq<(int, int, InlineFormat)>, last: int)
    requires
        spans_wf(t, sp, last),
        plain_cuts_ok(t, sp, last),
        0 <= last <= t.len(),
    ensures
        run_texts(runs_from(t, sp, last)) == strip_spans(t, sp, last),
    decreases sp.len(),
{
    lemma_utf8_len_ge(t);
    lemma_ends_are_boundaries(t);
    let n = utf8_len(t) as int;
    if sp.len() == 0 {
        if last < n {
            lemma_run_texts_single((byte_slice(t, last, n), RunStyle::Plain));
        } else {
            assert(byte_slice(t, last, n) =~= Seq::<char>::empty());
        }
    } else {
        let (s, e, f) = sp[0];
        let w = marker_width(f);
        let rest = sp.subrange(1, sp.len() as int);
        assert(rest =~= sp.drop_first());
        assert forall|j: int| 0 <= j < rest.len() implies last <= (#[trigger] rest[j]).0 && rest[j].0
            + 2 * marker_width(rest[j].2) <= rest[j].1 <= t.len() by {
            assert(rest[j] == sp[j + 1]);
            assert(sp[0].1 <= sp[j + 1].0);
        }
        assert forall|j: int| 0 <= j < rest.len() implies e <= (#[trigger] rest[j]).0 by {
            assert(rest[j] == sp[j + 1]);
        }
        assert forall|j: int, k: int| 0 <= j < k < rest.len() implies (#[trigger] rest[j]).1 <= (
        #[trigger] rest[k]).0 by {
            assert(rest[j] == sp[j + 1]);
            assert(rest[k] == sp[k + 1]);
        }
        lemma_runs_are_stripped(t, rest, e);
        let before = if s > last {
            seq![(byte_slice(t, last, s), RunStyle::Plain)]
        } else {
            Seq::<(Seq<char>, RunStyle)>::empty()
        };
        let mid = seq![(byte_slice(t, s + w, e - w), run_style(f))];
        lemma_run_texts_concat(before + mid, runs_from(t, rest, e));
        lemma_run_texts_concat(before, mid);
        lemma_run_texts_single((byte_slice(t, s + w, e - w), run_style(f)));
        if s > last {
            lemma_run_texts_single((byte_slice(t, last, s), RunStyle::Plain));
        } else {
            lemma_char_pos_mono(t, last, last);
            assert(byte_slice(t, last, s) =~= Seq::<char>::empty());
        }
        assert(run_texts(runs_from(t, sp, last)) =~= strip_spans(t, sp, last));
    }
}

/// Drawing a line shows exactly its plain text: the texts of its runs,
/// one after another, are the line without its inline markers (on every
/// line whose plain text can be taken).
pub proof fn law_rendered_text_is_plain_text(t: Seq<char>)
    requires
        plain_cuts_ok(t, inline_spans(t), 0),
    ensures
        run_texts(line_runs(t)) == plain_text(t),
{
    lemma_spans_from_wf(t, 0);
    lemma_runs_are_stripped(t, inline_spans(t), 0);
}

} // verus!
