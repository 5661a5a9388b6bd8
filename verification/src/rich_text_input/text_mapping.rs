//! Correspondence between the raw text of an input (with markers) and the
//! text it displays (markers removed).
use vstd::prelude::*;

use crate::rich_text_input::inline::{
    inline_spans, lemma_spans_from_wf, marker_width, parse_inline_formatting, spans_from,
    spans_view, spans_wf, InlineFormat,
};
use crate::text::{
    byte_slice, char_count_bound, chars_of, is_ascii_text, is_boundary, lemma_ascii_utf8_len,
    lemma_char_pos_mono, lemma_ends_are_boundaries,
    lemma_utf8_len_ge, push_byte_slice, str_byte_len, utf8_len,
};

verus! {

/// A run of displayed text and the raw text it comes from.
#[derive(Debug)]
pub struct VisualSegment {
    pub visual_start: usize,
    pub visual_end: usize,
    pub real_start: usize,
    pub real_end: usize,
    pub format: Option<InlineFormat>,
}

impl Clone for VisualSegment {
    fn clone(&self) -> (r: Self)
        ensures
            r == *self,
    {
        VisualSegment {
            visual_start: self.visual_start,
            visual_end: self.visual_end,
            real_start: self.real_start,
            real_end: self.real_end,
            format: self.format,
        }
    }
}

/// The displayed text and the segments that map it to the raw text.
#[derive(Debug)]
pub struct TextMapping {
    pub visual_text: String,
    pub segments: Vec<VisualSegment>,
}

impl Default for TextMapping {
    fn default() -> (r: Self)
        ensures
            r.visual_text@.len() == 0,
            r.segments@.len() == 0,
    {
        TextMapping { visual_text: String::new(), segments: Vec::new() }
    }
}

/// A segment as (visual start, visual end, real start, real end, format).
pub open spec fn seg_view(g: VisualSegment) -> (int, int, int, int, Option<InlineFormat>) {
    (g.visual_start as int, g.visual_end as int, g.real_start as int, g.real_end as int, g.format)
}

/// A list of segments as tuples.
pub open spec fn segs_view(v: Seq<VisualSegment>) -> Seq<(int, int, int, int, Option<InlineFormat>)> {
    v.map_values(|g: VisualSegment| seg_view(g))
}

/// Displayed text and segments for the raw text from byte `last` on whose
/// remaining spans are `sp`, displayed from byte `vpos` on.  Span positions
/// are character positions taken as byte offsets, and every length is a
/// number of bytes: plain text between spans is shown as is (a segment
/// without format), a span is shown without its markers (a segment with its
/// format, covering the whole span in the raw text).
pub open spec fn mapping_from(
    s: Seq<char>,
    sp: Seq<(int, int, InlineFormat)>,
    last: int,
    vpos: int,
) -> (Seq<char>, Seq<(int, int, int, int, Option<InlineFormat>)>)
    decreases sp.len(),
{
    let n = utf8_len(s) as int;
    if sp.len() == 0 {
        if last < n {
            (byte_slice(s, last, n), seq![(vpos, vpos + n - last, last, n, None)])
        } else {
            (seq![], seq![])
        }
    } else {
        let st = sp[0].0;
        let en = sp[0].1;
        let f = sp[0].2;
        let w = marker_width(f);
        let plain = if st > last {
            byte_slice(s, last, st)
        } else {
            seq![]
        };
        let plain_segs = if st > last {
            seq![(vpos, vpos + (st - last), last, st, None::<InlineFormat>)]
        } else {
            seq![]
        };
        let v2 = if st > last {
            vpos + (st - last)
        } else {
            vpos
        };
        let content = byte_slice(s, st + w, en - w);
        let clen = (en - w) - (st + w);
        let seg = (v2, v2 + clen, st, en, Some(f));
        let rest = mapping_from(s, sp.drop_first(), en, v2 + clen);
        (plain + content + rest.0, plain_segs + seq![seg] + rest.1)
    }
}

/// Every byte offset at which `mapping_from` cuts the text lies on a
/// character boundary (elsewhere slicing the text fails).
pub open spec fn mapping_cuts_ok(s: Seq<char>, sp: Seq<(int, int, InlineFormat)>, last: int) -> bool
    decreases sp.len(),
{
    if sp.len() == 0 {
        last < utf8_len(s) ==> is_boundary(s, last)
    } else {
        let st = sp[0].0;
        let en = sp[0].1;
        let w = marker_width(sp[0].2);
        &&& st > last ==> is_boundary(s, last) && is_boundary(s, st)
        &&& is_boundary(s, st + w)
        &&& is_boundary(s, en - w)
        &&& mapping_cuts_ok(s, sp.drop_first(), en)
    }
}

/// Displayed text and segments of a raw text.
pub open spec fn text_mapping(s: Seq<char>) -> (
    Seq<char>,
    Seq<(int, int, int, int, Option<InlineFormat>)>,
) {
    mapping_from(s, inline_spans(s), 0, 0)
}

/// Mapping positions cannot overflow: within each segment, the real start
/// plus the width of the displayed run (or the displayed start plus the
/// width of the raw run) fits in a `usize`.
pub open spec fn segments_fit(segs: Seq<VisualSegment>) -> bool {
    forall|j: int|
        0 <= j < segs.len() ==> {
            &&& (#[trigger] segs[j]).visual_start <= segs[j].visual_end ==> segs[j].real_start
                + (segs[j].visual_end - segs[j].visual_start) <= usize::MAX
            &&& segs[j].real_start <= segs[j].real_end ==> segs[j].visual_start + (
            segs[j].real_end - segs[j].real_start) <= usize::MAX
        }
}

/// Raw position of displayed position `pos`, looking from segment `j` on:
/// the first segment whose displayed run contains `pos` (ends included)
/// maps it at the same offset; past all of them, the raw end of the last
/// segment (0 without segments).
pub open spec fn visual_to_real_from(segs: Seq<VisualSegment>, pos: int, j: int) -> int
    decreases segs.len() - j,
{
    if j < 0 || j >= segs.len() {
        if segs.len() > 0 {
            segs.last().real_end as int
        } else {
            0
        }
    } else if segs[j].visual_start <= pos <= segs[j].visual_end {
        segs[j].real_start + (pos - segs[j].visual_start)
    } else {
        visual_to_real_from(segs, pos, j + 1)
    }
}

/// Displayed position of raw position `pos`, symmetric to
/// `visual_to_real_from`.
pub open spec fn real_to_visual_from(segs: Seq<VisualSegment>, pos: int, j: int) -> int
    decreases segs.len() - j,
{
    if j < 0 || j >= segs.len() {
        if segs.len() > 0 {
            segs.last().visual_end as int
        } else {
            0
        }
    } else if segs[j].real_start <= pos <= segs[j].real_end {
        segs[j].visual_start + (pos - segs[j].real_start)
    } else {
        real_to_visual_from(segs, pos, j + 1)
    }
}

impl TextMapping {
    /// The displayed text of `text` and its segments (see `text_mapping`);
    /// they cannot overflow.
    pub fn from_text(text: &str) -> (r: Self)
        requires
            mapping_cuts_ok(text@, inline_spans(text@), 0),
        ensures
            (r.visual_text@, segs_view(r.segments@)) == text_mapping(text@),
            segments_fit(r.segments@),
    {
        char_count_bound(text);
        let _n = str_byte_len(text);
        let r = Self::build(text);
        proof {
            lemma_text_mapping_fits(text@, r.segments@);
        }
        r
    }

    /// Builds the mapping of `text` span by span.
    #[verifier::rlimit(100)]
    #[verifier::spinoff_prover]
    fn build(text: &str) -> (r: Self)
        requires
            mapping_cuts_ok(text@, inline_spans(text@), 0),
        ensures
            (r.visual_text@, segs_view(r.segments@)) == text_mapping(text@),
    {
        char_count_bound(text);
        let spans = parse_inline_formatting(text);
        let chars = chars_of(text);
        let n = str_byte_len(text);
        let ghost s = chars@;
        let ghost sp = spans_view(spans@);
        proof {
            lemma_spans_from_wf(s, 0);
            lemma_utf8_len_ge(s);
            lemma_ends_are_boundaries(s);
        }
        let mut visual_text = String::new();
        let mut segments: Vec<VisualSegment> = Vec::new();
        let mut last: usize = 0;
        let mut visual_pos: usize = 0;
        let mut j: usize = 0;
        assert(sp.skip(0) =~= sp);
        assert(visual_text@ + mapping_from(s, sp.skip(0), 0, 0).0 =~= text_mapping(s).0);
        assert(segs_view(segments@) + mapping_from(s, sp.skip(0), 0, 0).1 =~= text_mapping(s).1);
        while j < spans.len()
            invariant
                s == chars@,
                s == text@,
                n == utf8_len(s),
                n <= isize::MAX,
                s.len() <= n,
                is_boundary(s, n as int),
                sp == spans_view(spans@),
                sp == inline_spans(s),
                spans_wf(s, sp, 0),
                j <= sp.len(),
                visual_pos <= last <= s.len() + 1,
                j > 0 ==> last == sp[j - 1].1,
                j == 0 ==> last == 0,
                mapping_cuts_ok(s, sp.skip(j as int), last as int),
                visual_text@ + mapping_from(s, sp.skip(j as int), last as int, visual_pos as int).0
                    == text_mapping(s).0,
                segs_view(segments@) + mapping_from(
                    s,
                    sp.skip(j as int),
                    last as int,
                    visual_pos as int,
                ).1 == text_mapping(s).1,
            decreases sp.len() - j,
        {
            let start = spans[j].range.start;
            let end = spans[j].range.end;
            let format = spans[j].format;
            let w: usize = match format {
                InlineFormat::Bold => 2,
                _ => 1,
            };
            assert(sp[j as int] == (start as int, end as int, format));
            assert(sp.skip(j as int)[0] == sp[j as int]);
            assert(sp.skip(j as int).drop_first() =~= sp.skip(j + 1));
            if j > 0 {
                assert(sp[j - 1].1 <= sp[j as int].0);
            }
            let ghost rest = mapping_from(s, sp.skip(j as int), last as int, visual_pos as int);
            assert(start as int + 2 * w <= end);
            assert(end - w <= s.len());
            assert(start > last ==> is_boundary(s, last as int) && is_boundary(s, start as int));
            assert(is_boundary(s, start + w));
            assert(is_boundary(s, end - w));
            assert(mapping_cuts_ok(s, sp.skip(j + 1), end as int));
            let ghost v0 = visual_text@;
            let ghost g0 = segs_view(segments@);
            if start > last {
                let ghost g1 = segments@;
                segments.push(
                    VisualSegment {
                        visual_start: visual_pos,
                        visual_end: visual_pos + (start - last),
                        real_start: last,
                        real_end: start,
                        format: None,
                    },
                );
                assert(segs_view(segments@) =~= segs_view(g1).push(
                    (visual_pos as int, visual_pos + (start - last), last as int, start as int, None),
                ));
                push_byte_slice(&mut visual_text, &chars, last, start);
                visual_pos = visual_pos + (start - last);
            }
            let content_len = (end - w) - (start + w);
            let ghost g2 = segments@;
            segments.push(
                VisualSegment {
                    visual_start: visual_pos,
                    visual_end: visual_pos + content_len,
                    real_start: start,
                    real_end: end,
                    format: Some(format),
                },
            );
            assert(segs_view(segments@) =~= segs_view(g2).push(
                (visual_pos as int, visual_pos + content_len, start as int, end as int, Some(format)),
            ));
            push_byte_slice(&mut visual_text, &chars, start + w, end - w);
            visual_pos = visual_pos + content_len;
            last = end;
            j = j + 1;
            assert(visual_text@ + mapping_from(s, sp.skip(j as int), last as int, visual_pos as int).0
                =~= v0 + rest.0);
            assert(segs_view(segments@) + mapping_from(
                s,
                sp.skip(j as int),
                last as int,
                visual_pos as int,
            ).1 =~= g0 + rest.1);
        }
        assert(sp.skip(j as int).len() == 0);
        if last < n {
            let ghost g3 = segments@;
            segments.push(
                VisualSegment {
                    visual_start: visual_pos,
                    visual_end: visual_pos + (n - last),
                    real_start: last,
                    real_end: n,
                    format: None,
                },
            );
            assert(segs_view(segments@) =~= segs_view(g3).push(
                (visual_pos as int, visual_pos + (n - last), last as int, n as int, None),
            ));
            push_byte_slice(&mut visual_text, &chars, last, n);
        }
        TextMapping { visual_text, segments }
    }

    /// Raw position of displayed position `visual_pos` (see
    /// `visual_to_real_from`).
    pub fn visual_to_real(&self, visual_pos: usize) -> (r: usize)
        requires
            segments_fit(self.segments@),
        ensures
            r == visual_to_real_from(self.segments@, visual_pos as int, 0),
    {
        let mut j: usize = 0;
        while j < self.segments.len()
            invariant
                j <= self.segments@.len(),
                segments_fit(self.segments@),
                visual_to_real_from(self.segments@, visual_pos as int, 0) == visual_to_real_from(
                    self.segments@,
                    visual_pos as int,
                    j as int,
                ),
            decreases self.segments@.len() - j,
        {
            let seg = &self.segments[j];
            if visual_pos >= seg.visual_start && visual_pos <= seg.visual_end {
                assert(self.segments@[j as int] == *seg);
                return seg.real_start + (visual_pos - seg.visual_start);
            }
            j = j + 1;
        }
        match self.segments.last() {
            Some(s) => s.real_end,
            None => 0,
        }
    }

    /// Displayed position of raw position `real_pos` (see
    /// `real_to_visual_from`).
    pub fn real_to_visual(&self, real_pos: usize) -> (r: usize)
        requires
            segments_fit(self.segments@),
        ensures
            r == real_to_visual_from(self.segments@, real_pos as int, 0),
    {
        let mut j: usize = 0;
        while j < self.segments.len()
            invariant
                j <= self.segments@.len(),
                segments_fit(self.segments@),
                real_to_visual_from(self.segments@, real_pos as int, 0) == real_to_visual_from(
                    self.segments@,
                    real_pos as int,
                    j as int,
                ),
            decreases self.segments@.len() - j,
        {
            let seg = &self.segments[j];
            if real_pos >= seg.real_start && real_pos <= seg.real_end {
                assert(self.segments@[j as int] == *seg);
                return seg.visual_start + (real_pos - seg.real_start);
            }
            j = j + 1;
        }
        match self.segments.last() {
            Some(s) => s.visual_end,
            None => 0,
        }
    }
}


/// No `*`, `_` or `` ` `` in `s`.
pub open spec fn no_input_markers(s: Seq<char>) -> bool {
    forall|j: int| 0 <= j < s.len() ==> #[trigger] s[j] != '*' && s[j] != '_' && s[j] != '`'
}

/// A text without markers has no spans from any position on.
proof fn lemma_no_spans(s: Seq<char>, i: int)
    requires
        no_input_markers(s),
        0 <= i,
    ensures
        spans_from(s, i).len() == 0,
    decreases s.len() - i,
{
    if i < s.len() {
        assert(s[i] != '*' && s[i] != '_' && s[i] != '`');
        lemma_no_spans(s, i + 1);
    }
}

/// `a` clipped to at most `n`.
pub open spec fn at_most(a: int, n: int) -> int {
    if a < n {
        a
    } else {
        n
    }
}

/// A text without markers is shown as it is, and every position maps to
/// itself (clipped to the text's byte length) and back.
pub proof fn law_plain_text_maps_to_itself(s: Seq<char>, m: Seq<VisualSegment>, r: int)
    requires
        no_input_markers(s),
        segs_view(m) == text_mapping(s).1,
        r >= 0,
    ensures
        text_mapping(s).0 == s,
        real_to_visual_from(m, r, 0) == at_most(r, utf8_len(s) as int),
        visual_to_real_from(m, real_to_visual_from(m, r, 0), 0) == at_most(r, utf8_len(s) as int),
{
    let n = utf8_len(s) as int;
    lemma_no_spans(s, 0);
    lemma_ends_are_boundaries(s);
    assert(inline_spans(s) =~= Seq::<(int, int, InlineFormat)>::empty());
    if n > 0 {
        assert(segs_view(m) == seq![(0int, n, 0int, n, None::<InlineFormat>)]);
        assert(segs_view(m).len() == m.len());
        assert(m.len() == 1);
        assert(seg_view(m[0]) == segs_view(m)[0]);
        assert(m[0].visual_start == 0 && m[0].visual_end == n && m[0].real_start == 0
            && m[0].real_end == n);
        assert(m.last() == m[0]);
        assert(real_to_visual_from(m, r, 1) == n);
        let v = real_to_visual_from(m, r, 0);
        assert(v == at_most(r, n));
        assert(visual_to_real_from(m, v, 1) == n);
        assert(visual_to_real_from(m, v, 0) == at_most(r, n));
        assert(s.subrange(0, s.len() as int) =~= s);
    } else {
        assert(segs_view(m).len() == 0);
        assert(segs_view(m).len() == m.len());
        assert(text_mapping(s).0 =~= s) by {
            crate::text::lemma_utf8_len_ge(s);
        }
    }
}


/// The shape of mapping segments: displayed runs follow one another from
/// `vpos` on, each raw run starts at `last` or later and is at least as long
/// as its displayed run, and raw runs come in order.
pub open spec fn segs_shape(g: Seq<(int, int, int, int, Option<InlineFormat>)>, vpos: int, last: int) -> bool {
    &&& g.len() > 0 ==> g[0].0 == vpos
    &&& forall|i: int, j: int|
        0 <= i && j == i + 1 && j < g.len() ==> (#[trigger] g[i]).1 == (#[trigger] g[j]).0
    &&& forall|i: int|
        0 <= i < g.len() ==> (#[trigger] g[i]).0 <= g[i].1 && last <= g[i].2 && g[i].2 + (g[i].1
            - g[i].0) <= g[i].3
    &&& forall|i: int, j: int| 0 <= i < j < g.len() ==> (#[trigger] g[i]).3 <= (#[trigger] g[j]).2
}

/// Every segment of `mapping_from` starts no later on screen than in the
/// raw text, and ends in the raw text at most one past its bytes.
proof fn lemma_mapping_bounds(s: Seq<char>, sp: Seq<(int, int, InlineFormat)>, last: int, vpos: int)
    requires
        spans_wf(s, sp, last),
        0 <= vpos <= last,
        s.len() <= utf8_len(s),
    ensures
        forall|i: int|
            0 <= i < mapping_from(s, sp, last, vpos).1.len() ==> {
                let g = #[trigger] mapping_from(s, sp, last, vpos).1[i];
                &&& 0 <= g.0 <= g.2
                &&& g.3 <= utf8_len(s) + 1
            },
    decreases sp.len(),
{
    if sp.len() > 0 {
        let st = sp[0].0;
        let en = sp[0].1;
        let f = sp[0].2;
        let w = marker_width(f);
        let tail = sp.drop_first();
        assert(spans_wf(s, tail, en)) by {
            assert forall|j: int| 0 <= j < tail.len() implies en <= (#[trigger] tail[j]).0 by {
                assert(tail[j] == sp[j + 1]);
                assert(sp[0].1 <= sp[j + 1].0);
            }
            assert forall|j: int, k: int| 0 <= j < k < tail.len() implies (#[trigger] tail[j]).1
                <= (#[trigger] tail[k]).0 by {
                assert(tail[j] == sp[j + 1]);
                assert(tail[k] == sp[k + 1]);
            }
            assert forall|j: int| 0 <= j < tail.len() implies (#[trigger] tail[j]).0 + 2
                * marker_width(tail[j].2) <= tail[j].1 && tail[j].1 - marker_width(tail[j].2)
                <= s.len() && tail[j].1 <= s.len() + 1 by {
                assert(tail[j] == sp[j + 1]);
            }
        }
        let v2 = if st > last {
            vpos + (st - last)
        } else {
            vpos
        };
        let clen = (en - w) - (st + w);
        lemma_mapping_bounds(s, tail, en, v2 + clen);
        let rest = mapping_from(s, tail, en, v2 + clen).1;
        let plain_segs = if st > last {
            seq![(vpos, vpos + (st - last), last, st, None::<InlineFormat>)]
        } else {
            seq![]
        };
        let seg = (v2, v2 + clen, st, en, Some(f));
        let g = mapping_from(s, sp, last, vpos).1;
        assert(g == plain_segs + seq![seg] + rest);
        let p = plain_segs.len() as int;
        assert(g[p] == seg);
        assert forall|i: int| p < i < g.len() implies #[trigger] g[i] == rest[i - p - 1] by {}
        assert forall|i: int| 0 <= i < p implies #[trigger] g[i] == plain_segs[i] by {}
    }
}

/// The segments of a text's mapping cannot overflow.
proof fn lemma_text_mapping_fits(s: Seq<char>, m: Seq<VisualSegment>)
    requires
        segs_view(m) == text_mapping(s).1,
        utf8_len(s) <= isize::MAX,
    ensures
        segments_fit(m),
{
    crate::text::lemma_utf8_len_ge(s);
    lemma_spans_from_wf(s, 0);
    lemma_mapping_bounds(s, inline_spans(s), 0, 0);
    lemma_mapping_shape(s, inline_spans(s), 0, 0);
    let g = segs_view(m);
    assert(g.len() == m.len());
    assert forall|i: int| 0 <= i < m.len() implies {
        &&& (#[trigger] m[i]).visual_start <= m[i].visual_end ==> m[i].real_start + (
        m[i].visual_end - m[i].visual_start) <= usize::MAX
        &&& m[i].real_start <= m[i].real_end ==> m[i].visual_start + (m[i].real_end
            - m[i].real_start) <= usize::MAX
    } by {
        assert(g[i] == seg_view(m[i]));
    }
}

/// The segments of `mapping_from` have that shape.
proof fn lemma_mapping_shape(s: Seq<char>, sp: Seq<(int, int, InlineFormat)>, last: int, vpos: int)
    requires
        spans_wf(s, sp, last),
    ensures
        segs_shape(mapping_from(s, sp, last, vpos).1, vpos, last),
    decreases sp.len(),
{
    if sp.len() > 0 {
        let st = sp[0].0;
        let en = sp[0].1;
        let f = sp[0].2;
        let w = marker_width(f);
        let tail = sp.drop_first();
        assert(spans_wf(s, tail, en)) by {
            assert forall|j: int| 0 <= j < tail.len() implies en <= (#[trigger] tail[j]).0 by {
                assert(tail[j] == sp[j + 1]);
                assert(sp[0].1 <= sp[j + 1].0);
            }
            assert forall|j: int, k: int| 0 <= j < k < tail.len() implies (#[trigger] tail[j]).1
                <= (#[trigger] tail[k]).0 by {
                assert(tail[j] == sp[j + 1]);
                assert(tail[k] == sp[k + 1]);
            }
            assert forall|j: int| 0 <= j < tail.len() implies (#[trigger] tail[j]).0 + 2
                * marker_width(tail[j].2) <= tail[j].1 && tail[j].1 - marker_width(tail[j].2)
                <= s.len() && tail[j].1 <= s.len() + 1 by {
                assert(tail[j] == sp[j + 1]);
            }
        }
        let v2 = if st > last {
            vpos + (st - last)
        } else {
            vpos
        };
        let clen = (en - w) - (st + w);
        lemma_mapping_shape(s, tail, en, v2 + clen);
        let rest = mapping_from(s, tail, en, v2 + clen).1;
        let plain_segs = if st > last {
            seq![(vpos, vpos + (st - last), last, st, None::<InlineFormat>)]
        } else {
            seq![]
        };
        let seg = (v2, v2 + clen, st, en, Some(f));
        let g = mapping_from(s, sp, last, vpos).1;
        assert(g == plain_segs + seq![seg] + rest);
        let p = plain_segs.len() as int;
        assert(g[p] == seg);
        assert forall|i: int| p < i < g.len() implies #[trigger] g[i] == rest[i - p - 1] by {}
        assert forall|i: int| 0 <= i < p implies #[trigger] g[i] == plain_segs[i] by {}
        assert forall|i: int, j: int| 0 <= i && j == i + 1 && j < g.len() implies (
        #[trigger] g[i]).1 == (#[trigger] g[j]).0 by {
            if j > p + 1 {
                assert(g[i] == rest[i - p - 1]);
                assert(g[j] == rest[j - p - 1]);
            } else if j == p + 1 {
                assert(g[j] == rest[0]);
            }
        }
        assert forall|i: int| 0 <= i < g.len() implies (#[trigger] g[i]).0 <= g[i].1 && last
            <= g[i].2 && g[i].2 + (g[i].1 - g[i].0) <= g[i].3 by {
            if i > p {
                assert(g[i] == rest[i - p - 1]);
            }
        }
        assert forall|i: int, j: int| 0 <= i < j < g.len() implies (#[trigger] g[i]).3 <= (
        #[trigger] g[j]).2 by {
            if j > p {
                assert(g[j] == rest[j - p - 1]);
                if i > p {
                    assert(g[i] == rest[i - p - 1]);
                }
            }
        }
    }
}

/// Mapping segments have the shape of `segs_shape` (from position 0).
pub open spec fn segments_shaped(m: Seq<VisualSegment>) -> bool {
    &&& m.len() > 0 ==> m[0].visual_start == 0
    &&& forall|i: int, j: int|
        0 <= i && j == i + 1 && j < m.len() ==> (#[trigger] m[i]).visual_end == (
        #[trigger] m[j]).visual_start
    &&& forall|i: int|
        0 <= i < m.len() ==> (#[trigger] m[i]).visual_start <= m[i].visual_end && m[i].real_start
            + (m[i].visual_end - m[i].visual_start) <= m[i].real_end
    &&& forall|i: int, j: int|
        0 <= i < j < m.len() ==> (#[trigger] m[i]).real_end <= (#[trigger] m[j]).real_start
}

/// Looking from segment `k` on, the raw position found is at least the
/// raw end of any earlier segment `j`.
proof fn lemma_v2r_lower(m: Seq<VisualSegment>, v: int, k: int, j: int)
    requires
        segments_shaped(m),
        0 <= j < k <= m.len(),
    ensures
        visual_to_real_from(m, v, k) >= m[j].real_end,
    decreases m.len() - k,
{
    if k < m.len() {
        if !(m[k].visual_start <= v <= m[k].visual_end) {
            lemma_v2r_lower(m, v, k + 1, j);
        }
    } else {
        let l = m.len() - 1;
        assert(m.last() == m[l]);
        if j < l {
            assert(m[j].real_end <= m[l].real_start);
        }
    }
}

/// Raw positions found from segment `j` on grow with the displayed
/// position.
proof fn lemma_v2r_mono(m: Seq<VisualSegment>, v1: int, v2: int, j: int)
    requires
        segments_shaped(m),
        0 <= j <= m.len(),
        v1 <= v2,
        j < m.len() ==> m[j].visual_start <= v1,
    ensures
        visual_to_real_from(m, v1, j) <= visual_to_real_from(m, v2, j),
    decreases m.len() - j,
{
    if j < m.len() {
        let g = m[j];
        if g.visual_start <= v2 <= g.visual_end {
        } else if g.visual_start <= v1 <= g.visual_end {
            lemma_v2r_lower(m, v2, j + 1, j);
        } else {
            if j + 1 < m.len() {
                assert(m[j].visual_end == m[j + 1].visual_start);
            }
            lemma_v2r_mono(m, v1, v2, j + 1);
        }
    }
}

/// Mapping a displayed position to the raw text never goes backwards: a
/// later displayed position gives a raw position at least as late, and
/// without segments every position maps to 0.
pub proof fn law_visual_to_real_monotone(s: Seq<char>, m: Seq<VisualSegment>, v1: int, v2: int)
    requires
        segs_view(m) == text_mapping(s).1,
        0 <= v1 <= v2,
    ensures
        visual_to_real_from(m, v1, 0) <= visual_to_real_from(m, v2, 0),
        m.len() == 0 ==> visual_to_real_from(m, v1, 0) == 0,
{
    lemma_spans_from_wf(s, 0);
    lemma_mapping_shape(s, inline_spans(s), 0, 0);
    let g = segs_view(m);
    assert(g.len() == m.len());
    assert forall|i: int| 0 <= i < m.len() implies #[trigger] g[i] == seg_view(m[i]) by {}
    assert forall|i: int, j: int| 0 <= i && j == i + 1 && j < m.len() implies (
    #[trigger] m[i]).visual_end == (#[trigger] m[j]).visual_start by {
        assert(g[i] == seg_view(m[i]));
        assert(g[j] == seg_view(m[j]));
    }
    assert forall|i: int| 0 <= i < m.len() implies (#[trigger] m[i]).visual_start
        <= m[i].visual_end && m[i].real_start + (m[i].visual_end - m[i].visual_start)
        <= m[i].real_end by {
        assert(g[i] == seg_view(m[i]));
    }
    assert forall|i: int, j: int| 0 <= i < j < m.len() implies (#[trigger] m[i]).real_end <= (
    #[trigger] m[j]).real_start by {
        assert(g[i] == seg_view(m[i]));
        assert(g[j] == seg_view(m[j]));
    }
    if m.len() > 0 {
        assert(g[0] == seg_view(m[0]));
    }
    lemma_v2r_mono(m, v1, v2, 0);
}

/// In ASCII text every byte offset up to the end is a character boundary,
/// so the cuts of `mapping_from` are all fine.
proof fn lemma_ascii_mapping_cuts(s: Seq<char>, sp: Seq<(int, int, InlineFormat)>, last: int)
    requires
        is_ascii_text(s),
        spans_wf(s, sp, last),
        0 <= last,
    ensures
        mapping_cuts_ok(s, sp, last),
    decreases sp.len(),
{
    lemma_ascii_utf8_len(s, s.len() as int);
    assert(s.subrange(0, s.len() as int) =~= s);
    if sp.len() == 0 {
        if last < s.len() {
            lemma_ascii_utf8_len(s, last);
        }
    } else {
        let st = sp[0].0;
        let en = sp[0].1;
        let w = marker_width(sp[0].2);
        if st > last {
            lemma_ascii_utf8_len(s, last);
            lemma_ascii_utf8_len(s, st);
        }
        lemma_ascii_utf8_len(s, st + w);
        lemma_ascii_utf8_len(s, en - w);
        let tail = sp.drop_first();
        assert(spans_wf(s, tail, en)) by {
            assert forall|j: int| 0 <= j < tail.len() implies en <= (#[trigger] tail[j]).0 by {
                assert(tail[j] == sp[j + 1]);
                assert(sp[0].1 <= sp[j + 1].0);
            }
            assert forall|j: int, k: int| 0 <= j < k < tail.len() implies (#[trigger] tail[j]).1
                <= (#[trigger] tail[k]).0 by {
                assert(tail[j] == sp[j + 1]);
                assert(tail[k] == sp[k + 1]);
            }
            assert forall|j: int| 0 <= j < tail.len() implies (#[trigger] tail[j]).0 + 2
                * marker_width(tail[j].2) <= tail[j].1 && tail[j].1 - marker_width(tail[j].2)
                <= s.len() && tail[j].1 <= s.len() + 1 by {
                assert(tail[j] == sp[j + 1]);
            }
        }
        lemma_ascii_mapping_cuts(s, tail, en);
    }
}

/// Every ASCII text can be mapped: `TextMapping::from_text` accepts it.
pub proof fn lemma_ascii_text_maps(s: Seq<char>)
    requires
        is_ascii_text(s),
    ensures
        mapping_cuts_ok(s, inline_spans(s), 0),
{
    lemma_spans_from_wf(s, 0);
    lemma_ascii_mapping_cuts(s, inline_spans(s), 0);
}

} // verus!
