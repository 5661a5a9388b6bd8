//! Inline Markdown formatting: `**bold**`, `*italic*` and `` `code` ``.
use vstd::prelude::*;

use core::ops::Range;

use crate::text::{
    byte_slice, char_count_bound, chars_of, find_from, find_seq, is_ascii_text, is_boundary,
    lemma_ascii_utf8_len, lemma_char_pos_mono,
    lemma_ends_are_boundaries, lemma_find_from, lemma_utf8_len_ge, occurs_at, push_byte_slice,
    str_byte_len, utf8_len,
};

verus! {

/// Kind of an inline span.
#[derive(Debug, Clone, Copy, PartialEq, Eq, Structural)]
pub enum InlineFormat {
    Bold,
    Italic,
    Code,
}

/// A formatted run of a line: `range` covers the run with its markers, in
/// character positions.
#[derive(Debug)]
pub struct InlineSpan {
    pub range: Range<usize>,
    pub format: InlineFormat,
}

impl Clone for InlineSpan {
    fn clone(&self) -> (r: Self)
        ensures
            r == *self,
    {
        InlineSpan { range: self.range.start..self.range.end, format: self.format }
    }
}

/// A span as (start, end, format).
pub open spec fn span_view(sp: InlineSpan) -> (int, int, InlineFormat) {
    (sp.range.start as int, sp.range.end as int, sp.format)
}

/// A list of spans as (start, end, format) triples.
pub open spec fn spans_view(v: Seq<InlineSpan>) -> Seq<(int, int, InlineFormat)> {
    v.map_values(|sp: InlineSpan| span_view(sp))
}

/// Width of the opening (and of the closing) marker of a format.
pub open spec fn marker_width(f: InlineFormat) -> int {
    match f {
        InlineFormat::Bold => 2,
        _ => 1,
    }
}

/// The spans found by scanning `s` from position `i`: at each position a
/// `**` with a later `**` opens a bold span up to the first such `**`; else
/// a `*` with a later `*` an italic span up to the first such `*`; else a
/// `` ` `` with a later `` ` `` a code span; scanning resumes after the
/// closing marker, and otherwise at the next position.
pub open spec fn spans_from(s: Seq<char>, i: int) -> Seq<(int, int, InlineFormat)>
    decreases s.len() - i,
{
    if i < 0 || i >= s.len() {
        seq![]
    } else if i + 1 < s.len() && s[i] == '*' && s[i + 1] == '*' && find_from(
        s,
        seq!['*', '*'],
        i + 2,
    ) is Some {
        let e = find_from(s, seq!['*', '*'], i + 2)->0;
        proof {
            lemma_find_from(s, seq!['*', '*'], i + 2);
        }
        seq![(i, e + 2, InlineFormat::Bold)] + spans_from(s, e + 2)
    } else if s[i] == '*' && find_from(s, seq!['*'], i + 1) is Some {
        let e = find_from(s, seq!['*'], i + 1)->0;
        proof {
            lemma_find_from(s, seq!['*'], i + 1);
        }
        seq![(i, e + 1, InlineFormat::Italic)] + spans_from(s, e + 1)
    } else if s[i] == '`' && find_from(s, seq!['`'], i + 1) is Some {
        let e = find_from(s, seq!['`'], i + 1)->0;
        proof {
            lemma_find_from(s, seq!['`'], i + 1);
        }
        seq![(i, e + 1, InlineFormat::Code)] + spans_from(s, e + 1)
    } else {
        spans_from(s, i + 1)
    }
}

/// The inline spans of a line.
pub open spec fn inline_spans(s: Seq<char>) -> Seq<(int, int, InlineFormat)> {
    spans_from(s, 0)
}

/// The spans `sp` lie in order inside `s[lo..]`, each wide enough for its
/// two markers.
pub open spec fn spans_wf(s: Seq<char>, sp: Seq<(int, int, InlineFormat)>, lo: int) -> bool {
    &&& forall|j: int|
        0 <= j < sp.len() ==> lo <= (#[trigger] sp[j]).0 && sp[j].0 + 2 * marker_width(sp[j].2)
            <= sp[j].1 <= s.len()
    &&& forall|j: int, k: int| 0 <= j < k < sp.len() ==> (#[trigger] sp[j]).1 <= (#[trigger] sp[k]).0
}

/// The spans found from `i` on are well formed.
pub proof fn lemma_spans_from_wf(s: Seq<char>, i: int)
    requires
        0 <= i,
    ensures
        spans_wf(s, spans_from(s, i), i),
    decreases s.len() - i,
{
    if i >= s.len() {
    } else if i + 1 < s.len() && s[i] == '*' && s[i + 1] == '*' && find_from(
        s,
        seq!['*', '*'],
        i + 2,
    ) is Some {
        let e = find_from(s, seq!['*', '*'], i + 2)->0;
        lemma_find_from(s, seq!['*', '*'], i + 2);
        lemma_spans_from_wf(s, e + 2);
        let rest = spans_from(s, e + 2);
        let all = seq![(i, e + 2, InlineFormat::Bold)] + rest;
        assert forall|j: int, k: int| 0 <= j < k < all.len() implies (#[trigger] all[j]).1 <= (
        #[trigger] all[k]).0 by {
            if j > 0 {
                assert(all[j] == rest[j - 1]);
            }
            assert(all[k] == rest[k - 1]);
        }
    } else if s[i] == '*' && find_from(s, seq!['*'], i + 1) is Some {
        let e = find_from(s, seq!['*'], i + 1)->0;
        lemma_find_from(s, seq!['*'], i + 1);
        lemma_spans_from_wf(s, e + 1);
        let rest = spans_from(s, e + 1);
        let all = seq![(i, e + 1, InlineFormat::Italic)] + rest;
        assert forall|j: int, k: int| 0 <= j < k < all.len() implies (#[trigger] all[j]).1 <= (
        #[trigger] all[k]).0 by {
            if j > 0 {
                assert(all[j] == rest[j - 1]);
            }
            assert(all[k] == rest[k - 1]);
        }
    } else if s[i] == '`' && find_from(s, seq!['`'], i + 1) is Some {
        let e = find_from(s, seq!['`'], i + 1)->0;
        lemma_find_from(s, seq!['`'], i + 1);
        lemma_spans_from_wf(s, e + 1);
        let rest = spans_from(s, e + 1);
        let all = seq![(i, e + 1, InlineFormat::Code)] + rest;
        assert forall|j: int, k: int| 0 <= j < k < all.len() implies (#[trigger] all[j]).1 <= (
        #[trigger] all[k]).0 by {
            if j > 0 {
                assert(all[j] == rest[j - 1]);
            }
            assert(all[k] == rest[k - 1]);
        }
    } else {
        lemma_spans_from_wf(s, i + 1);
    }
}

/// First index at or after `start` where `pattern` occurs in `chars`.
fn find_closing_pattern(chars: &[char], start: usize, pattern: &[char]) -> (r: Option<usize>)
    requires
        pattern@.len() <= chars@.len() + 1,
    ensures
        r matches Some(k) ==> find_from(chars@, pattern@, start as int) == Some(k as int),
        r is None ==> find_from(chars@, pattern@, start as int) is None,
{
    find_seq(chars, pattern, start)
}

/// First index at or after `start` holding `closing`.
fn find_closing_char(chars: &[char], start: usize, closing: char) -> (r: Option<usize>)
    ensures
        r matches Some(k) ==> find_from(chars@, seq![closing], start as int) == Some(k as int),
        r is None ==> find_from(chars@, seq![closing], start as int) is None,
{
    let pat = vec![closing];
    assert(pat@ == seq![closing]);
    find_seq(chars, &pat, start)
}

/// The inline spans of `text` (see `spans_from`), in order.
pub fn parse_inline_formatting(text: &str) -> (spans: Vec<InlineSpan>)
    ensures
        spans_view(spans@) == inline_spans(text@),
{
    let chars = chars_of(text);
    let mut spans: Vec<InlineSpan> = Vec::new();
    let mut i: usize = 0;
    let ghost s = chars@;
    let dstar = vec!['*', '*'];
    assert(dstar@ == seq!['*', '*']);
    while i < chars.len()
        invariant
            s == chars@,
            s == text@,
            dstar@ == seq!['*', '*'],
            i <= s.len(),
            inline_spans(s) == spans_view(spans@) + spans_from(s, i as int),
        decreases s.len() - i,
    {
        let ghost old_spans = spans@;
        if i + 1 < chars.len() && chars[i] == '*' && chars[i + 1] == '*' {
            if let Some(end) = find_closing_pattern(&chars, i + 2, &dstar) {
                proof {
                    lemma_find_from(s, seq!['*', '*'], i + 2);
                }
                spans.push(InlineSpan { range: i..end + 2, format: InlineFormat::Bold });
                assert(spans_view(spans@) =~= spans_view(old_spans) + seq![
                    (i as int, end + 2, InlineFormat::Bold),
                ]);
                i = end + 2;
                continue;
            }
        }
        if chars[i] == '*' {
            if let Some(end) = find_closing_char(&chars, i + 1, '*') {
                proof {
                    lemma_find_from(s, seq!['*'], i + 1);
                }
                spans.push(InlineSpan { range: i..end + 1, format: InlineFormat::Italic });
                assert(spans_view(spans@) =~= spans_view(old_spans) + seq![
                    (i as int, end + 1, InlineFormat::Italic),
                ]);
                i = end + 1;
                continue;
            }
        }
        if chars[i] == '`' {
            if let Some(end) = find_closing_char(&chars, i + 1, '`') {
                proof {
                    lemma_find_from(s, seq!['`'], i + 1);
                }
                spans.push(InlineSpan { range: i..end + 1, format: InlineFormat::Code });
                assert(spans_view(spans@) =~= spans_view(old_spans) + seq![
                    (i as int, end + 1, InlineFormat::Code),
                ]);
                i = end + 1;
                continue;
            }
        }
        i = i + 1;
    }
    assert(spans_view(spans@) + spans_from(s, i as int) =~= spans_view(spans@));
    spans
}

/// The text of a span without its markers.  Span positions are character
/// positions taken as byte offsets into the line.
pub open spec fn span_inner(s: Seq<char>, sp: (int, int, InlineFormat)) -> Seq<char> {
    byte_slice(s, sp.0 + marker_width(sp.2), sp.1 - marker_width(sp.2))
}

/// `s` from byte `last` on with every span of `sp` replaced by its inner
/// text (span positions taken as byte offsets).
pub open spec fn strip_spans(s: Seq<char>, sp: Seq<(int, int, InlineFormat)>, last: int) -> Seq<
    char,
>
    decreases sp.len(),
{
    if sp.len() == 0 {
        byte_slice(s, last, utf8_len(s) as int)
    } else {
        byte_slice(s, last, sp[0].0) + span_inner(s, sp[0]) + strip_spans(
            s,
            sp.drop_first(),
            sp[0].1,
        )
    }
}

/// Every byte offset at which `strip_spans` cuts the line lies on a
/// character boundary (elsewhere slicing the line fails).
pub open spec fn plain_cuts_ok(s: Seq<char>, sp: Seq<(int, int, InlineFormat)>, last: int) -> bool
    decreases sp.len(),
{
    &&& is_boundary(s, last)
    &&& sp.len() > 0 ==> {
        let w = marker_width(sp[0].2);
        &&& is_boundary(s, sp[0].0)
        &&& is_boundary(s, sp[0].0 + w)
        &&& is_boundary(s, sp[0].1 - w)
        &&& plain_cuts_ok(s, sp.drop_first(), sp[0].1)
    }
}

/// A line with the markers of its inline spans removed.
pub open spec fn plain_text(s: Seq<char>) -> Seq<char> {
    strip_spans(s, inline_spans(s), 0)
}

/// `text` with the markers of its inline spans removed (see `plain_text`).
/// The text is cut at the spans' character positions taken as byte
/// offsets, which must lie on character boundaries.
pub fn extract_plain_text(text: &str) -> (r: String)
    requires
        plain_cuts_ok(text@, inline_spans(text@), 0),
    ensures
        r@ == plain_text(text@),
{
    char_count_bound(text);
    let spans = parse_inline_formatting(text);
    let chars = chars_of(text);
    let n = str_byte_len(text);
    let ghost s = chars@;
    let ghost sp = spans_view(spans@);
    proof {
        lemma_spans_from_wf(s, 0);
        lemma_utf8_len_ge(s);
        lemma_ends_are_boundaries(s);
    }
    let mut result = String::new();
    let mut last: usize = 0;
    let mut j: usize = 0;
    assert(sp.skip(0) =~= sp);
    assert(result@ + strip_spans(s, sp.skip(0), 0) =~= plain_text(s));
    while j < spans.len()
        invariant
            s == chars@,
            s == text@,
            n == utf8_len(s),
            n <= isize::MAX,
            sp == spans_view(spans@),
            sp == inline_spans(s),
            spans_wf(s, sp, 0),
            j <= sp.len(),
            last <= s.len(),
            forall|k: int| j <= k < sp.len() ==> last <= (#[trigger] sp[k]).0,
            plain_cuts_ok(s, sp.skip(j as int), last as int),
            result@ + strip_spans(s, sp.skip(j as int), last as int) == plain_text(s),
        decreases sp.len() - j,
    {
        let start = spans[j].range.start;
        let end = spans[j].range.end;
        let w: usize = match spans[j].format {
            InlineFormat::Bold => 2,
            _ => 1,
        };
        assert(sp[j as int] == (start as int, end as int, spans@[j as int].format));
        assert(sp.skip(j as int)[0] == sp[j as int]);
        assert(sp.skip(j as int).drop_first() =~= sp.skip(j + 1));
        let ghost before = result@;
        push_byte_slice(&mut result, &chars, last, start);
        push_byte_slice(&mut result, &chars, start + w, end - w);
        assert(result@ == before + byte_slice(s, last as int, start as int) + span_inner(
            s,
            sp[j as int],
        ));
        last = end;
        j = j + 1;
    }
    assert(sp.skip(j as int).len() == 0);
    proof {
        lemma_char_pos_mono(s, last as int, n as int);
    }
    push_byte_slice(&mut result, &chars, last, n);
    result
}

/// In ASCII text every byte offset up to the end is a character boundary,
/// so the cuts of `strip_spans` are all fine.
proof fn lemma_ascii_plain_cuts(s: Seq<char>, sp: Seq<(int, int, InlineFormat)>, last: int)
    requires
        is_ascii_text(s),
        spans_wf(s, sp, last),
        0 <= last <= s.len(),
    ensures
        plain_cuts_ok(s, sp, last),
    decreases sp.len(),
{
    lemma_ascii_utf8_len(s, last);
    if sp.len() > 0 {
        let st = sp[0].0;
        let en = sp[0].1;
        let w = marker_width(sp[0].2);
        lemma_ascii_utf8_len(s, st);
        lemma_ascii_utf8_len(s, st + w);
        lemma_ascii_utf8_len(s, en - w);
        let tail = sp.drop_first();
        assert(spans_wf(s, tail, en)) by {
            assert forall|j: int| 0 <= j < tail.len() implies en <= (#[trigger] tail[j]).0 && tail[j].0
                + 2 * marker_width(tail[j].2) <= tail[j].1 <= s.len() by {
                assert(tail[j] == sp[j + 1]);
                assert(sp[0].1 <= sp[j + 1].0);
            }
            assert forall|j: int, k: int| 0 <= j < k < tail.len() implies (#[trigger] tail[j]).1
                <= (#[trigger] tail[k]).0 by {
                assert(tail[j] == sp[j + 1]);
                assert(tail[k] == sp[k + 1]);
            }
        }
        lemma_ascii_plain_cuts(s, tail, en);
    }
}

/// The plain text of every ASCII line can be taken: `extract_plain_text`
/// accepts it.
pub proof fn lemma_ascii_plain_text_ok(s: Seq<char>)
    requires
        is_ascii_text(s),
    ensures
        plain_cuts_ok(s, inline_spans(s), 0),
{
    lemma_spans_from_wf(s, 0);
    lemma_ascii_plain_cuts(s, inline_spans(s), 0);
}

} // verus!
